use mira_core::attrindex::index;
use mira_core::attrs::AttrsBuilder;
use mira_core::block::{dir_name, node_id, BlockRef};
use mira_core::bloom::{build, TRACE_IDX};
use mira_core::float::Floats;
use mira_core::identity::hash64;
use mira_core::interning::ResourceScope;
use mira_core::logs::LogsBuilder;
use mira_core::otlp::{
    AnyKind, AnyValue, ExportLogsServiceRequest, InstrumentationScope, KeyValue, LogRecord,
    Resource, ResourceLogs, ScopeLogs,
};
use mira_core::probe::{attr_probes, Sides};
use mira_core::query::{Cursor, Op, Search, Signal, Target, Term, Value};
use mira_core::scan::{index_parent_of_id, Block, Named};
use mira_core::search::{search, Results, Stored};
use mira_core::signal::Sealed;
use mira_core::table::{Column, Data, Field, Table};

fn any(v: AnyKind) -> AnyValue {
    AnyValue { value: Some(v) }
}

fn text(s: &str) -> AnyKind {
    AnyKind::StringValue(s.to_string())
}

fn attr(k: &str, v: AnyKind) -> KeyValue {
    KeyValue { key: k.to_string(), value: Some(any(v)) }
}

fn kv(k: &str, v: &str) -> KeyValue {
    attr(k, text(v))
}

fn record(time: u64) -> LogRecord {
    LogRecord {
        time_unix_nano: time,
        observed_time_unix_nano: 0,
        severity_number: 0,
        severity_text: String::new(),
        body: None,
        attributes: Vec::new(),
        dropped_attributes_count: 0,
        flags: 0,
        trace_id: Vec::new(),
        span_id: Vec::new(),
        event_name: String::new(),
    }
}

fn line(i: u64, time: u64) -> LogRecord {
    LogRecord {
        severity_number: 9,
        severity_text: "INFO".to_string(),
        body: Some(any(text(&format!("line {i}")))),
        attributes: vec![kv("http.method", "GET")],
        trace_id: vec![7u8; 16],
        span_id: vec![3u8; 8],
        ..record(time)
    }
}

fn seal(resource: Vec<KeyValue>, scope: &str, records: Vec<LogRecord>) -> Sealed {
    let mut b = LogsBuilder::new();
    b.append_request(
        &ExportLogsServiceRequest {
            resource_logs: vec![ResourceLogs {
                resource: Some(Resource { attributes: resource, dropped_attributes_count: 0 }),
                scope_logs: vec![ScopeLogs {
                    scope: Some(InstrumentationScope {
                        name: scope.to_string(),
                        version: String::new(),
                        attributes: Vec::new(),
                        dropped_attributes_count: 0,
                    }),
                    log_records: records,
                }],
            }],
        },
        1,
    )
    .unwrap();
    b.finish().unwrap()
}

fn service(name: &str) -> Vec<KeyValue> {
    vec![kv("service.name", name), kv("service.instance.id", "7f3a")]
}

fn block(seq: u64, s: &Sealed) -> BlockRef {
    let node = node_id("a");
    BlockRef {
        dir: dir_name(s.min_ts, s.max_ts, node, seq, 0),
        min_ts: s.min_ts,
        max_ts: s.max_ts,
        node,
        seq,
        wal_hi: 0,
    }
}

fn blocks(sealed: &[Sealed]) -> Vec<BlockRef> {
    sealed.iter().enumerate().map(|(i, s)| block(i as u64, s)).collect()
}

fn no_sides() -> Sides {
    Sides { trace: None, attrs: None, ranges: None }
}

/// What floating point says of the numbers and texts these tests use.
fn floats() -> Floats {
    let mut f = Floats::new();
    for s in ["1.5", "99", "200", "404", "500"] {
        f.add_reading(s, s.parse::<f64>().unwrap().to_bits());
    }
    f.add_text(1.5f64.to_bits(), "1.5");
    f.add_text(200f64.to_bits(), "200");
    f
}

/// The answers of a filter built over a block's attributes, were it exact.
fn answers(q: &Search, tables: &Vec<Named>, floats: &Floats) -> Option<(Vec<bool>, bool)> {
    let ix = index(tables)?;
    let probes = attr_probes(q, floats);
    if probes.is_empty() {
        return None;
    }
    let held = probes
        .iter()
        .map(|p| ix.pairs.iter().any(|(k, v)| k == p.key && *v == p.text))
        .collect();
    Some((held, ix.has_double))
}

fn run(sealed: &[Sealed], q: &Search) -> Results {
    let floats = floats();
    let stored = sealed
        .iter()
        .map(|s| Stored {
            sides: Sides { attrs: answers(q, &s.tables, &floats), ..no_sides() },
            block: Block::open(&s.tables, q.signal),
        })
        .collect();
    search(&blocks(sealed), &stored, q, &floats)
}

fn logs(terms: Vec<Term>, from: i64, to: i64, limit: usize) -> Search {
    Search { signal: Signal::Logs, from, to, terms, limit, after: None }
}

fn string(s: &str) -> Value {
    Value::Str(s.to_string())
}

fn on_attr(k: &str, op: Op, value: Value) -> Term {
    Term { target: Target::Attr(k.to_string()), op, value }
}

fn on_field(k: &str, op: Op, value: Value) -> Term {
    Term { target: Target::Field(k.to_string()), op, value }
}

#[test]
fn search_filters_across_attribute_levels_and_prunes_by_time() {
    // Two blocks, two services, disjoint time ranges. Block 1 is older.
    let sealed: Vec<Sealed> = [("checkout", 1_000u64), ("payments", 5_000)]
        .into_iter()
        .map(|(name, base)| {
            let records = (0..10).map(|i| line(i, base + i)).collect();
            seal(service(name), "test", records)
        })
        .collect();
    let find = |terms: Vec<Term>, from: i64, to: i64, limit: usize| {
        run(&sealed, &logs(terms, from, to, limit))
    };
    let attr = |k: &str, v: &str| on_attr(k, Op::Eq, string(v));

    // A resource attribute, without the caller saying so.
    let r = find(vec![attr("service.name", "payments")], 0, i64::MAX, 100);
    assert_eq!(r.stats.rows_matched, 10);
    assert!(r.json.contains("\"service.name\":\"payments\""));
    assert!(!r.json.contains("checkout"));
    // Time did not prune this, but the attribute filter did.
    assert_eq!(r.stats.blocks_scanned, 1);

    // A record attribute, on every row of both blocks.
    let r = find(vec![attr("http.method", "GET")], 0, i64::MAX, 100);
    assert_eq!(r.stats.rows_matched, 20);

    // A key that exists nowhere matches nothing rather than erroring.
    let r = find(vec![attr("nope", "x")], 0, i64::MAX, 100);
    assert_eq!(r.stats.rows_matched, 0);
    assert_eq!(r.json, "[]");

    // The older block is never touched.
    let r = find(vec![], 5_000, 9_000, 100);
    assert_eq!(r.stats.blocks_total, 2);
    assert_eq!(r.stats.blocks_scanned, 1, "the 1_000-range block must prune");
    assert_eq!(r.stats.rows_matched, 10);

    // Dictionary column, substring op.
    let r = find(
        vec![on_field("severity_text", Op::Contains, string("NF"))],
        0,
        i64::MAX,
        100,
    );
    assert_eq!(r.stats.rows_matched, 20);

    // A numeric field given as a string.
    let r = find(
        vec![on_field("severity_number", Op::Gte, string("9"))],
        0,
        i64::MAX,
        100,
    );
    assert_eq!(r.stats.rows_matched, 20);

    // Fixed-size bytes queried as hex.
    let r = find(
        vec![on_field("trace_id", Op::Eq, string(&"07".repeat(16)))],
        0,
        i64::MAX,
        100,
    );
    assert_eq!(r.stats.rows_matched, 20);
    // ...and a malformed one matches nothing instead of a prefix.
    let r = find(
        vec![on_field("trace_id", Op::Eq, string("07"))],
        0,
        i64::MAX,
        100,
    );
    assert_eq!(r.stats.rows_matched, 0);

    // Terms are AND-ed.
    let r = find(
        vec![attr("service.name", "checkout"), attr("http.method", "GET")],
        0,
        i64::MAX,
        100,
    );
    assert_eq!(r.stats.rows_matched, 10);

    // With a limit satisfied by the newest block, the older one is never opened
    // even though it overlaps the window.
    let r = find(vec![], 0, i64::MAX, 5);
    assert_eq!(r.stats.blocks_scanned, 1);
    assert_eq!(r.json.matches("\"body\"").count(), 5);
    // Newest first; a 64-bit number goes out as a string.
    assert!(r.json.starts_with("[{\"time_unix_nano\":\"5009\","));
    // Block-local plumbing never reaches the caller.
    assert!(!r.json.contains("resource_id"));
    assert!(!r.json.contains("\"id\""));
    // All three attribute levels are present on one row.
    assert!(r.json.contains("\"otel.scope.name\":\"test\""));
}

#[test]
fn the_attribute_filter_skips_blocks_without_losing_coercions() {
    const BLOCKS: u64 = 8;
    let sealed: Vec<Sealed> = (0..BLOCKS)
        .map(|seq| {
            let attrs = || {
                let mut attrs = vec![kv("k8s.pod.name", &format!("api-{seq}"))];
                // One block carries the three non-string types.
                if seq == 3 {
                    attrs.push(attr("http.status_code", AnyKind::IntValue(200)));
                    attrs.push(attr("retry", AnyKind::BoolValue(true)));
                    attrs.push(attr("ratio", AnyKind::DoubleValue(1.5f64.to_bits())));
                    attrs.push(kv("status.text", "404"));
                }
                attrs
            };
            let records = (0..2)
                .map(|i| LogRecord { attributes: attrs(), ..line(i, 1_000 + i) })
                .collect();
            seal(service("checkout"), "test", records)
        })
        .collect();
    let find_op =
        |key: &str, op: Op, value: Value| run(&sealed, &logs(vec![on_attr(key, op, value)], 0, i64::MAX, 100));
    let find = |key: &str, value: Value| find_op(key, Op::Eq, value);

    // One block holds the value, seven are ruled out without being opened.
    let r = find("k8s.pod.name", string("api-5"));
    assert_eq!(r.stats.blocks_total, BLOCKS as usize);
    assert_eq!(r.stats.blocks_scanned, 1, "the filter must skip the rest");
    assert_eq!(r.stats.rows_matched, 2);

    // A value in no block at all.
    let r = find("k8s.pod.name", string("api-99"));
    assert_eq!(r.stats.rows_matched, 0);
    assert!(r.stats.blocks_scanned <= 1, "{}", r.stats.blocks_scanned);

    // The coercions. Each of these must find the two rows in block 3.
    for (key, value) in [
        ("http.status_code", Value::Int(200)),
        ("http.status_code", string("200")),
        ("http.status_code", Value::Double(200f64.to_bits())),
        ("retry", Value::Bool(true)),
        ("retry", string("true")),
        // Doubles are not listed at all; block 3 declares it holds some.
        ("ratio", Value::Double(1.5f64.to_bits())),
        ("ratio", string("1.5")),
    ] {
        let r = find(key, value.clone());
        assert_eq!(r.stats.rows_matched, 2, "{key} = {value:?}");
    }

    // The reverse direction: a number against stored text.
    let r = find("status.text", Value::Int(404));
    assert_eq!(r.stats.rows_matched, 2);
    assert_eq!(r.stats.blocks_scanned, 1, "and it is still pruned");

    // Ordering against a number stored as text is numeric, not lexicographic.
    assert_eq!(find_op("status.text", Op::Lt, Value::Int(500)).stats.rows_matched, 2);
    assert_eq!(find_op("status.text", Op::Gt, Value::Int(99)).stats.rows_matched, 2);
    // A quoted scalar asked for a text comparison and still gets one.
    assert_eq!(find_op("status.text", Op::Gt, string("99")).stats.rows_matched, 0);
    // `contains` renders the scalar rather than refusing it.
    assert_eq!(find_op("status.text", Op::Contains, Value::Int(40)).stats.rows_matched, 2);

    // A string that cannot be read as a number must still prune the block that
    // holds doubles.
    let r = find("ratio", string("banana"));
    assert_eq!(r.stats.rows_matched, 0);
    assert!(r.stats.blocks_scanned <= 1, "{}", r.stats.blocks_scanned);

    // A missing sidecar has to cost a block read, never a lost row.
    let q = logs(vec![on_attr("k8s.pod.name", Op::Eq, string("api-5"))], 0, i64::MAX, 100);
    let stored = sealed
        .iter()
        .map(|s| Stored { sides: no_sides(), block: Block::open(&s.tables, Signal::Logs) })
        .collect();
    let r = search(&blocks(&sealed), &stored, &q, &floats());
    assert_eq!(r.stats.blocks_scanned, BLOCKS as usize);
    assert_eq!(r.stats.rows_matched, 2);
}

#[test]
fn an_attribute_v0_cannot_filter_still_renders_and_still_matches_nothing() {
    let sealed = [seal(
        Vec::new(),
        "",
        vec![LogRecord {
            attributes: vec![
                KeyValue { key: "note".to_string(), value: None },
                attr("payload", AnyKind::BytesValue(vec![0xde, 0xad])),
                attr("tags", AnyKind::ArrayValue(vec![any(text("a"))])),
                attr(
                    "gen_ai.input.messages",
                    AnyKind::KvlistValue(vec![kv("role", "user")]),
                ),
                kv("level", "a dead role"),
            ],
            ..record(1_000)
        }],
    )];
    let scan = |terms: Vec<Term>| run(&sealed, &logs(terms, 0, i64::MAX, 10));
    let contains = |k: &str, v: &str| vec![on_attr(k, Op::Contains, string(v))];

    assert_eq!(scan(contains("level", "dead")).stats.rows_matched, 1);
    for (key, needle) in [
        ("note", ""),
        ("payload", "dead"),
        ("tags", "a"),
        ("gen_ai.input.messages", "role"),
    ] {
        let r = scan(contains(key, needle));
        assert_eq!(r.stats.rows_matched, 0, "{key}: {}", r.json);
        assert_eq!(r.stats.blocks_scanned, 1, "{key}");
    }

    // And every one of them is still in the row.
    let row = scan(Vec::new()).json;
    assert!(row.contains(r#""note":null"#), "{row}");
    assert!(row.contains(r#""payload":"dead""#), "{row}");
    assert!(row.contains(r#""tags":["a"]"#), "{row}");
    assert!(
        row.contains(r#""gen_ai.input.messages":{"role":"user"}"#),
        "{row}"
    );

    // The index that turns a child id into a root row, on a table that has only
    // one of the columns: empty, so every lookup misses.
    let only = |name: &str| Table { fields: vec![field(name, Data::U32(vec![0, 1]))], rows: 2 };
    assert!(index_parent_of_id(&only("id")).is_empty());
    assert!(index_parent_of_id(&only("parent_id")).is_empty());
}

#[test]
fn rows_matched_counts_what_is_left_behind_the_cursor() {
    let base = 1_700_000_000_000_000_000u64;
    let records = (0..5)
        .map(|i| LogRecord {
            body: Some(any(text(&format!("line {i}")))),
            ..record(base + i * 1_000_000_000)
        })
        .collect();
    let sealed = [seal(Vec::new(), "mira.test", records)];
    let page = |after: Option<Cursor>| {
        let q = Search { after, ..logs(Vec::new(), 0, i64::MAX, 2) };
        run(&sealed, &q)
    };

    // Five rows, two per page: the sequence falls by the page size and the last
    // page is exact.
    let mut cursor = None;
    for want in [5, 3, 1] {
        let r = page(cursor);
        assert_eq!(r.stats.rows_matched, want, "{}", r.json);
        cursor = r.next;
    }
    // A short page is the last page, so there is nothing to ask for again.
    assert_eq!(cursor, None);
}

fn field(name: &str, data: Data) -> Field {
    Field { name: name.to_string(), column: Column { valid: None, data } }
}

fn named(name: &str, fields: Vec<Field>) -> Named {
    let rows = fields[0].column.len();
    Named { name: name.to_string(), table: Table { fields, rows } }
}

fn attr_table(name: &str, rows: &[(u32, &str, &str)]) -> Named {
    let mut b = AttrsBuilder::new("key");
    for (parent, k, v) in rows {
        b.append(*parent, k, Some(&any(text(v)))).unwrap();
    }
    Named { name: name.to_string(), table: b.finish().unwrap() }
}

/// The tables of a traces block of three spans. Span 0 has two events, span 1
/// the throw, and span 2 a link: the throwing event's own id is 2 while the
/// span it belongs to is row 1.
fn spans_with_children() -> Vec<Named> {
    let mut rs = ResourceScope::new();
    rs.resource(Some(&Resource {
        attributes: vec![kv("service.name", "checkout")],
        dropped_attributes_count: 0,
    }))
    .unwrap();
    rs.scope(Some(&InstrumentationScope {
        name: "mira.test".to_string(),
        version: String::new(),
        attributes: Vec::new(),
        dropped_attributes_count: 0,
    }))
    .unwrap();
    let texts = |v: &[&str]| Data::Text(v.iter().map(|s| s.to_string()).collect());
    let mut tables = vec![
        named(
            "spans",
            vec![
                field("id", Data::U32(vec![0, 1, 2])),
                field("trace_id", Data::Fixed(vec![vec![1; 16]; 3])),
                field("span_id", Data::Fixed((1..4u8).map(|i| vec![i; 8]).collect())),
                field("name", texts(&["span 0", "span 1", "span 2"])),
                field(
                    "start_time_unix_nano",
                    Data::Time(vec![10_000, 10_001, 10_002]),
                ),
                field("duration_nano", Data::U64(vec![100, 100, 100])),
                field("resource_id", Data::U16(vec![0, 0, 0])),
                field("scope_id", Data::U16(vec![0, 0, 0])),
            ],
        ),
        attr_table(
            "span_attrs",
            &[
                (0, "http.method", "GET"),
                (1, "http.method", "GET"),
                (2, "http.method", "GET"),
            ],
        ),
        named(
            "span_events",
            vec![
                field("id", Data::U32(vec![0, 1, 2])),
                field("parent_id", Data::U32(vec![0, 0, 1])),
                field("time_unix_nano", Data::Time(vec![10_050; 3])),
                field("name", texts(&["cache.miss", "retrying", "exception"])),
            ],
        ),
        attr_table(
            "span_event_attrs",
            &[
                (0, "cache.key", "cart:7"),
                (2, "exception.type", "NullPointerException"),
            ],
        ),
        named(
            "span_links",
            vec![
                field("id", Data::U32(vec![0])),
                field("parent_id", Data::U32(vec![2])),
                field("trace_id", Data::Fixed(vec![vec![9; 16]])),
                field("span_id", Data::Fixed(vec![vec![8; 8]])),
            ],
        ),
        attr_table("span_link_attrs", &[(0, "link.kind", "follows_from")]),
    ];
    tables.extend(rs.finish().unwrap());
    tables
}

fn strip(tables: &mut Vec<Named>, table: &str, col: &str) {
    for t in tables.iter_mut().filter(|t| t.name == table) {
        t.table.fields.retain(|f| f.name != col);
    }
}

#[test]
fn an_attribute_on_a_span_event_or_link_selects_the_span_it_hangs_off() {
    let mut sealed = Sealed::with(3, spans_with_children(), 10_000, 10_102);
    let find = |sealed: &Sealed, key: &str, value: &str| {
        let q = Search {
            signal: Signal::Traces,
            ..logs(vec![on_attr(key, Op::Eq, string(value))], 0, i64::MAX, 10)
        };
        let stored = vec![Stored {
            sides: no_sides(),
            block: Block::open(&sealed.tables, Signal::Traces),
        }];
        search(&vec![block(0, sealed)], &stored, &q, &floats())
    };

    for (key, value, want) in [
        ("exception.type", "NullPointerException", "span 1"),
        ("cache.key", "cart:7", "span 0"),
        ("link.kind", "follows_from", "span 2"),
    ] {
        let r = find(&sealed, key, value);
        assert_eq!(r.stats.rows_matched, 1, "{key}: {}", r.json);
        assert!(
            r.json.contains(&format!(r#""name":"{want}""#)),
            "{}",
            r.json
        );
    }

    // The other three levels still answer, and a value nothing carries still
    // matches nothing.
    assert_eq!(find(&sealed, "http.method", "GET").stats.rows_matched, 3);
    assert_eq!(find(&sealed, "service.name", "checkout").stats.rows_matched, 3);
    assert_eq!(find(&sealed, "exception.type", "IOError").stats.rows_matched, 0);

    // The value is still rendered where it was found.
    let r = find(&sealed, "exception.type", "NullPointerException");
    assert!(
        r.json
            .contains(r#""attributes":{"exception.type":"NullPointerException"}"#),
        "{}",
        r.json
    );

    // Without the column the join goes through, every lookup has to miss.
    strip(&mut sealed.tables, "span_events", "parent_id");
    let r = find(&sealed, "exception.type", "NullPointerException");
    assert_eq!(r.stats.rows_matched, 0, "{}", r.json);
    assert!(
        !r.json.contains("span"),
        "an unjoinable event picked a span"
    );
    // One broken join and not a broken block.
    assert_eq!(find(&sealed, "link.kind", "follows_from").stats.rows_matched, 1);
    assert_eq!(find(&sealed, "http.method", "GET").stats.rows_matched, 3);

    // No rows without the column every scan starts from.
    strip(&mut sealed.tables, "spans", "start_time_unix_nano");
    let r = find(&sealed, "http.method", "GET");
    assert_eq!(r.stats.blocks_scanned, 1, "the block was still opened");
    assert_eq!(r.json, "[]");
    assert_eq!(r.stats.rows_matched, 0);
}

#[test]
fn a_trace_lookup_opens_only_the_block_holding_the_trace() {
    // Ids from a hash, not a counter: the filter's premise is that trace ids
    // are uniform.
    let tid = |n: u64| {
        let mut b = [0u8; 16];
        b[..8].copy_from_slice(&hash64(&n.to_le_bytes()).to_le_bytes());
        b[8..].copy_from_slice(&hash64(&(!n).to_le_bytes()).to_le_bytes());
        b
    };

    const BLOCKS: u64 = 8;
    let mut sealed = Vec::new();
    for seq in 0..BLOCKS {
        // Overlapping time ranges on every block, so nothing here can be
        // credited to time pruning.
        let ids: Vec<Vec<u8>> = (0..4).map(|i| tid(seq * 4 + i).to_vec()).collect();
        let spans = named(
            "spans",
            vec![
                field("id", Data::U32(vec![0, 1, 2, 3])),
                field("trace_id", Data::Fixed(ids)),
                field("span_id", Data::Fixed((1..5u8).map(|i| vec![i; 8]).collect())),
                field("name", Data::Text(vec!["GET /checkout".to_string(); 4])),
                field(
                    "start_time_unix_nano",
                    Data::Time(vec![1_000, 1_001, 1_002, 1_003]),
                ),
                field("duration_nano", Data::U64(vec![100; 4])),
                field("resource_id", Data::U16(vec![0; 4])),
                field("scope_id", Data::U16(vec![0; 4])),
            ],
        );
        let filter = build(spans.table.column_by_name("trace_id").unwrap());
        let s = Sealed::with(4, vec![spans], 1_000, 1_103).with_sidecar(TRACE_IDX, filter);
        assert!(
            s.sidecars.iter().any(|s| s.name == TRACE_IDX),
            "traces publish a trace filter"
        );
        sealed.push(s);
    }

    let lookup = |id: String, filters: bool| {
        let q = Search {
            signal: Signal::Traces,
            ..logs(vec![on_field("trace_id", Op::Eq, string(&id))], 0, i64::MAX, 100)
        };
        let stored = sealed
            .iter()
            .map(|s| Stored {
                sides: Sides {
                    trace: filters.then(|| s.sidecars[0].bytes.clone()),
                    ..no_sides()
                },
                block: Block::open(&s.tables, Signal::Traces),
            })
            .collect();
        search(&blocks(&sealed), &stored, &q, &floats())
    };

    let hex = |b: [u8; 16]| b.iter().map(|x| format!("{x:02x}")).collect::<String>();
    let r = lookup(hex(tid(17)), true);
    assert_eq!(r.stats.blocks_total, BLOCKS as usize);
    assert_eq!(r.stats.blocks_scanned, 1, "the filter must skip the rest");
    assert_eq!(r.stats.rows_matched, 1);

    // An id in no block at all: with 8 filters probed, a false positive is
    // possible, so this asserts the bound rather than zero.
    let r = lookup(hex(tid(9_999)), true);
    assert_eq!(r.stats.rows_matched, 0);
    assert!(r.stats.blocks_scanned <= 1, "{}", r.stats.blocks_scanned);

    // A missing sidecar has to cost a block read, never a lost span.
    let r = lookup(hex(tid(17)), false);
    assert_eq!(r.stats.blocks_scanned, BLOCKS as usize);
    assert_eq!(r.stats.rows_matched, 1);
}

/// A quoted number that is not spelled as numbers are written asks nothing of
/// the filter, so the rows it equals are found.
#[test]
fn another_spelling_of_an_integer_does_not_hide_a_block() {
    let records = vec![LogRecord {
        attributes: vec![attr("http.status_code", AnyKind::IntValue(7))],
        ..line(0, 1_000)
    }];
    let sealed = [seal(service("checkout"), "test", records)];
    for (spelling, asks) in [("7", 1), ("007", 0), ("+7", 0)] {
        let q = logs(vec![on_attr("http.status_code", Op::Eq, string(spelling))], 0, i64::MAX, 10);
        assert_eq!(attr_probes(&q, &floats()).len(), asks, "{spelling}");
        assert_eq!(run(&sealed, &q).stats.rows_matched, 1, "{spelling}");
    }
    let q = logs(vec![on_attr("http.status_code", Op::Eq, string("8"))], 0, i64::MAX, 10);
    assert_eq!(run(&sealed, &q).stats.blocks_scanned, 0);
}
