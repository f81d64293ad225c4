use mira_core::block::{dir_name, node_id, BlockRef};
use mira_core::float::Floats;
use mira_core::logs::LogsBuilder;
use mira_core::otlp::{
    AnyKind, AnyValue, ExportLogsServiceRequest, InstrumentationScope, KeyValue, LogRecord,
    Resource, ResourceLogs, ScopeLogs,
};
use mira_core::probe::Sides;
use mira_core::query::{Op, Search, Signal, Target, Term, Value};
use mira_core::scan::{Block, Named};
use mira_core::search::{claim, search, search_open, Results, Stored, MAX_FANOUT};
use mira_core::signal::{Open, Sealed};

const BASE: i64 = 1_700_000_000_000_000_000;

fn any(v: AnyKind) -> AnyValue {
    AnyValue { value: Some(v) }
}

fn text(s: &str) -> AnyKind {
    AnyKind::StringValue(s.to_string())
}

fn kv(k: &str, v: AnyKind) -> KeyValue {
    KeyValue { key: k.to_string(), value: Some(any(v)) }
}

fn record(time: u64) -> LogRecord {
    LogRecord {
        time_unix_nano: time,
        observed_time_unix_nano: 0,
        severity_number: 0,
        severity_text: String::new(),
        body: None,
        attributes: Vec::new(),
        dropped_attributes_count: 0,
        flags: 0,
        trace_id: Vec::new(),
        span_id: Vec::new(),
        event_name: String::new(),
    }
}

fn seal(resource: Vec<KeyValue>, scope: Vec<KeyValue>, records: Vec<LogRecord>) -> Sealed {
    let mut b = LogsBuilder::new();
    b.append_request(
        &ExportLogsServiceRequest {
            resource_logs: vec![ResourceLogs {
                resource: Some(Resource { attributes: resource, dropped_attributes_count: 0 }),
                scope_logs: vec![ScopeLogs {
                    scope: Some(InstrumentationScope {
                        name: "mira.test".to_string(),
                        version: String::new(),
                        attributes: scope,
                        dropped_attributes_count: 0,
                    }),
                    log_records: records,
                }],
            }],
        },
        BASE,
    )
    .unwrap();
    b.finish().unwrap()
}

fn block(seq: u64, s: &Sealed) -> BlockRef {
    let node = node_id("a");
    BlockRef {
        dir: dir_name(s.min_ts, s.max_ts, node, seq, 0),
        min_ts: s.min_ts,
        max_ts: s.max_ts,
        node,
        seq,
        wal_hi: 0,
    }
}

fn no_sides() -> Sides {
    Sides { trace: None, attrs: None, ranges: None }
}

fn stored<'a>(tables: &'a Vec<Named>) -> Stored<'a> {
    Stored { sides: no_sides(), block: Block::open(tables, Signal::Logs) }
}

fn field(n: &str, op: Op, value: Value) -> Term {
    Term { target: Target::Field(n.to_string()), op, value }
}

fn attr(n: &str, op: Op, value: Value) -> Term {
    Term { target: Target::Attr(n.to_string()), op, value }
}

fn string(s: &str) -> Value {
    Value::Str(s.to_string())
}

fn query(from: i64, to: i64, terms: Vec<Term>, limit: usize) -> Search {
    Search { signal: Signal::Logs, from, to, terms, limit, after: None }
}

fn drop_column(tables: &mut Vec<Named>, table: &str, col: &str) {
    for t in tables.iter_mut().filter(|t| t.name == table) {
        t.table.fields.retain(|f| f.name != col);
    }
}

#[test]
fn a_scan_narrows_by_time_then_by_terms_and_the_most_specific_level_wins() {
    let records = (0..3u64)
        .map(|i| LogRecord {
            severity_number: 9 + i as i32,
            severity_text: "INFO".to_string(),
            event_name: if i == 0 { "user.login".to_string() } else { String::new() },
            body: Some(any(if i == 2 {
                AnyKind::KvlistValue(vec![kv("msg", text("structured body"))])
            } else {
                text(&format!("line {i}"))
            })),
            attributes: vec![
                kv("deploy.env", text("canary")),
                kv("attempt", AnyKind::IntValue(i as i64)),
                kv("payload", AnyKind::BytesValue(vec![0xde, 0xad])),
                kv(
                    "tags",
                    AnyKind::ArrayValue(vec![any(text("a")), any(AnyKind::IntValue(7))]),
                ),
                kv(
                    "gen_ai.input.messages",
                    AnyKind::KvlistValue(vec![kv("role", text("user"))]),
                ),
                KeyValue { key: "trace.hint".to_string(), value: None },
            ],
            ..record(BASE as u64 + i * 1_000_000_000)
        })
        .collect();
    let sealed = seal(
        vec![
            kv("service.name", text("checkout")),
            kv("deploy.env", text("prod")),
        ],
        vec![kv("scope.kind", text("lib"))],
        records,
    );
    let disk = vec![block(0, &sealed)];
    let mut tables = sealed.tables;
    let floats = Floats::new();
    let scan = |tables: &Vec<Named>, from: i64, to: i64, terms: Vec<Term>| -> Results {
        search(&disk, &vec![stored(tables)], &query(from, to, terms, 100), &floats)
    };

    // A window the block only partly covers.
    let r = scan(&tables, BASE + 500_000_000, BASE + 1_500_000_000, vec![]);
    assert_eq!(r.stats.rows_matched, 1, "{}", r.json);
    assert!(r.json.contains("line 1"), "{}", r.json);

    let all = BASE + 10_000_000_000;
    assert_eq!(scan(&tables, BASE, all, vec![]).stats.rows_matched, 3);

    let matched = |terms: Vec<Term>| scan(&tables, BASE, all, terms).stats.rows_matched;
    // A column this signal does not have is no rows, not an error.
    assert_eq!(matched(vec![field("duration_nano", Op::Gt, Value::Int(0))]), 0);
    // Same for a value that cannot be compared against the column's type.
    assert_eq!(matched(vec![field("severity_number", Op::Eq, Value::Bool(true))]), 0);
    assert_eq!(
        matched(vec![
            field("severity_number", Op::Gt, Value::Int(99)),
            attr("service.name", Op::Eq, string("checkout")),
        ]),
        0
    );
    // Attributes are found without being told which level they live at.
    for (k, v) in [("service.name", "checkout"), ("scope.kind", "lib")] {
        assert_eq!(matched(vec![attr(k, Op::Eq, string(v))]), 3, "{k}");
    }
    assert_eq!(matched(vec![attr("attempt", Op::Gte, Value::Int(1))]), 2);
    // A bytes attribute cannot be filtered on.
    assert_eq!(matched(vec![attr("payload", Op::Eq, string("dead"))]), 0);
    let r = scan(&tables, BASE, all, vec![attr("payload", Op::Contains, string("dead"))]);
    assert_eq!(r.stats.blocks_scanned, 1, "no probe, so the block is read");
    assert_eq!(r.stats.rows_matched, 0);

    let row = scan(&tables, BASE, all, vec![]).json;
    // Record level beats resource level for the same key.
    assert!(row.contains(r#""deploy.env":"canary""#), "{row}");
    assert!(!row.contains("prod"), "{row}");
    assert!(row.contains(r#""service.name":"checkout""#), "{row}");
    assert!(row.contains(r#""payload":"dead""#), "{row}");
    assert!(row.contains(r#""tags":["a","7"]"#), "{row}");
    assert!(row.contains(r#""gen_ai.input.messages":{"role":"user"}"#), "{row}");
    assert!(row.contains(r#""body_ser":{"msg":"structured body"}"#), "{row}");
    assert!(row.contains(r#""event_name":"user.login""#), "{row}");
    // Empty on the wire is absent in the row, not an empty string.
    assert_eq!(row.matches("event_name").count(), 1, "{row}");
    assert!(row.contains(r#""trace.hint":null"#), "{row}");

    // A block written before a column was added.
    drop_column(&mut tables, "logs", "event_name");
    let r = scan(&tables, BASE, all, vec![]);
    assert_eq!(r.stats.rows_matched, 3, "{}", r.json);
    assert!(!r.json.contains("event_name"), "{}", r.json);
    assert!(r.json.contains(r#""body_ser":{"msg":"structured body"}"#), "{}", r.json);

    // A root table without the time column selects nothing.
    drop_column(&mut tables, "logs", "time_unix_nano");
    let r = scan(&tables, BASE, all, vec![]);
    assert_eq!(r.json, "[]");
    assert_eq!(r.stats.rows_matched, 0);

    // A block that is gone between the listing and the read contributes
    // nothing.
    let r = scan(&Vec::new(), BASE, all, vec![]);
    assert_eq!((r.stats.blocks_total, r.stats.blocks_scanned), (1, 0));
    assert_eq!(r.json, "[]");
}

fn plain(from: u64, n: u64) -> Sealed {
    seal(
        vec![kv("service.name", text("s"))],
        Vec::new(),
        (from..from + n)
            .map(|t| LogRecord { body: Some(any(text(&format!("r{t}")))), ..record(t) })
            .collect(),
    )
}

fn bodies(json: &str) -> Vec<u64> {
    json.split(r#""body":"r"#)
        .skip(1)
        .map(|s| s.split('"').next().unwrap().parse().unwrap())
        .collect()
}

/// Three blocks, paged two rows at a time: every row once, newest first.
#[test]
fn pages_follow_each_other_without_gap_or_repeat() {
    let sealed = [plain(100, 3), plain(103, 3), plain(106, 1)];
    let disk: Vec<BlockRef> = sealed.iter().enumerate().map(|(i, s)| block(i as u64, s)).collect();
    let floats = Floats::new();
    let mut q = query(0, i64::MAX, Vec::new(), 2);
    let mut seen = Vec::new();
    for _ in 0..10 {
        let held: Vec<Stored> = sealed.iter().map(|s| stored(&s.tables)).collect();
        let r = search(&disk, &held, &q, &floats);
        assert_eq!(r.stats.blocks_total, 3);
        seen.extend(bodies(&r.json));
        q.after = r.next;
        if q.after.is_none() {
            break;
        }
    }
    assert_eq!(seen, [106, 105, 104, 103, 102, 101, 100]);
}

/// A full page of newer rows keeps an older block unread.
#[test]
fn a_full_page_stops_the_scan() {
    let sealed = [plain(100, 3), plain(200, 3)];
    let disk: Vec<BlockRef> = sealed.iter().enumerate().map(|(i, s)| block(i as u64, s)).collect();
    let held: Vec<Stored> = sealed.iter().map(|s| stored(&s.tables)).collect();
    let r = search(&disk, &held, &query(0, i64::MAX, Vec::new(), 2), &Floats::new());
    assert_eq!(r.stats.blocks_scanned, 1);
    assert_eq!(bodies(&r.json), [202, 201]);
}

/// The attribute filter's answers keep a block closed, or let it through.
#[test]
fn a_sidecar_that_says_no_keeps_the_block_closed() {
    let sealed = plain(100, 2);
    let disk = vec![block(0, &sealed)];
    let floats = Floats::new();
    let terms = || vec![attr("service.name", Op::Eq, string("other"))];
    let ask = |answer: bool| {
        let mut s = stored(&sealed.tables);
        s.sides.attrs = Some((vec![answer], false));
        search(&disk, &vec![s], &query(0, i64::MAX, terms(), 10), &floats).stats.blocks_scanned
    };
    assert_eq!(ask(false), 0);
    assert_eq!(ask(true), 1);
}

#[test]
fn rows_of_an_open_block_are_found_too() {
    let disk_block = plain(100, 1);
    let disk = vec![block(0, &disk_block)];
    let open = vec![Open { node: 9, seq: 3, sealed: plain(200, 1) }];
    let opened = vec![Block::open(&open[0].sealed.tables, Signal::Logs)];
    let r = search_open(
        &disk,
        &vec![stored(&disk_block.tables)],
        &open,
        &opened,
        &query(0, i64::MAX, Vec::new(), 10),
        &Floats::new(),
    );
    assert_eq!(bodies(&r.json), [200, 100]);
}

#[test]
fn helpers_are_claimed_from_what_is_spare() {
    assert_eq!(claim(0, 5), 0);
    assert_eq!(claim(3, 5), 3);
    assert_eq!(claim(9, 5), 5);
    assert_eq!(MAX_FANOUT, 16);
}
