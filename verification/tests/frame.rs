use std::collections::HashMap;

use mira_core::block::{dir_name, node_id, BlockRef};
use mira_core::bloom::build;
use mira_core::facets::{entities, name_block, names_of, signals, Shelf};
use mira_core::float::Floats;
use mira_core::frame::{
    anchor, check_frame_tables, expand, may_hold, Expand, Frame, Held, Stats, MAX_ENTITIES,
    MAX_TRACES,
};
use mira_core::interning::ResourceScope;
use mira_core::json::Json;
use mira_core::otlp::{AnyKind, AnyValue, KeyValue, Resource};
use mira_core::probe::Sides;
use mira_core::query::{Search, Signal};
use mira_core::scan::{Block, Named};
use mira_core::search::Stored;
use mira_core::signal::{Open, Sealed};
use mira_core::table::{Column, Data, Field, Table};

const T0: i64 = 1_000_000_000;
const HOUR: i64 = 3_600_000_000_000;

fn frame(from: i64, to: i64) -> Frame {
    Frame { from, to, ..Frame::default() }
}

struct Span {
    service: usize,
    trace: u8,
    id: [u8; 8],
    parent: Option<[u8; 8]>,
    start: i64,
    dur: u64,
    status: u8,
}

fn span(service: usize, trace: u8, id: [u8; 8], parent: Option<[u8; 8]>, start: i64, dur: u64) -> Span {
    Span { service, trace, id, parent, start, dur, status: 0 }
}

fn field(name: &str, data: Data) -> Field {
    Field { name: name.to_string(), column: Column { valid: None, data } }
}

/// The tables of a traces block, one resource per service.
fn traces_tables(services: &[&str], spans: &[Span]) -> Vec<Named> {
    let mut rs = ResourceScope::new();
    for s in services {
        rs.resource(Some(&Resource {
            attributes: vec![KeyValue {
                key: "service.name".to_string(),
                value: Some(AnyValue { value: Some(AnyKind::StringValue(s.to_string())) }),
            }],
            dropped_attributes_count: 0,
        }))
        .unwrap();
    }
    let parents = Field {
        name: "parent_span_id".to_string(),
        column: Column {
            valid: Some(spans.iter().map(|s| s.parent.is_some()).collect()),
            data: Data::Fixed(spans.iter().map(|s| s.parent.unwrap_or([0; 8]).to_vec()).collect()),
        },
    };
    let table = Table {
        fields: vec![
            field("id", Data::U32((0..spans.len() as u32).collect())),
            field("trace_id", Data::Fixed(spans.iter().map(|s| vec![s.trace; 16]).collect())),
            field("span_id", Data::Fixed(spans.iter().map(|s| s.id.to_vec()).collect())),
            parents,
            field("start_time_unix_nano", Data::Time(spans.iter().map(|s| s.start).collect())),
            field("duration_nano", Data::U64(spans.iter().map(|s| s.dur).collect())),
            field("status_code", Data::U8(spans.iter().map(|s| s.status).collect())),
            field("resource_id", Data::U16(spans.iter().map(|s| s.service as u16).collect())),
        ],
        rows: spans.len(),
    };
    let mut tables = vec![Named { name: "spans".to_string(), table }];
    tables.extend(rs.finish().unwrap());
    tables
}

fn drop_column(tables: &mut Vec<Named>, table: &str, col: &str) {
    for t in tables.iter_mut().filter(|t| t.name == table) {
        t.table.fields.retain(|f| f.name != col);
    }
}

fn drop_table(tables: &mut Vec<Named>, table: &str) {
    tables.retain(|t| t.name != table);
}

fn block(seq: u64, min_ts: i64, max_ts: i64) -> BlockRef {
    let node = node_id("a");
    BlockRef { dir: dir_name(min_ts, max_ts, node, seq, 0), min_ts, max_ts, node, seq, wal_hi: 0 }
}

fn held(tables: Vec<Named>) -> Held {
    let trace = tables
        .iter()
        .find(|t| t.name == "spans")
        .and_then(|t| t.table.column_by_name("trace_id"))
        .and_then(build);
    Held { tables, trace }
}

fn sid(service: u8) -> [u8; 8] {
    [service, 1, 0, 0, 0, 0, 0, 0]
}

/// gateway calls api calls db, in one trace.
fn chain(start: i64) -> Vec<Named> {
    traces_tables(
        &["gateway", "api", "db"],
        &[
            span(0, 1, sid(1), None, start, 900),
            span(1, 1, sid(2), Some(sid(1)), start, 500),
            span(2, 1, sid(3), Some(sid(2)), start, 100),
        ],
    )
}

/// One intact block and three that are each broken in a different way.
fn store() -> (Vec<BlockRef>, Vec<Held>) {
    let intact = held(chain(T0 + 1));

    let mut ghost = held(traces_tables(
        &["ghost"],
        &[span(0, 9, [9, 1, 0, 0, 0, 0, 0, 0], Some([8, 8, 0, 0, 0, 0, 0, 0]), T0 + HOUR, 10)],
    ));
    drop_column(&mut ghost.tables, "resources", "key");
    drop_column(&mut ghost.tables, "resource_attrs", "str");

    let mut unlinked = held(chain(T0 + 2 * HOUR));
    drop_table(&mut unlinked.tables, "spans");
    drop_table(&mut unlinked.tables, "resources");

    let mut foreign = held(chain(T0 + 3 * HOUR));
    foreign.trace = None;
    drop_column(&mut foreign.tables, "spans", "trace_id");
    drop_column(&mut foreign.tables, "spans", "parent_span_id");

    let disk = vec![
        block(0, T0 + 1, T0 + 1),
        block(1, T0 + HOUR, T0 + HOUR),
        block(2, T0 + 2 * HOUR, T0 + 2 * HOUR),
        block(3, T0 + 3 * HOUR, T0 + 3 * HOUR),
    ];
    (disk, vec![intact, ghost, unlinked, foreign])
}

fn shelves(disk: Vec<BlockRef>, held: Vec<Held>) -> Vec<Shelf> {
    assert_eq!(signals(), ["logs", "traces", "metrics"]);
    vec![
        Shelf { disk: Vec::new(), held: Vec::new() },
        Shelf { disk, held },
        Shelf { disk: Vec::new(), held: Vec::new() },
    ]
}

fn search(from: i64, to: i64) -> Search {
    Search { signal: Signal::Traces, from, to, terms: Vec::new(), limit: 10, after: None }
}

fn no_sides() -> Sides {
    Sides { trace: None, attrs: None, ranges: None }
}

fn anchored(disk: &Vec<BlockRef>, held: &Vec<Held>, q: &Search) -> (Frame, Stats) {
    let stored: Vec<Stored> = held
        .iter()
        .map(|h| Stored { sides: no_sides(), block: Block::open(&h.tables, Signal::Traces) })
        .collect();
    anchor(disk, &stored, held, q, &Vec::new(), &Vec::new(), &Floats::new())
}

#[test]
fn a_block_the_reader_cannot_use_contributes_nothing_and_widens_nothing() {
    let (disk, held) = store();
    for h in &held {
        assert!(check_frame_tables(&h.tables));
    }

    let (f, _) = anchored(&disk, &held, &search(T0, T0 + 2));
    assert_eq!(f.traces, vec![[1u8; 16]], "one trace in the window");
    assert_eq!(f.entities.len(), 3, "gateway, api and db");

    // Measuring reads every trace block regardless of the window: all four are
    // offered and three are refused.
    let (g, st) = expand(&disk, &held, &f, &vec![Expand::Traces], &Vec::new());
    assert_eq!(st.blocks_total, 4);
    assert_eq!(st.blocks_scanned, 1, "three unusable blocks were read");
    assert_eq!((g.from, g.to), (T0, T0 + 901));
    assert_eq!(g.entities, f.entities, "`Traces` does not touch entities");

    // The blocks with no readable resource table contribute no entities.
    let none = Vec::new();
    let shelves = shelves(disk, held);
    let all = entities(&shelves, 0, i64::MAX, &none);
    assert_eq!(all.stats.blocks_scanned, 4);
    assert_eq!(all.json.matches(r#""name""#).count(), 3, "{}", all.json);
    assert_eq!(all.json.matches(r#""blocks":2"#).count(), 3, "{}", all.json);
    assert!(!all.json.contains("ghost"), "{}", all.json);
    for name in ["api", "db", "gateway"] {
        assert!(all.json.contains(&format!(r#""name":"{name}""#)), "{name}");
    }
    assert!(
        all.json.find("api").unwrap() < all.json.find("db").unwrap()
            && all.json.find("db").unwrap() < all.json.find("gateway").unwrap(),
        "by name: {}",
        all.json
    );

    // Narrowed to the intact block's own window, the other three are never
    // opened.
    let near = entities(&shelves, T0, T0 + 2_000, &none);
    assert_eq!(near.stats.blocks_scanned, 1);
    assert_eq!(near.json.matches(r#""blocks":1"#).count(), 3, "{}", near.json);

    // Labels for the frame, over both windows.
    let sorted = |f: &Frame| {
        let mut v: Vec<String> = names_of(&shelves, f, &none).into_values().collect();
        v.sort();
        v
    };
    assert_eq!(sorted(&f), ["api", "db", "gateway"]);
    let wide = Frame { from: 0, to: i64::MAX, ..f };
    assert_eq!(sorted(&wide), ["api", "db", "gateway"]);

    // The service map: only two blocks have a usable span table.
    let s = &shelves[1];
    let m = mira_core::frame::map(&s.disk, &s.held, 0, i64::MAX, 1_000, &Vec::new());
    assert_eq!(m.stats.blocks_scanned, 2, "{}", m.json);
    assert_eq!(m.stats.rows_matched, 3, "entry->gateway->api->db");
    assert!(m.json.contains(r#""from":"entry""#), "{}", m.json);
    assert!(m.json.contains(r#""unresolved":1"#), "{}", m.json);
    assert_eq!(
        m.json.matches(r#""name":"unknown""#).count(),
        1,
        "{}",
        m.json
    );

    // `max_spans` stops the walk.
    let one = mira_core::frame::map(&s.disk, &s.held, 0, i64::MAX, 1, &Vec::new());
    assert_eq!(one.stats.blocks_scanned, 1, "{}", one.json);
    assert!(!one.json.contains(r#""from":"entry""#), "{}", one.json);
}

#[test]
fn the_caps_are_what_makes_a_frame_a_frame() {
    let mut f = Frame::default();
    for i in 0..MAX_TRACES as u32 + 5 {
        f.add_trace(&i.to_be_bytes().repeat(4));
    }
    assert_eq!(f.traces.len(), MAX_TRACES);
    assert!(f.truncated, "a dropped trace has to be visible");
    // A short id is not a trace id, and is not silently zero-extended.
    f.add_trace(&[1, 2, 3]);
    assert_eq!(f.traces.len(), MAX_TRACES);

    let mut f = Frame::default();
    for i in 0..MAX_ENTITIES as u64 + 5 {
        // Zero is the sentinel and never lands in the set.
        f.add_entity(i + 1);
    }
    assert_eq!(f.entities.len(), MAX_ENTITIES);
    f.add_entity(0);
    assert!(!f.entities.contains(&0), "the sentinel is not an entity");
}

#[test]
fn expansions_are_ordered_because_they_do_not_commute() {
    let f = frame(1_000, 2_000);
    let none = Vec::new();
    let (g, _) = expand(
        &Vec::new(),
        &Vec::new(),
        &f,
        &vec![Expand::Around(500), Expand::Around(500)],
        &none,
    );
    assert_eq!((g.from, g.to), (0, 3_000));
    // No traces, so the span-side expanders are a no-op.
    let (h, st) = expand(
        &Vec::new(),
        &Vec::new(),
        &f,
        &vec![Expand::Traces, Expand::Peers],
        &none,
    );
    assert_eq!(h, f);
    assert_eq!(st.blocks_scanned, 0);
}

#[test]
fn widening_saturates_at_the_ends_of_time() {
    let f = frame(i64::MIN + 1, i64::MAX - 1);
    let (g, _) = expand(
        &Vec::new(),
        &Vec::new(),
        &f,
        &vec![Expand::Around(i64::MAX)],
        &Vec::new(),
    );
    assert_eq!((g.from, g.to), (i64::MIN, i64::MAX));
}

#[test]
fn peers_are_whoever_shared_a_trace() {
    let disk = vec![block(0, T0, T0 + 10)];
    let tables = traces_tables(
        &["a", "b", "c"],
        &[
            span(0, 1, sid(1), None, T0, 1),
            span(1, 1, sid(2), Some(sid(1)), T0, 1),
            span(2, 7, sid(3), None, T0, 1),
        ],
    );
    let held = vec![held(tables)];
    let mut f = frame(T0, T0 + 10);
    f.add_trace(&[1; 16]);
    let (g, st) = expand(&disk, &held, &f, &vec![Expand::Peers], &Vec::new());
    assert_eq!(g.entities.len(), 2, "c was in another trace");
    assert_eq!(st.rows_matched, 2);
    // Outside the window there is nobody to find.
    let mut far = frame(0, 1);
    far.add_trace(&[1; 16]);
    let (h, st) = expand(&disk, &held, &far, &vec![Expand::Peers], &Vec::new());
    assert!(h.entities.is_empty());
    assert_eq!((st.blocks_total, st.blocks_scanned), (1, 0));
}

#[test]
fn a_snapshot_is_walked_like_a_block() {
    let open = vec![Open {
        node: 1,
        seq: 5,
        sealed: Sealed::with(3, chain(T0), T0, T0 + 900),
    }];
    let mut f = frame(T0 + 3, T0 + 4);
    f.add_trace(&[1; 16]);
    let (g, _) = expand(&Vec::new(), &Vec::new(), &f, &vec![Expand::Traces, Expand::Peers], &open);
    assert_eq!((g.from, g.to), (T0, T0 + 900));
    assert_eq!(g.entities.len(), 3);
}

#[test]
fn a_filter_that_says_no_is_believed_and_a_missing_one_is_not() {
    let h = held(chain(T0));
    assert!(may_hold(h.trace.as_ref(), &vec![[1; 16]]));
    assert!(!may_hold(h.trace.as_ref(), &vec![[2; 16]]));
    assert!(may_hold(None, &vec![[2; 16]]));
    assert!(!may_hold(h.trace.as_ref(), &vec![]));
}

#[test]
fn the_map_adds_up_calls_errors_and_times() {
    let mut spans = vec![
        span(0, 1, sid(1), None, T0, 900),
        span(1, 1, sid(2), Some(sid(1)), T0, 500),
        span(1, 1, sid(3), Some(sid(1)), T0, 300),
        // Internal work is not a call.
        span(1, 1, sid(4), Some(sid(2)), T0, 100),
        // Outside the window, but still a parent.
        span(0, 1, sid(5), None, T0 - 50, 10),
        span(1, 1, sid(6), Some(sid(5)), T0, 10),
    ];
    spans[2].status = 2;
    let disk = vec![block(0, T0 - 50, T0)];
    let h = vec![held(traces_tables(&["web", "api"], &spans))];
    let m = mira_core::frame::map(&disk, &h, T0, T0 + 1_000, 100, &Vec::new());
    assert!(m.json.contains(r#""name":"web","spans":1,"errors":0,"avg_nano":"900""#), "{}", m.json);
    assert!(m.json.contains(r#""name":"api","spans":4,"errors":1,"avg_nano":"227""#), "{}", m.json);
    assert!(
        m.json.contains(r#""calls":3,"errors":1,"avg_nano":"270","max_nano":"500""#),
        "{}",
        m.json
    );
    assert!(m.json.ends_with(r#""unresolved":0}"#), "{}", m.json);
    assert_eq!(m.stats.rows_matched, 2, "entry->web, web->api");
}

#[test]
fn an_entity_is_counted_once_per_block() {
    // Two resources that differ in a detail are one entity.
    let mut rs = ResourceScope::new();
    let kv = |k: &str, v: &str| KeyValue {
        key: k.to_string(),
        value: Some(AnyValue { value: Some(AnyKind::StringValue(v.to_string())) }),
    };
    for zone in ["z1", "z2"] {
        rs.resource(Some(&Resource {
            attributes: vec![kv("service.name", "web"), kv("zone", zone)],
            dropped_attributes_count: 0,
        }))
        .unwrap();
    }
    let h = held(rs.finish().unwrap());
    let shelves = vec![Shelf { disk: vec![block(0, 0, 10)], held: vec![h] }];
    let all = entities(&shelves, 0, 10, &Vec::new());
    assert_eq!(all.json.matches(r#""blocks":1"#).count(), 1, "{}", all.json);
    assert_eq!(all.stats.rows_matched, 1);
}

#[test]
fn the_newest_name_is_the_one_shown() {
    // The same instance, renamed: its identity is its instance, not its name.
    let tables = |name: &str| {
        let mut rs = ResourceScope::new();
        let kv = |k: &str, v: &str| KeyValue {
            key: k.to_string(),
            value: Some(AnyValue { value: Some(AnyKind::StringValue(v.to_string())) }),
        };
        rs.resource(Some(&Resource {
            attributes: vec![kv("k8s.pod.uid", "u1"), kv("service.name", name)],
            dropped_attributes_count: 0,
        }))
        .unwrap();
        rs.finish().unwrap()
    };
    let shelves = vec![Shelf {
        disk: vec![block(0, 0, 10), block(1, 20, 30)],
        held: vec![held(tables("old")), held(tables("new"))],
    }];
    let all = entities(&shelves, 0, 100, &Vec::new());
    assert_eq!(all.stats.rows_matched, 1, "{}", all.json);
    assert!(all.json.contains(r#""name":"new""#), "{}", all.json);
    assert!(all.json.contains(r#""blocks":2"#), "{}", all.json);
    let mut names = HashMap::new();
    let keys: Vec<u64> = mira_core::frame::entity_keys(&tables("new"));
    name_block(&tables("new"), &keys, &mut names);
    name_block(&tables("old"), &keys, &mut names);
    assert_eq!(names.get(&keys[0]).map(|s| s.as_str()), Some("new"));
}

#[test]
fn a_frame_is_written_with_its_labels() {
    let mut f = frame(-5, 7);
    f.add_entity(3);
    f.add_entity(4);
    f.add_trace(&[0xab; 16]);
    let mut names = HashMap::new();
    names.insert(3u64, "api".to_string());
    let mut j = Json::new();
    f.write_json(&mut j, &names);
    assert_eq!(
        j.into_string(),
        format!(
            r#"{{"from":"-5","to":"7","entities":[{{"key":"3","name":"api"}},{{"key":"4","name":"unknown"}}],"traces":["{}"],"truncated":false}}"#,
            "ab".repeat(16)
        )
    );
}

/// The page a search is on does not matter to the frame around what it matched.
#[test]
fn an_anchor_ignores_the_page() {
    let (disk, held) = store();
    let mut q = search(T0, T0 + 2);
    q.limit = 0;
    q.after = Some(mira_core::query::Cursor { ts: i64::MIN, node: 0, seq: 0, row: 0 });
    let (f, st) = anchored(&disk, &held, &q);
    assert_eq!(f.traces.len(), 1);
    assert_eq!(st.rows_matched, 3);
}

/// Without truncation, a frame has the traces and entities of every block's
/// matching rows and no others, and the same ones whatever the page.
#[test]
fn an_anchor_takes_in_every_matching_row() {
    let tables = [
        traces_tables(&["a"], &[span(0, 1, sid(1), None, T0, 5), span(0, 2, sid(2), None, T0 + 9, 5)]),
        traces_tables(&["b"], &[span(0, 3, sid(1), None, T0 + 1, 5)]),
    ];
    let keys: Vec<u64> = tables.iter().map(|t| mira_core::frame::entity_keys(t)[0]).collect();
    let disk = vec![block(0, T0, T0 + 9), block(1, T0 + 1, T0 + 1)];
    let held: Vec<Held> = tables.into_iter().map(held).collect();
    let mut q = search(T0, T0 + 5);
    let (f, _) = anchored(&disk, &held, &q);
    assert!(!f.truncated);
    let mut traces = f.traces.clone();
    traces.sort();
    assert_eq!(traces, [[1; 16], [3; 16]]);
    assert_eq!(f.entities.len(), 2);
    assert!(keys.iter().all(|k| f.entities.contains(k)));
    q.limit = 1;
    q.after = Some(mira_core::query::Cursor { ts: 0, node: 0, seq: 0, row: 0 });
    assert_eq!(anchored(&disk, &held, &q).0, f);
}

/// A span that lasts longer than a signed number can say ends at the end of
/// time, not before it starts.
#[test]
fn a_span_never_ends_before_it_starts() {
    let tables = traces_tables(&["a"], &[span(0, 1, sid(1), None, T0, 1 << 63)]);
    let disk = vec![block(0, T0, T0)];
    let held = vec![held(tables)];
    let mut f = frame(T0, T0);
    f.add_trace(&[1; 16]);
    let (g, _) = expand(&disk, &held, &f, &vec![Expand::Traces], &Vec::new());
    assert_eq!((g.from, g.to), (T0, i64::MAX));
}

/// The name a service has now is the newest block's, of whichever signal.
#[test]
fn the_newest_name_wins_across_signals() {
    let tables = |name: &str| {
        let mut rs = ResourceScope::new();
        let kv = |k: &str, v: &str| KeyValue {
            key: k.to_string(),
            value: Some(AnyValue { value: Some(AnyKind::StringValue(v.to_string())) }),
        };
        rs.resource(Some(&Resource {
            attributes: vec![kv("k8s.pod.uid", "u1"), kv("service.name", name)],
            dropped_attributes_count: 0,
        }))
        .unwrap();
        rs.finish().unwrap()
    };
    let key = mira_core::frame::entity_keys(&tables("c"))[0];
    let shown = |logs: (i64, i64), traces: i64, from: i64, to: i64| {
        let shelves = vec![
            Shelf {
                disk: vec![block(0, logs.0, logs.0), block(1, logs.1, logs.1)],
                held: vec![held(tables("a")), held(tables("b"))],
            },
            Shelf { disk: vec![block(0, traces, traces)], held: vec![held(tables("c"))] },
        ];
        let all = entities(&shelves, from, to, &Vec::new());
        assert_eq!((all.stats.blocks_total, all.stats.rows_matched), (3, 1), "{}", all.json);
        let mut f = frame(from, to);
        f.add_entity(key);
        let name = names_of(&shelves, &f, &Vec::new()).remove(&key).unwrap();
        assert!(all.json.contains(&format!(r#""name":"{name}""#)), "{}", all.json);
        (name, all.stats.blocks_scanned)
    };
    assert_eq!(shown((10, 20), 30, 0, 100), ("c".to_string(), 3));
    assert_eq!(shown((10, 40), 30, 0, 100), ("b".to_string(), 3));
    assert_eq!(shown((40, 20), 30, 0, 100), ("a".to_string(), 3));
    // Only the window's blocks have a say.
    assert_eq!(shown((10, 20), 30, 0, 25), ("b".to_string(), 2));
}
