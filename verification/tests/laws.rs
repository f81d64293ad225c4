use mira_core::block::{dir_name, BlockRef};
use mira_core::filter::unhex;
use mira_core::float::Floats;
use mira_core::json::Json;
use mira_core::logs::LogsBuilder;
use mira_core::metrics::MetricsBuilder;
use mira_core::otlp::{
    AnyKind, AnyValue, ExportLogsServiceRequest, ExportMetricsServiceRequest, Gauge, KeyValue,
    LogRecord, Metric, MetricData, NumberDataPoint, NumberValue, ResourceLogs, ResourceMetrics,
    ScopeLogs, ScopeMetrics,
};
use mira_core::probe::Sides;
use mira_core::proto::{decode_any, encode_any};
use mira_core::query::{Search, Signal};
use mira_core::scan::Block;
use mira_core::search::{search_open, Scan, SearchRun, Stored};
use mira_core::signal::{Open, Sealed};
use mira_core::source::{sources, Origin};
use mira_core::sweep::expire;
use mira_core::tally::{Call, Tally};

fn record(time: u64) -> LogRecord {
    LogRecord {
        time_unix_nano: time,
        observed_time_unix_nano: 0,
        severity_number: 0,
        severity_text: String::new(),
        body: None,
        attributes: Vec::new(),
        dropped_attributes_count: 0,
        flags: 0,
        trace_id: Vec::new(),
        span_id: Vec::new(),
        event_name: String::new(),
    }
}

fn request(times: &[u64]) -> ExportLogsServiceRequest {
    ExportLogsServiceRequest {
        resource_logs: vec![ResourceLogs {
            resource: None,
            scope_logs: vec![ScopeLogs {
                scope: None,
                log_records: times.iter().map(|t| record(*t)).collect(),
            }],
        }],
    }
}

fn sealed(times: &[u64]) -> Sealed {
    let mut b = LogsBuilder::new();
    b.append_request(&request(times), 1).unwrap();
    b.finish().unwrap()
}

fn block(node: u32, seq: u64, s: &Sealed) -> BlockRef {
    BlockRef {
        dir: dir_name(s.min_ts, s.max_ts, node, seq, 0),
        min_ts: s.min_ts,
        max_ts: s.max_ts,
        node,
        seq,
        wal_hi: 0,
    }
}

fn all(limit: usize) -> Search {
    Search { signal: Signal::Logs, from: 0, to: i64::MAX, terms: Vec::new(), limit, after: None }
}

fn no_sides() -> Sides {
    Sides { trace: None, attrs: None, ranges: None }
}

#[test]
fn a_request_with_headroom_is_absorbed_whole() {
    let mut b = LogsBuilder::new();
    let req = request(&[5, 6, 7]);
    assert!(b.has_headroom_for(&req));
    assert_eq!(b.append_request(&req, 1).ok(), Some(LogsBuilder::records_in(&req)));
    let s = b.finish().unwrap();
    assert_eq!((s.num_rows, s.min_ts, s.max_ts), (3, 5, 7));

    let point = |t: u64| NumberDataPoint {
        attributes: Vec::new(),
        start_time_unix_nano: 0,
        time_unix_nano: t,
        value: Some(NumberValue::AsInt(1)),
        exemplars: Vec::new(),
        flags: 0,
    };
    let req = ExportMetricsServiceRequest {
        resource_metrics: vec![ResourceMetrics {
            resource: None,
            scope_metrics: vec![ScopeMetrics {
                scope: None,
                metrics: vec![Metric {
                    name: "m".to_string(),
                    description: String::new(),
                    unit: String::new(),
                    metadata: Vec::new(),
                    data: Some(MetricData::Gauge(Gauge { data_points: vec![point(3), point(4)] })),
                }],
            }],
        }],
    };
    let mut m = MetricsBuilder::new();
    assert!(m.has_headroom_for(&req));
    assert!(m.can_number(&req));
    assert_eq!(m.append_request(&req).ok(), Some(2));
    assert_eq!(m.finish().unwrap().num_rows, 2);
}

/// A snapshot whose block has been published meanwhile is read once.
#[test]
fn a_published_copy_is_the_one_that_is_read() {
    let disk = vec![block(1, 7, &sealed(&[5]))];
    let open = vec![
        Open { node: 1, seq: 7, sealed: sealed(&[5]) },
        Open { node: 1, seq: 8, sealed: sealed(&[6]) },
    ];
    let origins: Vec<Origin> = sources(&disk, &open).iter().map(|s| s.origin).collect();
    assert_eq!(origins, [Origin::Disk(0), Origin::Open(1)]);
}

/// What was acknowledged is found before it is published, and after.
#[test]
fn a_record_is_found_from_the_moment_it_is_acknowledged() {
    let mut b = LogsBuilder::new();
    b.append_request(&request(&[40, 50]), 1).unwrap();
    let open = vec![Open { node: 1, seq: 0, sealed: b.snapshot().unwrap() }];
    let opened = vec![Block::open(&open[0].sealed.tables, Signal::Logs)];
    let r = search_open(&Vec::new(), &Vec::new(), &open, &opened, &all(10), &Floats::new());
    assert_eq!(r.stats.rows_matched, 2);

    let s = b.finish().unwrap();
    let disk = vec![block(1, 0, &s)];
    let stored = vec![Stored { sides: no_sides(), block: Block::open(&s.tables, Signal::Logs) }];
    let p = search_open(&disk, &stored, &open, &opened, &all(10), &Floats::new());
    assert_eq!(p.json, r.json);
    assert_eq!(p.stats.rows_matched, 2);
}

/// How many candidates are scanned at once does not show in the page.
#[test]
fn waves_do_not_show() {
    let parts: Vec<Sealed> = (0..5u64).map(|i| sealed(&[10 * i + 1, 10 * i + 2])).collect();
    let disk: Vec<BlockRef> = parts.iter().enumerate().map(|(i, s)| block(1, i as u64, s)).collect();
    let q = all(7);
    let floats = Floats::new();
    let scan = Scan::new(&q, &floats);
    let pages: Vec<_> = [1usize, 2, 5]
        .into_iter()
        .map(|most| {
            let mut run = SearchRun::plan(&disk, &Vec::new(), &q);
            while let Some((from, to)) = run.wants() {
                let to = to.min(from + most);
                let answers = (from..to)
                    .map(|i| {
                        let src = run.refs[i];
                        let b = match src.origin {
                            Origin::Disk(k) => Block::open(&parts[k].tables, Signal::Logs),
                            Origin::Open(_) => None,
                        };
                        scan.block(i, &src, &no_sides(), b.as_ref(), &floats)
                    })
                    .collect();
                run.absorb(&answers);
            }
            run.hits.iter().map(|h| h.at.ts).collect::<Vec<_>>()
        })
        .collect();
    assert_eq!(pages[0], [42, 41, 32, 31, 22, 21, 12]);
    assert!(pages.iter().all(|p| *p == pages[0]));
}

#[test]
fn a_tally_holds_what_was_put_in_key_order() {
    let mut t: Tally<Call, u64> = Tally::new();
    t.put(Call { from: 2, to: 1 }, 5);
    t.put(Call { from: 1, to: 9 }, 6);
    t.put(Call { from: 2, to: 1 }, 7);
    assert_eq!(t.len(), 2);
    assert_eq!(t.get(Call { from: 2, to: 1 }), Some(7));
    assert_eq!(t.get(Call { from: 1, to: 9 }), Some(6));
    assert_eq!(t.get(Call { from: 9, to: 1 }), None);
    assert_eq!(t.entry(0).1, 6);
    assert_eq!(t.entry(1).1, 7);
}

#[test]
fn hex_reads_back() {
    let bytes: Vec<u8> = (0..=255).collect();
    let mut j = Json::new();
    j.hex(&bytes);
    let s = j.into_string();
    assert_eq!(unhex(&s[1..s.len() - 1]), Some(bytes));
}

#[test]
fn nested_values_survive_encoding() {
    let v = AnyValue {
        value: Some(AnyKind::ArrayValue(vec![
            AnyValue { value: None },
            AnyValue { value: Some(AnyKind::IntValue(-1)) },
            AnyValue {
                value: Some(AnyKind::KvlistValue(vec![
                    KeyValue { key: "k".to_string(), value: None },
                    KeyValue {
                        key: "é".to_string(),
                        value: Some(AnyValue { value: Some(AnyKind::BoolValue(false)) }),
                    },
                ])),
            },
        ])),
    };
    let bytes = encode_any(&v);
    let back = decode_any(&bytes).unwrap();
    assert_eq!(encode_any(&back), bytes);
    match back.value {
        Some(AnyKind::ArrayValue(items)) => assert_eq!(items.len(), 3),
        _ => panic!("not the array"),
    }
}

#[test]
fn retention_takes_what_is_wholly_older_than_the_cutoff() {
    let blocks: Vec<BlockRef> = [(1, 5), (1, 10), (1, 9), (11, 12)]
        .into_iter()
        .map(|(min_ts, max_ts)| BlockRef {
            dir: String::new(),
            min_ts,
            max_ts,
            node: 0,
            seq: 0,
            wal_hi: 0,
        })
        .collect();
    assert_eq!(expire(&blocks, 10), [0, 2]);
    assert_eq!(expire(&blocks, 0), Vec::<usize>::new());
}
