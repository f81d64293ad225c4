use mira_core::block::{dir_name, parse_dir_name};
use mira_core::error::Error;
use mira_core::logs::{nanos, LogsBuilder};
use mira_core::otlp::{
    AnyKind, AnyValue, ExportLogsServiceRequest, InstrumentationScope, KeyValue, LogRecord,
    Resource, ResourceLogs, ScopeLogs,
};
use mira_core::schema::{DICT_CAP, LOGS_BLOCK_TABLES};
use mira_core::signal::Sealed;
use mira_core::sweep::expire;
use mira_core::table::{Column, Data};

const NOW: i64 = 1_700_000_000_000_000_000;

fn kv(k: &str, v: &str) -> KeyValue {
    KeyValue { key: k.to_string(), value: Some(text(v)) }
}

fn text(v: &str) -> AnyValue {
    AnyValue { value: Some(AnyKind::StringValue(v.to_string())) }
}

fn record() -> LogRecord {
    LogRecord {
        time_unix_nano: 0,
        observed_time_unix_nano: 0,
        severity_number: 0,
        severity_text: String::new(),
        body: None,
        attributes: Vec::new(),
        dropped_attributes_count: 0,
        flags: 0,
        trace_id: Vec::new(),
        span_id: Vec::new(),
        event_name: String::new(),
    }
}

fn bare(records: Vec<LogRecord>) -> ExportLogsServiceRequest {
    ExportLogsServiceRequest {
        resource_logs: vec![ResourceLogs {
            resource: None,
            scope_logs: vec![ScopeLogs { scope: None, log_records: records }],
        }],
    }
}

fn request(service: &str, n: usize, base_ts: u64) -> ExportLogsServiceRequest {
    ExportLogsServiceRequest {
        resource_logs: vec![ResourceLogs {
            resource: Some(Resource {
                attributes: vec![
                    kv("service.name", service),
                    kv("service.instance.id", "7f3a"),
                ],
                dropped_attributes_count: 0,
            }),
            scope_logs: vec![ScopeLogs {
                scope: Some(InstrumentationScope {
                    name: "test".to_string(),
                    version: String::new(),
                    attributes: Vec::new(),
                    dropped_attributes_count: 0,
                }),
                log_records: (0..n)
                    .map(|i| LogRecord {
                        time_unix_nano: base_ts + i as u64,
                        severity_number: 9,
                        severity_text: "INFO".to_string(),
                        body: Some(text(&format!("line {i}"))),
                        attributes: vec![kv("http.method", "GET")],
                        trace_id: vec![7u8; 16],
                        span_id: vec![3u8; 8],
                        ..record()
                    })
                    .collect(),
            }],
        }],
    }
}

fn col<'a>(s: &'a Sealed, name: &str) -> &'a Column {
    s.table("logs").unwrap().column_by_name(name).unwrap()
}

fn times(c: &Column) -> Vec<i64> {
    match &c.data {
        Data::Time(v) => v.clone(),
        _ => panic!("not a column of times"),
    }
}

#[test]
fn a_timestamp_past_i64_still_publishes_a_block_the_catalog_can_see() {
    let mut b = LogsBuilder::new();
    b.append_request(
        &bare(vec![
            LogRecord {
                time_unix_nano: u64::MAX,
                observed_time_unix_nano: u64::MAX,
                ..record()
            },
            LogRecord { time_unix_nano: 5_000, ..record() },
        ]),
        NOW,
    )
    .unwrap();
    let sealed = b.finish().unwrap();
    assert_eq!(sealed.min_ts, 5_000);
    assert!(sealed.min_ts >= 0 && sealed.max_ts >= sealed.min_ts);
    // Unrepresentable is unset, so the row keeps the receipt time and the
    // observed column stays null.
    assert!(times(col(&sealed, "time_unix_nano"))[0] > 5_000);
    assert!(!col(&sealed, "observed_time_unix_nano").is_valid(0));

    let name = parse_dir_name(&dir_name(sealed.min_ts, sealed.max_ts, 7, 1, 0)).unwrap();
    assert_eq!((name.min_ts, name.max_ts), (sealed.min_ts, sealed.max_ts));
    let blocks = vec![mira_core::block::BlockRef {
        dir: String::new(),
        min_ts: name.min_ts,
        max_ts: name.max_ts,
        node: 7,
        seq: 1,
        wal_hi: 0,
    }];
    // And retention can reclaim it.
    assert_eq!(expire(&blocks, i64::MAX).len(), 1);
}

#[test]
fn a_record_with_no_clock_falls_back_to_observed_then_to_receipt_time() {
    let before = NOW;
    let mut b = LogsBuilder::new();
    assert!(b.is_empty() && b.num_rows() == 0, "nothing appended yet");
    b.append_request(
        &bare(vec![
            LogRecord {
                time_unix_nano: 3_000,
                observed_time_unix_nano: 4_000,
                ..record()
            },
            LogRecord { observed_time_unix_nano: 4_000, ..record() },
            record(),
        ]),
        NOW,
    )
    .unwrap();
    // Records, not requests.
    assert_eq!(b.num_rows(), 3);
    assert!(!b.is_empty());
    let sealed = b.finish().unwrap();
    assert_eq!(sealed.table("logs").unwrap().rows, 3);

    let time = times(col(&sealed, "time_unix_nano"));
    assert_eq!(time[0], 3_000, "a real clock wins");
    assert_eq!(time[1], 4_000, "then the receiver's own reading");
    assert!(time[2] >= before, "then the moment we took delivery");
    // No record dragged the range to 1970.
    assert_eq!(sealed.min_ts, 3_000);
    assert_eq!(sealed.max_ts, time[2]);

    let observed = col(&sealed, "observed_time_unix_nano");
    assert_eq!(times(observed)[0], 4_000);
    assert!(!observed.is_valid(2), "the fallback is not written back");
}

#[test]
fn seal_decision_sees_bodies_and_dictionary_pressure() {
    let mut small = LogsBuilder::new();
    small.append_request(&request("checkout", 100, 1_000), NOW).unwrap();

    let prompt = "x".repeat(32 << 10);
    let mut req = request("checkout", 100, 1_000);
    for sl in &mut req.resource_logs[0].scope_logs {
        for r in &mut sl.log_records {
            r.body = Some(text(&prompt));
        }
    }
    let mut big = LogsBuilder::new();
    big.append_request(&req, NOW).unwrap();
    // Same row count, same columns, three orders of magnitude apart.
    assert!(small.approx_bytes() < 64 << 10, "{}", small.approx_bytes());
    assert!(big.approx_bytes() > 3 << 20, "{}", big.approx_bytes());

    // A request wider than an empty block's dictionary is refused headroom up
    // front, not discovered part way through an append.
    let mut wide = request("checkout", 1, 1_000);
    wide.resource_logs[0].scope_logs[0].log_records[0].attributes =
        (0..=DICT_CAP).map(|i| kv(&format!("k{i}"), "v")).collect();
    assert!(!small.has_headroom_for(&wide));
    assert!(small.has_headroom_for(&request("checkout", 10, 1)));
}

#[test]
fn a_large_export_the_headroom_hint_rejects_still_fits_one_block() {
    // 80,000 attribute rows, past the dictionary, from five distinct keys.
    let mut req = request("checkout", 20_000, 1_000);
    for r in &mut req.resource_logs[0].scope_logs[0].log_records {
        r.attributes = vec![
            kv("http.method", "GET"),
            kv("http.route", "/checkout"),
            kv("net.peer.name", "db"),
            kv("http.scheme", "https"),
        ];
    }

    let mut b = LogsBuilder::new();
    assert!(
        !b.has_headroom_for(&req),
        "the hint is expected to be conservative here"
    );
    // ...and yet.
    assert_eq!(b.append_request(&req, NOW).unwrap(), 20_000);
    let sealed = b.finish().unwrap();
    assert_eq!(sealed.num_rows, 20_000);
    assert_eq!(sealed.table("log_attrs").unwrap().rows, 80_000);
}

#[test]
fn a_block_holds_its_tables_in_publish_order() {
    let mut b = LogsBuilder::default();
    let req = request("checkout", 2, 1_000);
    assert_eq!(LogsBuilder::records_in(&req), 2);
    b.append_request(&req, NOW).unwrap();
    let snap = b.snapshot().unwrap();
    assert_eq!(snap.num_rows, 2);
    assert!(snap.sidecars.is_empty());
    let sealed = b.finish().unwrap();
    let names: Vec<&str> = sealed.tables.iter().map(|t| t.name.as_str()).collect();
    assert_eq!(names, LOGS_BLOCK_TABLES);
    for t in &sealed.tables {
        assert!(t.table.check(), "{}", t.name);
    }
    // The block is empty again, and the snapshot was not.
    assert!(b.is_empty());
    assert_eq!(sealed.num_rows, 2);
    // Two records share one resource and one scope.
    assert_eq!(sealed.table("resources").unwrap().rows, 1);
    assert_eq!(sealed.table("resource_attrs").unwrap().rows, 2);
}

#[test]
fn a_malformed_id_is_null_and_costs_nothing_else() {
    let mut b = LogsBuilder::new();
    b.append_request(
        &bare(vec![
            LogRecord { trace_id: vec![1; 16], span_id: vec![2; 8], ..record() },
            LogRecord { trace_id: vec![1; 15], span_id: vec![2; 9], ..record() },
        ]),
        NOW,
    )
    .unwrap();
    let sealed = b.finish().unwrap();
    for name in ["trace_id", "span_id"] {
        let c = col(&sealed, name);
        assert!(c.is_valid(0) && !c.is_valid(1), "{name}");
    }
}

#[test]
fn a_body_that_is_not_text_is_kept_encoded() {
    let mut b = LogsBuilder::new();
    b.append_request(
        &bare(vec![
            LogRecord { body: Some(text("plain")), ..record() },
            LogRecord {
                body: Some(AnyValue { value: Some(AnyKind::IntValue(5)) }),
                ..record()
            },
        ]),
        NOW,
    )
    .unwrap();
    let sealed = b.finish().unwrap();
    let (body, ser) = (col(&sealed, "body"), col(&sealed, "body_ser"));
    assert!(body.is_valid(0) && !ser.is_valid(0));
    assert!(!body.is_valid(1) && ser.is_valid(1));
}

#[test]
fn a_full_dictionary_stops_the_append_and_the_block_still_seals() {
    let mut b = LogsBuilder::new();
    let many: Vec<LogRecord> = (0..DICT_CAP + 1)
        .map(|i| LogRecord { severity_text: format!("s{i}"), ..record() })
        .collect();
    let e = b.append_request(&bare(many), NOW).unwrap_err();
    assert!(
        matches!(e, Error::DictionaryFull("logs.severity_text")),
        "{}",
        e.message()
    );
}

#[test]
fn a_time_that_does_not_fit_is_no_time() {
    assert_eq!(nanos(0), 0);
    assert_eq!(nanos(5), 5);
    assert_eq!(nanos(i64::MAX as u64), i64::MAX);
    assert_eq!(nanos(i64::MAX as u64 + 1), 0);
    assert_eq!(nanos(u64::MAX), 0);
}
