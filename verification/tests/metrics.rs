use mira_core::error::Error;
use mira_core::metrics::{clamp_u8, for_each_point, MetricsBuilder};
use mira_core::otlp::{
    Buckets, Exemplar, ExponentialHistogram, ExponentialHistogramDataPoint,
    ExportMetricsServiceRequest, Gauge, Histogram, HistogramDataPoint, Metric, MetricData,
    NumberDataPoint, NumberValue, ResourceMetrics, ScopeMetrics, Sum, Summary, SummaryDataPoint,
    ValueAtQuantile,
};
use mira_core::schema::{MetricKind, DICT_CAP};
use mira_core::table::{Column, Data, Table};

fn request(metrics: Vec<Metric>) -> ExportMetricsServiceRequest {
    ExportMetricsServiceRequest {
        resource_metrics: vec![ResourceMetrics {
            resource: None,
            scope_metrics: vec![ScopeMetrics { scope: None, metrics }],
        }],
    }
}

fn metric(name: &str, data: Option<MetricData>) -> Metric {
    Metric {
        name: name.to_string(),
        description: String::new(),
        unit: String::new(),
        metadata: Vec::new(),
        data,
    }
}

fn exemplar(t: u64, value: Option<NumberValue>) -> Exemplar {
    Exemplar {
        filtered_attributes: Vec::new(),
        time_unix_nano: t,
        span_id: Vec::new(),
        trace_id: Vec::new(),
        value,
    }
}

fn num(t: u64, value: Option<NumberValue>) -> NumberDataPoint {
    NumberDataPoint {
        attributes: Vec::new(),
        start_time_unix_nano: 0,
        time_unix_nano: t,
        exemplars: Vec::new(),
        flags: 0,
        value,
    }
}

fn double(v: f64) -> Option<NumberValue> {
    Some(NumberValue::AsDouble(v.to_bits()))
}

fn c<'a>(t: &'a Table, name: &str) -> &'a Column {
    t.column_by_name(name).expect(name)
}

fn u8s(t: &Table, name: &str) -> Vec<u8> {
    match &c(t, name).data {
        Data::U8(v) => v.clone(),
        _ => panic!("{name} is not bytes"),
    }
}

fn u32s(t: &Table, name: &str) -> Vec<u32> {
    match &c(t, name).data {
        Data::U32(v) => v.clone(),
        _ => panic!("{name} is not 32-bit numbers"),
    }
}

fn i64s(t: &Table, name: &str) -> Vec<i64> {
    match &c(t, name).data {
        Data::I64(v) | Data::Time(v) => v.clone(),
        _ => panic!("{name} is not signed numbers"),
    }
}

fn texts(t: &Table, name: &str) -> Vec<String> {
    match &c(t, name).data {
        Data::Text(v) => v.clone(),
        _ => panic!("{name} is not text"),
    }
}

#[test]
fn a_metric_with_no_data_is_a_descriptor_and_no_points() {
    let req = request(vec![
        Metric {
            description: "items awaiting a worker".to_string(),
            ..metric("queue.depth", None)
        },
        metric(
            "http.server.duration",
            Some(MetricData::Gauge(Gauge {
                data_points: vec![NumberDataPoint {
                    exemplars: vec![exemplar(1_000, Some(NumberValue::AsInt(7)))],
                    ..num(1_000, None)
                }],
            })),
        ),
    ]);

    let mut b = MetricsBuilder::new();
    assert!(b.has_headroom_for(&req));
    assert_eq!(b.append_request(&req).unwrap(), 1, "one point, two metrics");
    assert_eq!(b.num_rows(), 1, "points, not descriptors");

    let sealed = b.finish().unwrap();
    let metrics = sealed.table("metrics").unwrap();
    assert_eq!(metrics.rows, 2);
    assert_eq!(
        u8s(metrics, "kind"),
        [MetricKind::Unset.code(), MetricKind::Gauge.code()]
    );
    assert_eq!(texts(metrics, "description")[0], "items awaiting a worker");
    assert!(
        !c(metrics, "description").is_valid(1),
        "an empty description is absent, not \"\""
    );

    // An integer exemplar lands in `int`, leaving `double` null.
    let ex = sealed.table("exemplars").unwrap();
    assert_eq!(i64s(ex, "int")[0], 7);
    assert!(!c(ex, "double").is_valid(0));
}

#[test]
fn point_times_past_i64_do_not_wrap_the_block_range() {
    let point = |start: u64, time: u64| NumberDataPoint {
        start_time_unix_nano: start,
        exemplars: vec![exemplar(u64::MAX, None)],
        ..num(time, None)
    };

    let mut b = MetricsBuilder::new();
    b.append_request(&request(vec![metric(
        "process.memory",
        Some(MetricData::Gauge(Gauge {
            data_points: vec![point(u64::MAX, u64::MAX), point(u64::MAX, 2_000)],
        })),
    )]))
    .unwrap();

    let sealed = b.finish().unwrap();
    assert_eq!(sealed.num_rows, 2, "malformed points are stored, not dropped");
    assert_eq!((sealed.min_ts, sealed.max_ts), (2_000, 2_000));

    // An unrepresentable process start is as absent as a zero one.
    let n = sealed.table("number_dp").unwrap();
    assert!(!c(n, "start_time_unix_nano").is_valid(0));
    assert_eq!(i64s(n, "time_unix_nano"), [0, 2_000]);
    let ex = sealed.table("exemplars").unwrap();
    assert_eq!(i64s(ex, "time_unix_nano"), [0, 0]);
}

/// Five metric types, four point tables, one id space.
#[test]
fn every_otlp_metric_shape_lands_in_the_table_written_for_it() {
    let bounds = || vec![1.0f64.to_bits(), 2.0f64.to_bits()];
    let hist = |sum: Option<f64>, explicit_bounds: Vec<u64>| HistogramDataPoint {
        attributes: Vec::new(),
        start_time_unix_nano: 0,
        time_unix_nano: 3_000,
        count: 6,
        sum: sum.map(|s| s.to_bits()),
        bucket_counts: vec![1, 2, 3],
        explicit_bounds,
        exemplars: Vec::new(),
        flags: 0,
        min: None,
        max: None,
    };
    let req = request(vec![
        Metric {
            description: "registered by an exporter that never fired".to_string(),
            ..metric("declared.only", None)
        },
        metric(
            "gauge",
            Some(MetricData::Gauge(Gauge {
                data_points: vec![
                    num(1_000, Some(NumberValue::AsInt(7))),
                    num(1_001, double(0.5)),
                    num(1_002, None),
                ],
            })),
        ),
        Metric {
            unit: "1".to_string(),
            ..metric(
                "counter",
                Some(MetricData::Sum(Sum {
                    is_monotonic: true,
                    aggregation_temporality: -3,
                    data_points: vec![NumberDataPoint {
                        exemplars: vec![
                            Exemplar {
                                trace_id: vec![1u8; 16],
                                span_id: vec![2u8; 8],
                                ..exemplar(2_000, Some(NumberValue::AsInt(11)))
                            },
                            exemplar(2_001, double(1.5)),
                            exemplar(2_002, None),
                        ],
                        ..num(2_000, Some(NumberValue::AsInt(11)))
                    }],
                })),
            )
        },
        metric(
            "hist",
            Some(MetricData::Histogram(Histogram {
                aggregation_temporality: 99,
                data_points: vec![
                    hist(Some(4.5), bounds()),
                    hist(None, bounds()),
                    hist(Some(1.0), Vec::new()),
                ],
            })),
        ),
        metric(
            "exp",
            Some(MetricData::ExponentialHistogram(ExponentialHistogram {
                aggregation_temporality: 1,
                data_points: vec![ExponentialHistogramDataPoint {
                    attributes: Vec::new(),
                    start_time_unix_nano: 0,
                    time_unix_nano: 4_000,
                    count: 3,
                    sum: None,
                    scale: -2,
                    zero_count: 1,
                    positive: Some(Buckets { offset: 5, bucket_counts: vec![1, 1] }),
                    negative: None,
                    flags: 0,
                    exemplars: Vec::new(),
                    min: None,
                    max: None,
                    zero_threshold: 0.25f64.to_bits(),
                }],
            })),
        ),
        metric(
            "summ",
            Some(MetricData::Summary(Summary {
                data_points: vec![SummaryDataPoint {
                    attributes: Vec::new(),
                    start_time_unix_nano: 0,
                    time_unix_nano: 5_000,
                    count: 2,
                    sum: 3.0f64.to_bits(),
                    quantile_values: vec![
                        ValueAtQuantile { quantile: 0.5f64.to_bits(), value: 1.0f64.to_bits() },
                        ValueAtQuantile { quantile: 0.99f64.to_bits(), value: 2.0f64.to_bits() },
                    ],
                    flags: 0,
                }],
            })),
        ),
    ]);

    let mut b = MetricsBuilder::new();
    assert!(b.is_empty(), "a fresh builder holds no descriptors");
    assert!(b.has_headroom_for(&req));
    assert_eq!(b.append_request(&req).unwrap(), 9);
    assert_eq!(b.num_rows(), 9);
    assert!(!b.is_empty());
    assert!(b.approx_bytes() > 0);

    let sealed = b.finish().unwrap();
    assert_eq!(sealed.num_rows, 9);
    let table = |n: &str| sealed.table(n).expect(n);
    assert_eq!(
        [
            table("number_dp").rows,
            table("hist_dp").rows,
            table("exp_hist_dp").rows,
            table("summary_dp").rows
        ],
        [4, 3, 1, 1],
        "each point type in the table written for its shape"
    );

    // Every point id appears exactly once across the four tables, dense from
    // zero.
    let mut ids: Vec<u32> = Vec::new();
    for t in ["number_dp", "hist_dp", "exp_hist_dp", "summary_dp"] {
        ids.extend(u32s(table(t), "id"));
    }
    ids.sort_unstable();
    assert_eq!(ids, (0..9).collect::<Vec<u32>>());

    let m = table("metrics");
    assert_eq!(
        u8s(m, "kind"),
        [
            MetricKind::Unset.code(),
            MetricKind::Gauge.code(),
            MetricKind::Sum.code(),
            MetricKind::Histogram.code(),
            MetricKind::ExponentialHistogram.code(),
            MetricKind::Summary.code(),
        ]
    );
    // Negative clamps to the unspecified zero, too large to the highest one.
    assert_eq!(u8s(m, "temporality"), [0, 0, 0, 2, 1, 0]);
    match &c(m, "is_monotonic").data {
        Data::Bool(v) => assert_eq!(*v, [false, false, true, false, false, false]),
        _ => panic!("is_monotonic is not booleans"),
    }
    assert_eq!(
        texts(m, "description")[0],
        "registered by an exporter that never fired"
    );
    assert!(
        (1..6).all(|i| !c(m, "description").is_valid(i)),
        "an empty description is absent, not an empty string"
    );

    // Numbers keep the type they arrived as.
    let n = table("number_dp");
    assert_eq!(
        (0..4)
            .map(|i| (!c(n, "int").is_valid(i), !c(n, "double").is_valid(i)))
            .collect::<Vec<_>>(),
        [(false, true), (true, false), (true, true), (false, true)]
    );

    // Identical boundaries intern to one row; a point with none at all points
    // at nothing.
    let h = table("hist_dp");
    assert_eq!(table("hist_bounds").rows, 1);
    let bid = u32s(h, "bounds_id");
    assert_eq!((bid[0], bid[1]), (0, 0));
    assert!(!c(h, "bounds_id").is_valid(2));
    assert!(
        !c(h, "sum").is_valid(1),
        "a histogram may report count and no sum"
    );

    // A missing bucket side is null, not an empty list.
    let e = table("exp_hist_dp");
    assert!(c(e, "positive_counts").is_valid(0));
    assert!(!c(e, "negative_counts").is_valid(0));
    match &c(e, "zero_count").data {
        Data::U64(v) => assert_eq!(v[0], 1),
        _ => panic!("zero_count is not 64-bit numbers"),
    }

    let ex = table("exemplars");
    assert_eq!(ex.rows, 3);
    assert_eq!(
        (0..3)
            .map(|i| (!c(ex, "int").is_valid(i), !c(ex, "double").is_valid(i)))
            .collect::<Vec<_>>(),
        [(false, true), (true, false), (true, true)]
    );
    assert_eq!(i64s(ex, "int")[0], 11);
    // An exemplar with no ids is null in both, not sixteen zero bytes.
    assert!(c(ex, "trace_id").is_valid(0) && !c(ex, "trace_id").is_valid(1));

    // Quantiles are two parallel lists, one row per point.
    match &c(table("summary_dp"), "quantile").data {
        Data::List(v) => assert_eq!(v[0].len(), 2),
        _ => panic!("quantile is not a list"),
    }
}

#[test]
fn a_torn_append_fails_the_seal_instead_of_publishing_a_ragged_block() {
    let mut b = MetricsBuilder::new();
    // The unit dictionary's whole key space.
    for i in 0..DICT_CAP {
        b.m_unit.append(&format!("u{i}")).unwrap();
    }
    assert!(!b.m_unit.has_headroom(1), "the unit dictionary is full");

    let one = |unit: &str| Metric {
        unit: unit.to_string(),
        ..metric(
            "requests",
            Some(MetricData::Gauge(Gauge {
                data_points: vec![num(1_000, Some(NumberValue::AsInt(1)))],
            })),
        )
    };
    let err = b.append_metric(&one("brand-new"), 0, 0).unwrap_err();
    assert!(
        matches!(err, Error::DictionaryFull("metrics.unit")),
        "{}",
        err.message()
    );
    // `name` took the extra row; nothing else did.
    let err = match b.finish() {
        Ok(_) => panic!("a ragged descriptor table sealed"),
        Err(e) => e,
    };
    assert!(matches!(err, Error::Arrow(_)), "{}", err.message());

    // And the reset happened anyway, so the next block is a clean one.
    assert!(b.is_empty());
    b.append_request(&request(vec![one("ms")])).unwrap();
    let sealed = b.finish().unwrap();
    assert_eq!(sealed.num_rows, 1);
    assert_eq!(sealed.table("metrics").unwrap().rows, 1);
}

#[test]
fn an_enumeration_out_of_range_is_clamped() {
    assert_eq!(clamp_u8(-1, 2), 0);
    assert_eq!(clamp_u8(300, 2), 0);
    assert_eq!(clamp_u8(99, 2), 2);
    assert_eq!(clamp_u8(1, 2), 1);
}

#[test]
fn points_are_counted_with_their_attributes_and_exemplars() {
    let m = metric(
        "g",
        Some(MetricData::Gauge(Gauge {
            data_points: vec![
                NumberDataPoint {
                    attributes: vec![mira_core::otlp::KeyValue {
                        key: "k".to_string(),
                        value: None,
                    }],
                    ..num(1, None)
                },
                num(2, None),
            ],
        })),
    );
    assert_eq!(for_each_point(&m), (1, 0));
    assert_eq!(for_each_point(&metric("none", None)), (0, 0));
}
