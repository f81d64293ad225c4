//! The OpenTelemetry messages the engine stores, as plain values.

use vstd::prelude::*;

verus! {

/// An attribute value. Doubles are held as their bits.
pub enum AnyKind {
    StringValue(String),
    BoolValue(bool),
    IntValue(i64),
    DoubleValue(u64),
    ArrayValue(Vec<AnyValue>),
    KvlistValue(Vec<KeyValue>),
    BytesValue(Vec<u8>),
}

/// An attribute value, or none.
pub struct AnyValue {
    pub value: Option<AnyKind>,
}

/// A key and its value.
pub struct KeyValue {
    pub key: String,
    pub value: Option<AnyValue>,
}

/// What an attribute value is, independent of how it is held.
pub enum Val {
    Empty,
    Str(Seq<char>),
    Bool(bool),
    Int(i64),
    Double(u64),
    Array(Seq<Val>),
    Kvlist(Seq<Pair>),
    Bytes(Seq<u8>),
}

/// What a key and its value are.
pub struct Pair {
    pub key: Seq<char>,
    pub value: Option<Val>,
}

impl AnyValue {
    /// What the value is.
    pub open spec fn val(&self) -> Val
        decreases self,
    {
        match &self.value {
            None => Val::Empty,
            Some(k) => match k {
                AnyKind::StringValue(s) => Val::Str(s@),
                AnyKind::BoolValue(b) => Val::Bool(*b),
                AnyKind::IntValue(i) => Val::Int(*i),
                AnyKind::DoubleValue(d) => Val::Double(*d),
                AnyKind::ArrayValue(v) => Val::Array(vals(v@)),
                AnyKind::KvlistValue(v) => Val::Kvlist(pairs(v@)),
                AnyKind::BytesValue(b) => Val::Bytes(b@),
            },
        }
    }
}

impl KeyValue {
    /// What the key and the value are.
    pub open spec fn pair(&self) -> Pair
        decreases self,
    {
        Pair {
            key: self.key@,
            value: match &self.value {
                Some(v) => Some(v.val()),
                None => None,
            },
        }
    }
}

/// What each of several values is.
pub open spec fn vals(s: Seq<AnyValue>) -> Seq<Val>
    decreases s,
{
    if s.len() == 0 {
        Seq::empty()
    } else {
        vals(s.drop_last()).push(s.last().val())
    }
}

/// What each of several keys and values is.
pub open spec fn pairs(s: Seq<KeyValue>) -> Seq<Pair>
    decreases s,
{
    if s.len() == 0 {
        Seq::empty()
    } else {
        pairs(s.drop_last()).push(s.last().pair())
    }
}

/// [`pairs`] goes item by item.
pub proof fn lemma_pairs(s: Seq<KeyValue>)
    ensures
        pairs(s).len() == s.len(),
        forall|i: int| 0 <= i < s.len() ==> #[trigger] pairs(s)[i] == s[i].pair(),
    decreases s.len(),
{
    if s.len() > 0 {
        lemma_pairs(s.drop_last());
        assert forall|i: int| 0 <= i < s.len() implies #[trigger] pairs(s)[i] == s[i].pair() by {
            if i < s.len() - 1 {
                assert(pairs(s)[i] == pairs(s.drop_last())[i]);
                assert(s.drop_last()[i] == s[i]);
            }
        }
    }
}

/// A resource: what emitted the telemetry.
pub struct Resource {
    pub attributes: Vec<KeyValue>,
    pub dropped_attributes_count: u32,
}

/// An instrumentation scope: the library that recorded it.
pub struct InstrumentationScope {
    pub name: String,
    pub version: String,
    pub attributes: Vec<KeyValue>,
    pub dropped_attributes_count: u32,
}

// ---------------------------------------------------------------------------
// Logs.

/// One log record.
pub struct LogRecord {
    pub time_unix_nano: u64,
    pub observed_time_unix_nano: u64,
    pub severity_number: i32,
    pub severity_text: String,
    pub body: Option<AnyValue>,
    pub attributes: Vec<KeyValue>,
    pub dropped_attributes_count: u32,
    pub flags: u32,
    pub trace_id: Vec<u8>,
    pub span_id: Vec<u8>,
    pub event_name: String,
}

/// The log records of one scope.
pub struct ScopeLogs {
    pub scope: Option<InstrumentationScope>,
    pub log_records: Vec<LogRecord>,
}

/// The log records of one resource.
pub struct ResourceLogs {
    pub resource: Option<Resource>,
    pub scope_logs: Vec<ScopeLogs>,
}

/// A request to store logs.
pub struct ExportLogsServiceRequest {
    pub resource_logs: Vec<ResourceLogs>,
}

// ---------------------------------------------------------------------------
// Metrics.

/// A number as it arrived. Doubles are held as their bits.
#[derive(Debug, Clone, Copy, PartialEq, Eq, Structural)]
pub enum NumberValue {
    AsInt(i64),
    AsDouble(u64),
}

/// A sample that names the trace it was taken in.
pub struct Exemplar {
    pub filtered_attributes: Vec<KeyValue>,
    pub time_unix_nano: u64,
    pub span_id: Vec<u8>,
    pub trace_id: Vec<u8>,
    pub value: Option<NumberValue>,
}

/// One point of a gauge or a sum.
pub struct NumberDataPoint {
    pub attributes: Vec<KeyValue>,
    pub start_time_unix_nano: u64,
    pub time_unix_nano: u64,
    pub exemplars: Vec<Exemplar>,
    pub flags: u32,
    pub value: Option<NumberValue>,
}

/// One point of a histogram.
pub struct HistogramDataPoint {
    pub attributes: Vec<KeyValue>,
    pub start_time_unix_nano: u64,
    pub time_unix_nano: u64,
    pub count: u64,
    pub sum: Option<u64>,
    pub bucket_counts: Vec<u64>,
    /// Bucket boundaries, by their bits.
    pub explicit_bounds: Vec<u64>,
    pub exemplars: Vec<Exemplar>,
    pub flags: u32,
    pub min: Option<u64>,
    pub max: Option<u64>,
}

/// One side of an exponential histogram.
pub struct Buckets {
    pub offset: i32,
    pub bucket_counts: Vec<u64>,
}

/// One point of an exponential histogram.
pub struct ExponentialHistogramDataPoint {
    pub attributes: Vec<KeyValue>,
    pub start_time_unix_nano: u64,
    pub time_unix_nano: u64,
    pub count: u64,
    pub sum: Option<u64>,
    pub scale: i32,
    pub zero_count: u64,
    pub positive: Option<Buckets>,
    pub negative: Option<Buckets>,
    pub flags: u32,
    pub exemplars: Vec<Exemplar>,
    pub min: Option<u64>,
    pub max: Option<u64>,
    pub zero_threshold: u64,
}

/// The value at one quantile of a summary.
#[derive(Debug, Clone, Copy, PartialEq, Eq, Structural)]
pub struct ValueAtQuantile {
    pub quantile: u64,
    pub value: u64,
}

/// One point of a summary.
pub struct SummaryDataPoint {
    pub attributes: Vec<KeyValue>,
    pub start_time_unix_nano: u64,
    pub time_unix_nano: u64,
    pub count: u64,
    pub sum: u64,
    pub quantile_values: Vec<ValueAtQuantile>,
    pub flags: u32,
}

pub struct Gauge {
    pub data_points: Vec<NumberDataPoint>,
}

pub struct Sum {
    pub data_points: Vec<NumberDataPoint>,
    pub aggregation_temporality: i32,
    pub is_monotonic: bool,
}

pub struct Histogram {
    pub data_points: Vec<HistogramDataPoint>,
    pub aggregation_temporality: i32,
}

pub struct ExponentialHistogram {
    pub data_points: Vec<ExponentialHistogramDataPoint>,
    pub aggregation_temporality: i32,
}

pub struct Summary {
    pub data_points: Vec<SummaryDataPoint>,
}

/// The points of a metric, in one of five shapes.
pub enum MetricData {
    Gauge(Gauge),
    Sum(Sum),
    Histogram(Histogram),
    ExponentialHistogram(ExponentialHistogram),
    Summary(Summary),
}

/// A metric: its descriptor and its points.
pub struct Metric {
    pub name: String,
    pub description: String,
    pub unit: String,
    pub metadata: Vec<KeyValue>,
    pub data: Option<MetricData>,
}

/// The metrics of one scope.
pub struct ScopeMetrics {
    pub scope: Option<InstrumentationScope>,
    pub metrics: Vec<Metric>,
}

/// The metrics of one resource.
pub struct ResourceMetrics {
    pub resource: Option<Resource>,
    pub scope_metrics: Vec<ScopeMetrics>,
}

/// A request to store metrics.
pub struct ExportMetricsServiceRequest {
    pub resource_metrics: Vec<ResourceMetrics>,
}

} // verus!
