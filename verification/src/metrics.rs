//! Metrics, accumulated across many export requests and sealed into a block
//! once.

use crate::attrs::{
    add_counts, appended, attrs_table_of, heap_of, keys_in, AttrRow, AttrsBuilder, DictColumn,
};
use crate::columns::{
    add_count, firsts, lemma_small_count, mul_count, of_width, slot_text_bytes, wrapped_count,
};
use crate::error::Error;
use crate::interning::{
    interned_tables, with_resource, with_scope, Interned, Outcome, ResourceScope,
};
use crate::logs::{
    dict_takes, dict_text, held, nanos, nanos_of, resource_demand, scope_demand, uneven_columns,
};
use crate::otlp::{
    pairs, Buckets, Exemplar, ExponentialHistogramDataPoint, ExportMetricsServiceRequest,
    HistogramDataPoint, KeyValue, Metric, MetricData, NumberDataPoint, NumberValue, ResourceMetrics,
    ScopeMetrics, SummaryDataPoint, ValueAtQuantile,
};
use crate::points::{
    bounds_number, bounds_table_of, exemplar_table_of, exp_table_of, head_of, hist_table_of,
    list_view, metrics_table_of, number_table_of, summary_table_of, with_bounds, BoundsTable,
    DescriptorTable, ExemplarRow, ExemplarTable, ExpRow, ExpTable, HistRow, HistTable, MetricRow,
    NumberRow, NumberTable, StatsRow, SummRow, SummTable,
};
use crate::scan::Named;
use crate::schema::{DICT_CAP, MetricKind};
use crate::signal::{since_epoch, Sealed};
use crate::table::Table;
use vstd::prelude::*;

verus! {

// ---------------------------------------------------------------------------
// What has been accumulated.

/// What a metrics builder has accumulated. The two dictionary columns are
/// listed apart, because they are appended to before anything else and the
/// second can refuse what the first has taken.
pub struct MetricsState {
    pub metrics: Seq<MetricRow>,
    pub names: Seq<Option<Seq<char>>>,
    pub units: Seq<Option<Seq<char>>>,
    pub numbers: Seq<NumberRow>,
    pub hists: Seq<HistRow>,
    pub bounds: Seq<Seq<u64>>,
    pub exps: Seq<ExpRow>,
    pub summs: Seq<SummRow>,
    pub exemplars: Seq<ExemplarRow>,
    pub metric_attrs: Seq<AttrRow>,
    pub dp_attrs: Seq<AttrRow>,
    pub exemplar_attrs: Seq<AttrRow>,
    pub rs: Interned,
    /// Points across all four tables, which is also the next point's id.
    pub points: nat,
    /// List elements written so far.
    pub list_values: nat,
    pub min_ts: i64,
    pub max_ts: i64,
}

impl MetricsState {
    /// Nothing accumulated.
    pub open spec fn none() -> MetricsState {
        MetricsState {
            metrics: Seq::empty(),
            names: Seq::empty(),
            units: Seq::empty(),
            numbers: Seq::empty(),
            hists: Seq::empty(),
            bounds: Seq::empty(),
            exps: Seq::empty(),
            summs: Seq::empty(),
            exemplars: Seq::empty(),
            metric_attrs: Seq::empty(),
            dp_attrs: Seq::empty(),
            exemplar_attrs: Seq::empty(),
            rs: Interned::none(),
            points: 0,
            list_values: 0,
            min_ts: i64::MAX,
            max_ts: i64::MIN,
        }
    }
}

/// What absorbing something came to: how many points were added, or the label
/// of what is full.
pub type Absorbed = (MetricsState, nat, Option<Seq<char>>);

/// The state after claiming the next point id. Only a time that is set widens
/// the block's range; a start time never does, because for a cumulative metric
/// it is process start and would make the block match every query.
pub open spec fn with_point(st: MetricsState, time: u64) -> MetricsState {
    let t = nanos_of(time);
    MetricsState {
        points: st.points + 1,
        min_ts: if t != 0 && t < st.min_ts {
            t
        } else {
            st.min_ts
        },
        max_ts: if t != 0 && t > st.max_ts {
            t
        } else {
            st.max_ts
        },
        ..st
    }
}

/// The value of a point or an exemplar, where it is an integer.
pub open spec fn int_of(v: Option<NumberValue>) -> Option<i64> {
    match v {
        Some(NumberValue::AsInt(i)) => Some(i),
        _ => None,
    }
}

/// The value of a point or an exemplar, where it is a double.
pub open spec fn double_of(v: Option<NumberValue>) -> Option<u64> {
    match v {
        Some(NumberValue::AsDouble(d)) => Some(d),
        _ => None,
    }
}

/// The row an exemplar is stored as.
pub open spec fn exemplar_row(e: Exemplar, dp_id: u32) -> ExemplarRow {
    ExemplarRow {
        parent: dp_id,
        time: nanos_of(e.time_unix_nano),
        int: int_of(e.value),
        double: double_of(e.value),
        trace: of_width(e.trace_id@, 16),
        span: of_width(e.span_id@, 8),
    }
}

/// The state after the exemplars of one point, and the label of what refused
/// one.
pub open spec fn with_exemplars(st: MetricsState, dp_id: u32, es: Seq<Exemplar>) -> (
    MetricsState,
    Option<Seq<char>>,
)
    decreases es.len(),
{
    if es.len() == 0 {
        (st, None)
    } else {
        let end = appended(
            st.exemplar_attrs,
            st.exemplars.len() as u32,
            pairs(es[0].filtered_attributes@),
        );
        let s1 = MetricsState {
            exemplars: st.exemplars.push(exemplar_row(es[0], dp_id)),
            exemplar_attrs: end.0,
            ..st
        };
        if end.1 {
            with_exemplars(s1, dp_id, es.skip(1))
        } else {
            (s1, Some("exemplar_attrs.key"@))
        }
    }
}

/// The state after the attributes and exemplars of one point.
pub open spec fn with_tail(
    st: MetricsState,
    dp_id: u32,
    attributes: Seq<KeyValue>,
    es: Seq<Exemplar>,
) -> (MetricsState, Option<Seq<char>>) {
    let end = appended(st.dp_attrs, dp_id, pairs(attributes));
    let s1 = MetricsState { dp_attrs: end.0, ..st };
    if end.1 {
        with_exemplars(s1, dp_id, es)
    } else {
        (s1, Some("dp_attrs.key"@))
    }
}

/// The state after one point of a gauge or a sum.
pub open spec fn with_number(st: MetricsState, p: NumberDataPoint, mid: u32) -> (
    MetricsState,
    Option<Seq<char>>,
) {
    let id = st.points as u32;
    let s0 = with_point(st, p.time_unix_nano);
    let row = NumberRow {
        head: head_of(id, mid, p.start_time_unix_nano, p.time_unix_nano, p.flags),
        int: int_of(p.value),
        double: double_of(p.value),
    };
    with_tail(
        MetricsState { numbers: s0.numbers.push(row), ..s0 },
        id,
        p.attributes@,
        p.exemplars@,
    )
}

/// The state after one point of a histogram. A point with no boundaries points
/// at none.
pub open spec fn with_hist(st: MetricsState, p: HistogramDataPoint, mid: u32) -> (
    MetricsState,
    Option<Seq<char>>,
) {
    let id = st.points as u32;
    let s0 = with_point(st, p.time_unix_nano);
    let b = p.explicit_bounds@;
    let numbered = bounds_number(st.bounds, b);
    let row = HistRow {
        head: head_of(id, mid, p.start_time_unix_nano, p.time_unix_nano, p.flags),
        stats: StatsRow { count: p.count, sum: p.sum, min: p.min, max: p.max },
        counts: p.bucket_counts@,
        bounds: if b.len() == 0 {
            None
        } else {
            Some(numbered.0)
        },
    };
    with_tail(
        MetricsState {
            hists: s0.hists.push(row),
            bounds: if b.len() == 0 {
                st.bounds
            } else {
                with_bounds(st.bounds, b)
            },
            list_values: st.list_values + p.bucket_counts@.len() + if b.len() > 0 && numbered.1 {
                b.len()
            } else {
                0
            },
            ..s0
        },
        id,
        p.attributes@,
        p.exemplars@,
    )
}

/// The offset of one side of an exponential histogram: zero where the side was
/// not recorded.
pub open spec fn offset_of(b: Option<Buckets>) -> i32 {
    match b {
        Some(x) => x.offset,
        None => 0,
    }
}

/// The counts of one side of an exponential histogram.
pub open spec fn counts_of(b: Option<Buckets>) -> Option<Seq<u64>> {
    match b {
        Some(x) => Some(x.bucket_counts@),
        None => None,
    }
}

/// How many counts one side of an exponential histogram has.
pub open spec fn counts_len(b: Option<Buckets>) -> nat {
    match b {
        Some(x) => x.bucket_counts@.len(),
        None => 0,
    }
}

/// The state after one point of an exponential histogram.
pub open spec fn with_exp(st: MetricsState, p: ExponentialHistogramDataPoint, mid: u32) -> (
    MetricsState,
    Option<Seq<char>>,
) {
    let id = st.points as u32;
    let s0 = with_point(st, p.time_unix_nano);
    let row = ExpRow {
        head: head_of(id, mid, p.start_time_unix_nano, p.time_unix_nano, p.flags),
        stats: StatsRow { count: p.count, sum: p.sum, min: p.min, max: p.max },
        scale: p.scale,
        zero_count: p.zero_count,
        zero_threshold: p.zero_threshold,
        pos_offset: offset_of(p.positive),
        pos: counts_of(p.positive),
        neg_offset: offset_of(p.negative),
        neg: counts_of(p.negative),
    };
    with_tail(
        MetricsState {
            exps: s0.exps.push(row),
            list_values: st.list_values + counts_len(p.positive) + counts_len(p.negative),
            ..s0
        },
        id,
        p.attributes@,
        p.exemplars@,
    )
}

/// The state after one point of a summary, which has no exemplars.
pub open spec fn with_summ(st: MetricsState, p: SummaryDataPoint, mid: u32) -> (
    MetricsState,
    Option<Seq<char>>,
) {
    let id = st.points as u32;
    let s0 = with_point(st, p.time_unix_nano);
    let row = SummRow {
        head: head_of(id, mid, p.start_time_unix_nano, p.time_unix_nano, p.flags),
        count: p.count,
        sum: p.sum,
        quantile: p.quantile_values@.map_values(|q: ValueAtQuantile| q.quantile),
        value: p.quantile_values@.map_values(|q: ValueAtQuantile| q.value),
    };
    with_tail(
        MetricsState {
            summs: s0.summs.push(row),
            list_values: st.list_values + p.quantile_values@.len() * 2,
            ..s0
        },
        id,
        p.attributes@,
        Seq::empty(),
    )
}

/// The state after the points of a gauge or a sum.
pub open spec fn with_numbers(st: MetricsState, ps: Seq<NumberDataPoint>, mid: u32) -> Absorbed
    decreases ps.len(),
{
    if ps.len() == 0 {
        (st, 0, None)
    } else {
        let (s1, e) = with_number(st, ps[0], mid);
        if e is Some {
            (s1, 0, e)
        } else {
            let (s2, n, e2) = with_numbers(s1, ps.skip(1), mid);
            (s2, n + 1, e2)
        }
    }
}

/// The state after the points of a histogram.
pub open spec fn with_hists(st: MetricsState, ps: Seq<HistogramDataPoint>, mid: u32) -> Absorbed
    decreases ps.len(),
{
    if ps.len() == 0 {
        (st, 0, None)
    } else {
        let (s1, e) = with_hist(st, ps[0], mid);
        if e is Some {
            (s1, 0, e)
        } else {
            let (s2, n, e2) = with_hists(s1, ps.skip(1), mid);
            (s2, n + 1, e2)
        }
    }
}

/// The state after the points of an exponential histogram.
pub open spec fn with_exps(st: MetricsState, ps: Seq<ExponentialHistogramDataPoint>, mid: u32) -> Absorbed
    decreases ps.len(),
{
    if ps.len() == 0 {
        (st, 0, None)
    } else {
        let (s1, e) = with_exp(st, ps[0], mid);
        if e is Some {
            (s1, 0, e)
        } else {
            let (s2, n, e2) = with_exps(s1, ps.skip(1), mid);
            (s2, n + 1, e2)
        }
    }
}

/// The state after the points of a summary.
pub open spec fn with_summs(st: MetricsState, ps: Seq<SummaryDataPoint>, mid: u32) -> Absorbed
    decreases ps.len(),
{
    if ps.len() == 0 {
        (st, 0, None)
    } else {
        let (s1, e) = with_summ(st, ps[0], mid);
        if e is Some {
            (s1, 0, e)
        } else {
            let (s2, n, e2) = with_summs(s1, ps.skip(1), mid);
            (s2, n + 1, e2)
        }
    }
}

/// The state after the points of a metric, whichever shape they have.
pub open spec fn with_data(st: MetricsState, data: Option<MetricData>, mid: u32) -> Absorbed {
    match data {
        None => (st, 0, None),
        Some(MetricData::Gauge(g)) => with_numbers(st, g.data_points@, mid),
        Some(MetricData::Sum(s)) => with_numbers(st, s.data_points@, mid),
        Some(MetricData::Histogram(h)) => with_hists(st, h.data_points@, mid),
        Some(MetricData::ExponentialHistogram(h)) => with_exps(st, h.data_points@, mid),
        Some(MetricData::Summary(s)) => with_summs(st, s.data_points@, mid),
    }
}

/// A wire enumeration as a stored one: out of range becomes the zero variant,
/// which means "unspecified", or the highest that is defined.
pub open spec fn clamped(v: i32, max: u8) -> u8 {
    if v < 0 || v > 255 {
        0
    } else if v < max {
        v as u8
    } else {
        max
    }
}

/// A wire enumeration as a stored one. A client can send anything.
pub fn clamp_u8(v: i32, max: u8) -> (r: u8)
    ensures
        r == clamped(v, max),
{
    if v < 0 || v > 255 {
        0
    } else if v < max as i32 {
        v as u8
    } else {
        max
    }
}

/// The kind, temporality and monotonicity of a metric. Only a sum can be
/// monotonic.
pub open spec fn kind_of(data: Option<MetricData>) -> (u8, u8, bool) {
    match data {
        None => (MetricKind::Unset.number(), 0, false),
        Some(MetricData::Gauge(_)) => (MetricKind::Gauge.number(), 0, false),
        Some(MetricData::Sum(s)) => (
            MetricKind::Sum.number(),
            clamped(s.aggregation_temporality, 2),
            s.is_monotonic,
        ),
        Some(MetricData::Histogram(h)) => (
            MetricKind::Histogram.number(),
            clamped(h.aggregation_temporality, 2),
            false,
        ),
        Some(MetricData::ExponentialHistogram(h)) => (
            MetricKind::ExponentialHistogram.number(),
            clamped(h.aggregation_temporality, 2),
            false,
        ),
        Some(MetricData::Summary(_)) => (MetricKind::Summary.number(), 0, false),
    }
}

/// The row a metric is described by. An empty description is absent.
pub open spec fn metric_row(m: Metric, rid: u16, sid: u16) -> MetricRow {
    let k = kind_of(m.data);
    MetricRow {
        description: dict_text(m.description@),
        kind: k.0,
        temporality: k.1,
        monotonic: k.2,
        resource_id: rid,
        scope_id: sid,
    }
}

/// The state after one metric.
pub open spec fn with_metric(st: MetricsState, m: Metric, rid: u16, sid: u16) -> Absorbed {
    if !dict_takes(st.names, m.name@) {
        (st, 0, Some("metrics.name"@))
    } else {
        let s1 = MetricsState { names: st.names.push(dict_text(m.name@)), ..st };
        if !dict_takes(st.units, m.unit@) {
            (s1, 0, Some("metrics.unit"@))
        } else {
            let mid = st.metrics.len() as u32;
            let end = appended(st.metric_attrs, mid, pairs(m.metadata@));
            let s2 = MetricsState {
                units: st.units.push(dict_text(m.unit@)),
                metrics: st.metrics.push(metric_row(m, rid, sid)),
                metric_attrs: end.0,
                ..s1
            };
            if end.1 {
                with_data(s2, m.data, mid)
            } else {
                (s2, 0, Some("metric_attrs.key"@))
            }
        }
    }
}

/// The state after several metrics.
pub open spec fn with_metrics(st: MetricsState, ms: Seq<Metric>, rid: u16, sid: u16) -> Absorbed
    decreases ms.len(),
{
    if ms.len() == 0 {
        (st, 0, None)
    } else {
        let (s1, n, e) = with_metric(st, ms[0], rid, sid);
        if e is Some {
            (s1, n, e)
        } else {
            let (s2, k, e2) = with_metrics(s1, ms.skip(1), rid, sid);
            (s2, n + k, e2)
        }
    }
}

/// The state after the metrics of several scopes.
pub open spec fn with_scope_metrics(st: MetricsState, sms: Seq<ScopeMetrics>, rid: u16) -> Absorbed
    decreases sms.len(),
{
    if sms.len() == 0 {
        (st, 0, None)
    } else {
        let (rs, o) = with_scope(st.rs, sms[0].scope);
        let s0 = MetricsState { rs, ..st };
        match o {
            Outcome::Full(label) => (s0, 0, Some(label)),
            Outcome::Id(sid) => {
                let (s1, n, e) = with_metrics(s0, sms[0].metrics@, rid, sid);
                if e is Some {
                    (s1, n, e)
                } else {
                    let (s2, k, e2) = with_scope_metrics(s1, sms.skip(1), rid);
                    (s2, n + k, e2)
                }
            },
        }
    }
}

/// The state after the metrics of several resources.
pub open spec fn with_resource_metrics(st: MetricsState, rms: Seq<ResourceMetrics>) -> Absorbed
    decreases rms.len(),
{
    if rms.len() == 0 {
        (st, 0, None)
    } else {
        let (rs, o) = with_resource(st.rs, rms[0].resource);
        let s0 = MetricsState { rs, ..st };
        match o {
            Outcome::Full(label) => (s0, 0, Some(label)),
            Outcome::Id(rid) => {
                let (s1, n, e) = with_scope_metrics(s0, rms[0].scope_metrics@, rid);
                if e is Some {
                    (s1, n, e)
                } else {
                    let (s2, k, e2) = with_resource_metrics(s1, rms.skip(1));
                    (s2, n + k, e2)
                }
            },
        }
    }
}

// ---------------------------------------------------------------------------
// How much a request holds.

/// How many metrics, points and exemplars something holds.
pub struct Size {
    pub metrics: nat,
    pub points: nat,
    pub exemplars: nat,
}

/// Two sizes together.
pub open spec fn plus(a: Size, b: Size) -> Size {
    Size {
        metrics: a.metrics + b.metrics,
        points: a.points + b.points,
        exemplars: a.exemplars + b.exemplars,
    }
}

/// How much the points of a gauge or a sum hold.
pub open spec fn numbers_size(ps: Seq<NumberDataPoint>) -> Size
    decreases ps.len(),
{
    if ps.len() == 0 {
        Size { metrics: 0, points: 0, exemplars: 0 }
    } else {
        plus(
            Size { metrics: 0, points: 1, exemplars: ps[0].exemplars@.len() },
            numbers_size(ps.skip(1)),
        )
    }
}

/// How much the points of a histogram hold.
pub open spec fn hists_size(ps: Seq<HistogramDataPoint>) -> Size
    decreases ps.len(),
{
    if ps.len() == 0 {
        Size { metrics: 0, points: 0, exemplars: 0 }
    } else {
        plus(
            Size { metrics: 0, points: 1, exemplars: ps[0].exemplars@.len() },
            hists_size(ps.skip(1)),
        )
    }
}

/// How much the points of an exponential histogram hold.
pub open spec fn exps_size(ps: Seq<ExponentialHistogramDataPoint>) -> Size
    decreases ps.len(),
{
    if ps.len() == 0 {
        Size { metrics: 0, points: 0, exemplars: 0 }
    } else {
        plus(
            Size { metrics: 0, points: 1, exemplars: ps[0].exemplars@.len() },
            exps_size(ps.skip(1)),
        )
    }
}

/// How much the points of a summary hold.
pub open spec fn summs_size(ps: Seq<SummaryDataPoint>) -> Size
    decreases ps.len(),
{
    if ps.len() == 0 {
        Size { metrics: 0, points: 0, exemplars: 0 }
    } else {
        plus(
            Size { metrics: 0, points: 1, exemplars: 0 },
            summs_size(ps.skip(1)),
        )
    }
}

/// How much a metric's points hold.
pub open spec fn data_size(data: Option<MetricData>) -> Size {
    match data {
        None => Size { metrics: 0, points: 0, exemplars: 0 },
        Some(MetricData::Gauge(g)) => numbers_size(g.data_points@),
        Some(MetricData::Sum(s)) => numbers_size(s.data_points@),
        Some(MetricData::Histogram(h)) => hists_size(h.data_points@),
        Some(MetricData::ExponentialHistogram(h)) => exps_size(h.data_points@),
        Some(MetricData::Summary(s)) => summs_size(s.data_points@),
    }
}

/// How much several metrics hold.
pub open spec fn metrics_size(ms: Seq<Metric>) -> Size
    decreases ms.len(),
{
    if ms.len() == 0 {
        Size { metrics: 0, points: 0, exemplars: 0 }
    } else {
        plus(
            plus(Size { metrics: 1, points: 0, exemplars: 0 }, data_size(ms[0].data)),
            metrics_size(ms.skip(1)),
        )
    }
}

/// How much several scopes hold.
pub open spec fn scopes_size(sms: Seq<ScopeMetrics>) -> Size
    decreases sms.len(),
{
    if sms.len() == 0 {
        Size { metrics: 0, points: 0, exemplars: 0 }
    } else {
        plus(metrics_size(sms[0].metrics@), scopes_size(sms.skip(1)))
    }
}

/// How much several resources hold.
pub open spec fn request_size(rms: Seq<ResourceMetrics>) -> Size
    decreases rms.len(),
{
    if rms.len() == 0 {
        Size { metrics: 0, points: 0, exemplars: 0 }
    } else {
        plus(scopes_size(rms[0].scope_metrics@), request_size(rms.skip(1)))
    }
}

/// Whether 32-bit numbers still number everything after so much more.
pub open spec fn numbers_last(st: MetricsState, s: Size) -> bool {
    &&& st.metrics.len() + s.metrics <= u32::MAX
    &&& st.points + s.points <= u32::MAX
    &&& st.exemplars.len() + s.exemplars <= u32::MAX
}

// ---------------------------------------------------------------------------
// The builder.

/// Metrics on their way into a block.
pub struct MetricsBuilder {
    pub m_name: DictColumn,
    pub m_unit: DictColumn,
    pub descriptors: DescriptorTable,
    pub metric_attrs: AttrsBuilder,
    pub next_metric_id: u32,
    pub num: NumberTable,
    pub hist: HistTable,
    pub bounds: BoundsTable,
    pub exp: ExpTable,
    pub summ: SummTable,
    pub dp_attrs: AttrsBuilder,
    /// One counter across all four point tables.
    pub next_dp_id: u32,
    pub ex: ExemplarTable,
    pub exemplar_attrs: AttrsBuilder,
    pub next_exemplar_id: u32,
    pub rs: ResourceScope,
    /// List elements written so far, wrapped at the width of a word.
    pub list_values: usize,
    pub list_total: Ghost<nat>,
    pub min_ts: i64,
    pub max_ts: i64,
}

impl View for MetricsBuilder {
    type V = MetricsState;

    open spec fn view(&self) -> MetricsState {
        MetricsState {
            metrics: self.descriptors.rows(),
            names: self.m_name.slots(),
            units: self.m_unit.slots(),
            numbers: self.num.rows(),
            hists: self.hist.rows(),
            bounds: self.bounds.rows(),
            exps: self.exp.rows(),
            summs: self.summ.rows(),
            exemplars: self.ex.rows(),
            metric_attrs: self.metric_attrs@,
            dp_attrs: self.dp_attrs@,
            exemplar_attrs: self.exemplar_attrs@,
            rs: self.rs@,
            points: self.next_dp_id as nat,
            list_values: self.list_total@,
            min_ts: self.min_ts,
            max_ts: self.max_ts,
        }
    }
}

impl Default for MetricsBuilder {
    fn default() -> (r: MetricsBuilder)
        ensures
            r.wf(),
            r@ == MetricsState::none(),
    {
        MetricsBuilder::new()
    }
}

impl MetricsBuilder {
    pub open spec fn wf(&self) -> bool {
        &&& self.m_name.wf()
        &&& self.m_name.label@ == "metrics.name"@
        &&& self.m_unit.wf()
        &&& self.m_unit.label@ == "metrics.unit"@
        &&& self.descriptors.wf()
        &&& self.next_metric_id == self.descriptors.rows().len()
        &&& self.metric_attrs.wf()
        &&& self.metric_attrs.label@ == "metric_attrs.key"@
        &&& self.num.wf()
        &&& self.hist.wf()
        &&& self.bounds.wf()
        &&& self.bounds.rows().len() <= self.next_dp_id
        &&& self.exp.wf()
        &&& self.summ.wf()
        &&& self.dp_attrs.wf()
        &&& self.dp_attrs.label@ == "dp_attrs.key"@
        &&& self.ex.wf()
        &&& self.next_exemplar_id == self.ex.rows().len()
        &&& self.exemplar_attrs.wf()
        &&& self.exemplar_attrs.label@ == "exemplar_attrs.key"@
        &&& self.rs.wf()
        &&& self.list_values == wrapped_count(self.list_total@)
    }

    pub fn new() -> (r: MetricsBuilder)
        ensures
            r.wf(),
            r@ == MetricsState::none(),
    {
        assert(wrapped_count(0) == 0);
        MetricsBuilder {
            m_name: DictColumn::new("metrics.name"),
            m_unit: DictColumn::new("metrics.unit"),
            descriptors: DescriptorTable::new(),
            metric_attrs: AttrsBuilder::new("metric_attrs.key"),
            next_metric_id: 0,
            num: NumberTable::new(),
            hist: HistTable::new(),
            bounds: BoundsTable::new(),
            exp: ExpTable::new(),
            summ: SummTable::new(),
            dp_attrs: AttrsBuilder::new("dp_attrs.key"),
            next_dp_id: 0,
            ex: ExemplarTable::new(),
            exemplar_attrs: AttrsBuilder::new("exemplar_attrs.key"),
            next_exemplar_id: 0,
            rs: ResourceScope::new(),
            list_values: 0,
            list_total: Ghost(0),
            min_ts: i64::MAX,
            max_ts: i64::MIN,
        }
    }

    /// Data points, across all four tables.
    pub fn num_rows(&self) -> (n: usize)
        ensures
            n == self@.points,
    {
        self.next_dp_id as usize
    }

    pub fn is_empty(&self) -> (r: bool)
        requires
            self.wf(),
        ensures
            r == (self@.metrics.len() == 0),
    {
        self.next_metric_id == 0
    }

    /// Claim the next point id and fold its timestamp into the block's range.
    fn next_point(&mut self, time: u64) -> (id: u32)
        requires
            old(self).wf(),
            old(self)@.points < u32::MAX,
        ensures
            final(self).wf(),
            id == old(self)@.points,
            final(self)@ == with_point(old(self)@, time),
    {
        let id: u32 = self.next_dp_id;
        self.next_dp_id = self.next_dp_id + 1;
        let t: i64 = nanos(time);
        if t != 0 {
            if t < self.min_ts {
                self.min_ts = t;
            }
            if t > self.max_ts {
                self.max_ts = t;
            }
        }
        id
    }

    /// Count list elements.
    fn count_list(&mut self, n: usize)
        requires
            old(self).wf(),
        ensures
            final(self).wf(),
            final(self)@ == (MetricsState {
                list_values: old(self)@.list_values + n as nat,
                ..old(self)@
            }),
    {
        let ghost was = self.list_total@;
        self.list_values = add_count(self.list_values, n, Ghost(was));
        proof {
            self.list_total@ = was + n as nat;
        }
    }

    /// The number of some bucket boundaries, which are interned where they are
    /// new. No boundaries have no number.
    fn intern_bounds(&mut self, b: &Vec<u64>) -> (r: Option<u32>)
        requires
            old(self).wf(),
            old(self)@.bounds.len() < old(self)@.points,
        ensures
            final(self).wf(),
            r == (if b@.len() == 0 {
                None
            } else {
                Some(bounds_number(old(self)@.bounds, b@).0)
            }),
            final(self)@ == (MetricsState {
                bounds: if b@.len() == 0 {
                    old(self)@.bounds
                } else {
                    with_bounds(old(self)@.bounds, b@)
                },
                list_values: old(self)@.list_values + if b@.len() > 0 && bounds_number(
                    old(self)@.bounds,
                    b@,
                ).1 {
                    b@.len()
                } else {
                    0
                },
                ..old(self)@
            }),
    {
        if b.len() == 0 {
            return None;
        }
        let (number, fresh) = self.bounds.intern(b);
        if fresh {
            self.count_list(b.len());
        }
        Some(number)
    }

    fn append_exemplars(&mut self, dp_id: u32, es: &Vec<Exemplar>) -> (r: Result<(), Error>)
        requires
            old(self).wf(),
            old(self)@.exemplars.len() + es@.len() <= u32::MAX,
        ensures
            final(self).wf(),
            final(self)@ == with_exemplars(old(self)@, dp_id, es@).0,
            final(self)@.exemplars.len() <= old(self)@.exemplars.len() + es@.len(),
            r is Ok <==> with_exemplars(old(self)@, dp_id, es@).1 is None,
            r matches Err(e) ==> e matches Error::DictionaryFull(l) && Some(l@) == with_exemplars(
                old(self)@,
                dp_id,
                es@,
            ).1,
    {
        let ghost start = self@;
        let ghost all = es@;
        let mut i: usize = 0;
        assert(all.skip(0) =~= all);
        while i < es.len()
            invariant
                i <= es@.len(),
                all == es@,
                self.wf(),
                start == old(self)@,
                start.exemplars.len() + all.len() <= u32::MAX,
                self@.exemplars.len() <= start.exemplars.len() + i,
                with_exemplars(start, dp_id, all) == with_exemplars(
                    self@,
                    dp_id,
                    all.skip(i as int),
                ),
            decreases es@.len() - i,
        {
            assert(all.skip(i as int)[0] == all[i as int]);
            assert(all.skip(i as int).skip(1) =~= all.skip(i + 1));
            let e = &es[i];
            let ghost before = self@;
            let eid: u32 = self.next_exemplar_id;
            let (whole, double) = split_value(e.value);
            self.next_exemplar_id = self.next_exemplar_id + 1;
            self.ex.push(dp_id, nanos(e.time_unix_nano), whole, double, &e.trace_id, &e.span_id);
            let done = self.exemplar_attrs.append_all(eid, &e.filtered_attributes);
            match done {
                Ok(_) => {},
                Err(e) => {
                    return Err(e);
                },
            }
            i = i + 1;
        }
        Ok(())
    }

    fn append_tail(&mut self, dp_id: u32, attributes: &Vec<KeyValue>, es: &Vec<Exemplar>) -> (r: Result<
        (),
        Error,
    >)
        requires
            old(self).wf(),
            old(self)@.exemplars.len() + es@.len() <= u32::MAX,
        ensures
            final(self).wf(),
            final(self)@ == with_tail(old(self)@, dp_id, attributes@, es@).0,
            final(self)@.exemplars.len() <= old(self)@.exemplars.len() + es@.len(),
            r is Ok <==> with_tail(old(self)@, dp_id, attributes@, es@).1 is None,
            r matches Err(e) ==> e matches Error::DictionaryFull(l) && Some(l@) == with_tail(
                old(self)@,
                dp_id,
                attributes@,
                es@,
            ).1,
    {
        match self.dp_attrs.append_all(dp_id, attributes) {
            Ok(_) => {},
            Err(e) => {
                return Err(e);
            },
        }
        self.append_exemplars(dp_id, es)
    }

    fn append_number(&mut self, p: &NumberDataPoint, mid: u32) -> (r: Result<(), Error>)
        requires
            old(self).wf(),
            old(self)@.points < u32::MAX,
            old(self)@.exemplars.len() + p.exemplars@.len() <= u32::MAX,
        ensures
            final(self).wf(),
            final(self)@ == with_number(old(self)@, *p, mid).0,
            final(self)@.points == old(self)@.points + 1,
            final(self)@.exemplars.len() <= old(self)@.exemplars.len() + p.exemplars@.len(),
            final(self)@.metrics == old(self)@.metrics,
            r is Ok <==> with_number(old(self)@, *p, mid).1 is None,
            r matches Err(e) ==> e matches Error::DictionaryFull(l) && Some(l@) == with_number(
                old(self)@,
                *p,
                mid,
            ).1,
    {
        let id: u32 = self.next_point(p.time_unix_nano);
        let (whole, double) = split_value(p.value);
        self.num.push(
            id,
            mid,
            p.start_time_unix_nano,
            p.time_unix_nano,
            p.flags,
            whole,
            double,
        );
        proof {
            lemma_tail_keeps(self@, id, p.attributes@, p.exemplars@);
        }
        self.append_tail(id, &p.attributes, &p.exemplars)
    }

    fn append_hist(&mut self, p: &HistogramDataPoint, mid: u32) -> (r: Result<(), Error>)
        requires
            old(self).wf(),
            old(self)@.points < u32::MAX,
            old(self)@.exemplars.len() + p.exemplars@.len() <= u32::MAX,
        ensures
            final(self).wf(),
            final(self)@ == with_hist(old(self)@, *p, mid).0,
            final(self)@.points == old(self)@.points + 1,
            final(self)@.exemplars.len() <= old(self)@.exemplars.len() + p.exemplars@.len(),
            final(self)@.metrics == old(self)@.metrics,
            r is Ok <==> with_hist(old(self)@, *p, mid).1 is None,
            r matches Err(e) ==> e matches Error::DictionaryFull(l) && Some(l@) == with_hist(
                old(self)@,
                *p,
                mid,
            ).1,
    {
        let id: u32 = self.next_point(p.time_unix_nano);
        self.count_list(p.bucket_counts.len());
        let bounds: Option<u32> = self.intern_bounds(&p.explicit_bounds);
        self.hist.push(
            id,
            mid,
            p.start_time_unix_nano,
            p.time_unix_nano,
            p.flags,
            p.count,
            p.sum,
            p.min,
            p.max,
            &p.bucket_counts,
            bounds,
        );
        proof {
            lemma_tail_keeps(self@, id, p.attributes@, p.exemplars@);
        }
        self.append_tail(id, &p.attributes, &p.exemplars)
    }

    fn append_exp(&mut self, p: &ExponentialHistogramDataPoint, mid: u32) -> (r: Result<(), Error>)
        requires
            old(self).wf(),
            old(self)@.points < u32::MAX,
            old(self)@.exemplars.len() + p.exemplars@.len() <= u32::MAX,
        ensures
            final(self).wf(),
            final(self)@ == with_exp(old(self)@, *p, mid).0,
            final(self)@.points == old(self)@.points + 1,
            final(self)@.exemplars.len() <= old(self)@.exemplars.len() + p.exemplars@.len(),
            final(self)@.metrics == old(self)@.metrics,
            r is Ok <==> with_exp(old(self)@, *p, mid).1 is None,
            r matches Err(e) ==> e matches Error::DictionaryFull(l) && Some(l@) == with_exp(
                old(self)@,
                *p,
                mid,
            ).1,
    {
        let id: u32 = self.next_point(p.time_unix_nano);
        let (pos_offset, pos) = side(&p.positive);
        let (neg_offset, neg) = side(&p.negative);
        if let Some(v) = pos {
            self.count_list(v.len());
        }
        if let Some(v) = neg {
            self.count_list(v.len());
        }
        self.exp.push(
            id,
            mid,
            p.start_time_unix_nano,
            p.time_unix_nano,
            p.flags,
            p.count,
            p.sum,
            p.min,
            p.max,
            p.scale,
            p.zero_count,
            p.zero_threshold,
            pos_offset,
            pos,
            neg_offset,
            neg,
        );
        proof {
            lemma_tail_keeps(self@, id, p.attributes@, p.exemplars@);
        }
        self.append_tail(id, &p.attributes, &p.exemplars)
    }

    fn append_summ(&mut self, p: &SummaryDataPoint, mid: u32) -> (r: Result<(), Error>)
        requires
            old(self).wf(),
            old(self)@.points < u32::MAX,
            old(self)@.exemplars.len() + 0 <= u32::MAX,
        ensures
            final(self).wf(),
            final(self)@ == with_summ(old(self)@, *p, mid).0,
            final(self)@.points == old(self)@.points + 1,
            final(self)@.exemplars.len() <= old(self)@.exemplars.len() + 0,
            final(self)@.metrics == old(self)@.metrics,
            r is Ok <==> with_summ(old(self)@, *p, mid).1 is None,
            r matches Err(e) ==> e matches Error::DictionaryFull(l) && Some(l@) == with_summ(
                old(self)@,
                *p,
                mid,
            ).1,
    {
        let id: u32 = self.next_point(p.time_unix_nano);
        let (quantiles, values) = quantile_lists(&p.quantile_values);
        let n: usize = p.quantile_values.len();
        self.count_list(n);
        self.count_list(n);
        self.summ.push(
            id,
            mid,
            p.start_time_unix_nano,
            p.time_unix_nano,
            p.flags,
            p.count,
            p.sum,
            &quantiles,
            &values,
        );
        let none: Vec<Exemplar> = Vec::new();
        assert(none@ =~= Seq::<Exemplar>::empty());
        proof {
            lemma_tail_keeps(self@, id, p.attributes@, none@);
        }
        self.append_tail(id, &p.attributes, &none)
    }

    fn append_numbers(&mut self, ps: &Vec<NumberDataPoint>, mid: u32) -> (r: Result<usize, Error>)
        requires
            old(self).wf(),
            numbers_last(old(self)@, numbers_size(ps@)),
        ensures
            final(self).wf(),
            final(self)@ == with_numbers(old(self)@, ps@, mid).0,
            grown_within(old(self)@, final(self)@, numbers_size(ps@)),
            absorbed_as(r, with_numbers(old(self)@, ps@, mid)),
            r matches Ok(n) ==> n <= numbers_size(ps@).points,
    {
        let ghost start = self@;
        let ghost all = ps@;
        let mut i: usize = 0;
        assert(all.skip(0) =~= all);
        while i < ps.len()
            invariant
                i <= ps@.len(),
                all == ps@,
                self.wf(),
                start == old(self)@,
                numbers_last(start, numbers_size(all)),
                self@.metrics.len() == start.metrics.len(),
                self@.points + numbers_size(all.skip(i as int)).points == start.points + numbers_size(
                    all,
                ).points,
                self@.exemplars.len() + numbers_size(all.skip(i as int)).exemplars
                    <= start.exemplars.len() + numbers_size(all).exemplars,
                i + numbers_size(all.skip(i as int)).points == numbers_size(all).points,
                with_numbers(start, all, mid) == ({
                    let rest = with_numbers(self@, all.skip(i as int), mid);
                    (rest.0, i as nat + rest.1, rest.2)
                }),
            decreases ps@.len() - i,
        {
            assert(all.skip(i as int)[0] == all[i as int]);
            assert(all.skip(i as int).skip(1) =~= all.skip(i + 1));
            match self.append_number(&ps[i], mid) {
                Ok(_) => {},
                Err(e) => {
                    return Err(e);
                },
            }
            i = i + 1;
        }
        Ok(i)
    }

    fn append_hists(&mut self, ps: &Vec<HistogramDataPoint>, mid: u32) -> (r: Result<usize, Error>)
        requires
            old(self).wf(),
            numbers_last(old(self)@, hists_size(ps@)),
        ensures
            final(self).wf(),
            final(self)@ == with_hists(old(self)@, ps@, mid).0,
            grown_within(old(self)@, final(self)@, hists_size(ps@)),
            absorbed_as(r, with_hists(old(self)@, ps@, mid)),
            r matches Ok(n) ==> n <= hists_size(ps@).points,
    {
        let ghost start = self@;
        let ghost all = ps@;
        let mut i: usize = 0;
        assert(all.skip(0) =~= all);
        while i < ps.len()
            invariant
                i <= ps@.len(),
                all == ps@,
                self.wf(),
                start == old(self)@,
                numbers_last(start, hists_size(all)),
                self@.metrics.len() == start.metrics.len(),
                self@.points + hists_size(all.skip(i as int)).points == start.points + hists_size(
                    all,
                ).points,
                self@.exemplars.len() + hists_size(all.skip(i as int)).exemplars
                    <= start.exemplars.len() + hists_size(all).exemplars,
                i + hists_size(all.skip(i as int)).points == hists_size(all).points,
                with_hists(start, all, mid) == ({
                    let rest = with_hists(self@, all.skip(i as int), mid);
                    (rest.0, i as nat + rest.1, rest.2)
                }),
            decreases ps@.len() - i,
        {
            assert(all.skip(i as int)[0] == all[i as int]);
            assert(all.skip(i as int).skip(1) =~= all.skip(i + 1));
            match self.append_hist(&ps[i], mid) {
                Ok(_) => {},
                Err(e) => {
                    return Err(e);
                },
            }
            i = i + 1;
        }
        Ok(i)
    }

    fn append_exps(&mut self, ps: &Vec<ExponentialHistogramDataPoint>, mid: u32) -> (r: Result<usize, Error>)
        requires
            old(self).wf(),
            numbers_last(old(self)@, exps_size(ps@)),
        ensures
            final(self).wf(),
            final(self)@ == with_exps(old(self)@, ps@, mid).0,
            grown_within(old(self)@, final(self)@, exps_size(ps@)),
            absorbed_as(r, with_exps(old(self)@, ps@, mid)),
            r matches Ok(n) ==> n <= exps_size(ps@).points,
    {
        let ghost start = self@;
        let ghost all = ps@;
        let mut i: usize = 0;
        assert(all.skip(0) =~= all);
        while i < ps.len()
            invariant
                i <= ps@.len(),
                all == ps@,
                self.wf(),
                start == old(self)@,
                numbers_last(start, exps_size(all)),
                self@.metrics.len() == start.metrics.len(),
                self@.points + exps_size(all.skip(i as int)).points == start.points + exps_size(
                    all,
                ).points,
                self@.exemplars.len() + exps_size(all.skip(i as int)).exemplars
                    <= start.exemplars.len() + exps_size(all).exemplars,
                i + exps_size(all.skip(i as int)).points == exps_size(all).points,
                with_exps(start, all, mid) == ({
                    let rest = with_exps(self@, all.skip(i as int), mid);
                    (rest.0, i as nat + rest.1, rest.2)
                }),
            decreases ps@.len() - i,
        {
            assert(all.skip(i as int)[0] == all[i as int]);
            assert(all.skip(i as int).skip(1) =~= all.skip(i + 1));
            match self.append_exp(&ps[i], mid) {
                Ok(_) => {},
                Err(e) => {
                    return Err(e);
                },
            }
            i = i + 1;
        }
        Ok(i)
    }

    fn append_summs(&mut self, ps: &Vec<SummaryDataPoint>, mid: u32) -> (r: Result<usize, Error>)
        requires
            old(self).wf(),
            numbers_last(old(self)@, summs_size(ps@)),
        ensures
            final(self).wf(),
            final(self)@ == with_summs(old(self)@, ps@, mid).0,
            grown_within(old(self)@, final(self)@, summs_size(ps@)),
            absorbed_as(r, with_summs(old(self)@, ps@, mid)),
            r matches Ok(n) ==> n <= summs_size(ps@).points,
    {
        let ghost start = self@;
        let ghost all = ps@;
        let mut i: usize = 0;
        assert(all.skip(0) =~= all);
        while i < ps.len()
            invariant
                i <= ps@.len(),
                all == ps@,
                self.wf(),
                start == old(self)@,
                numbers_last(start, summs_size(all)),
                self@.metrics.len() == start.metrics.len(),
                self@.points + summs_size(all.skip(i as int)).points == start.points + summs_size(
                    all,
                ).points,
                self@.exemplars.len() + summs_size(all.skip(i as int)).exemplars
                    <= start.exemplars.len() + summs_size(all).exemplars,
                i + summs_size(all.skip(i as int)).points == summs_size(all).points,
                with_summs(start, all, mid) == ({
                    let rest = with_summs(self@, all.skip(i as int), mid);
                    (rest.0, i as nat + rest.1, rest.2)
                }),
            decreases ps@.len() - i,
        {
            assert(all.skip(i as int)[0] == all[i as int]);
            assert(all.skip(i as int).skip(1) =~= all.skip(i + 1));
            match self.append_summ(&ps[i], mid) {
                Ok(_) => {},
                Err(e) => {
                    return Err(e);
                },
            }
            i = i + 1;
        }
        Ok(i)
    }
}

/// A result that says what absorbing came to.
pub open spec fn absorbed_as(r: Result<usize, Error>, end: Absorbed) -> bool {
    &&& r is Ok <==> end.2 is None
    &&& r matches Ok(n) ==> n == end.1
    &&& r matches Err(e) ==> e matches Error::DictionaryFull(l) && Some(l@) == end.2
}

/// Whether no more was added than a size allows.
pub open spec fn grown_within(a: MetricsState, b: MetricsState, s: Size) -> bool {
    &&& b.metrics.len() <= a.metrics.len() + s.metrics
    &&& b.points <= a.points + s.points
    &&& b.exemplars.len() <= a.exemplars.len() + s.exemplars
}

/// The two columns a value goes into.
fn split_value(v: Option<NumberValue>) -> (r: (Option<i64>, Option<u64>))
    ensures
        r == (int_of(v), double_of(v)),
{
    match v {
        Some(NumberValue::AsInt(i)) => (Some(i), None),
        Some(NumberValue::AsDouble(d)) => (None, Some(d)),
        None => (None, None),
    }
}

/// One side of an exponential histogram.
fn side<'a>(b: &'a Option<Buckets>) -> (r: (i32, Option<&'a Vec<u64>>))
    ensures
        r.0 == offset_of(*b),
        list_view(r.1) == counts_of(*b),
        r.1 matches Some(v) ==> v@.len() == counts_len(*b),
        r.1 is None ==> counts_len(*b) == 0,
{
    match b {
        Some(x) => (x.offset, Some(&x.bucket_counts)),
        None => (0, None),
    }
}

/// Exemplars change neither the descriptors nor the point count.
proof fn lemma_exemplars_keep(st: MetricsState, dp_id: u32, es: Seq<Exemplar>)
    ensures
        with_exemplars(st, dp_id, es).0.points == st.points,
        with_exemplars(st, dp_id, es).0.metrics == st.metrics,
    decreases es.len(),
{
    if es.len() > 0 {
        let end = appended(
            st.exemplar_attrs,
            st.exemplars.len() as u32,
            pairs(es[0].filtered_attributes@),
        );
        let s1 = MetricsState {
            exemplars: st.exemplars.push(exemplar_row(es[0], dp_id)),
            exemplar_attrs: end.0,
            ..st
        };
        if end.1 {
            lemma_exemplars_keep(s1, dp_id, es.skip(1));
        }
    }
}

proof fn lemma_tail_keeps(st: MetricsState, dp_id: u32, attributes: Seq<KeyValue>, es: Seq<Exemplar>)
    ensures
        with_tail(st, dp_id, attributes, es).0.points == st.points,
        with_tail(st, dp_id, attributes, es).0.metrics == st.metrics,
{
    let end = appended(st.dp_attrs, dp_id, pairs(attributes));
    lemma_exemplars_keep(MetricsState { dp_attrs: end.0, ..st }, dp_id, es);
}

/// The quantiles and the values of a summary, as two parallel lists.
fn quantile_lists(v: &Vec<ValueAtQuantile>) -> (r: (Vec<u64>, Vec<u64>))
    ensures
        r.0@ == v@.map_values(|q: ValueAtQuantile| q.quantile),
        r.1@ == v@.map_values(|q: ValueAtQuantile| q.value),
{
    let mut quantiles: Vec<u64> = Vec::new();
    let mut values: Vec<u64> = Vec::new();
    let mut i: usize = 0;
    while i < v.len()
        invariant
            i <= v@.len(),
            quantiles@ == v@.take(i as int).map_values(|q: ValueAtQuantile| q.quantile),
            values@ == v@.take(i as int).map_values(|q: ValueAtQuantile| q.value),
        decreases v@.len() - i,
    {
        quantiles.push(v[i].quantile);
        values.push(v[i].value);
        assert(quantiles@ =~= v@.take(i + 1).map_values(|q: ValueAtQuantile| q.quantile));
        assert(values@ =~= v@.take(i + 1).map_values(|q: ValueAtQuantile| q.value));
        i = i + 1;
    }
    assert(v@.take(i as int) =~= v@);
    (quantiles, values)
}

// ---------------------------------------------------------------------------
// Requests.

/// The kind, temporality and monotonicity of a metric.
fn describe(data: &Option<MetricData>) -> (r: (u8, u8, bool))
    ensures
        r == kind_of(*data),
{
    match data {
        None => (MetricKind::Unset.code(), 0, false),
        Some(MetricData::Gauge(_)) => (MetricKind::Gauge.code(), 0, false),
        Some(MetricData::Sum(s)) => (
            MetricKind::Sum.code(),
            clamp_u8(s.aggregation_temporality, 2),
            s.is_monotonic,
        ),
        Some(MetricData::Histogram(h)) => (
            MetricKind::Histogram.code(),
            clamp_u8(h.aggregation_temporality, 2),
            false,
        ),
        Some(MetricData::ExponentialHistogram(h)) => (
            MetricKind::ExponentialHistogram.code(),
            clamp_u8(h.aggregation_temporality, 2),
            false,
        ),
        Some(MetricData::Summary(_)) => (MetricKind::Summary.code(), 0, false),
    }
}

impl MetricsBuilder {
    fn append_data(&mut self, data: &Option<MetricData>, mid: u32) -> (r: Result<usize, Error>)
        requires
            old(self).wf(),
            numbers_last(old(self)@, data_size(*data)),
        ensures
            final(self).wf(),
            final(self)@ == with_data(old(self)@, *data, mid).0,
            grown_within(old(self)@, final(self)@, data_size(*data)),
            absorbed_as(r, with_data(old(self)@, *data, mid)),
            r matches Ok(n) ==> n <= data_size(*data).points,
    {
        match data {
            None => Ok(0),
            Some(MetricData::Gauge(g)) => self.append_numbers(&g.data_points, mid),
            Some(MetricData::Sum(s)) => self.append_numbers(&s.data_points, mid),
            Some(MetricData::Histogram(h)) => self.append_hists(&h.data_points, mid),
            Some(MetricData::ExponentialHistogram(h)) => self.append_exps(&h.data_points, mid),
            Some(MetricData::Summary(s)) => self.append_summs(&s.data_points, mid),
        }
    }

    /// Absorb one metric. Both dictionaries are appended to before anything
    /// else. Returns the number of points added.
    pub fn append_metric(&mut self, m: &Metric, rid: u16, sid: u16) -> (r: Result<usize, Error>)
        requires
            old(self).wf(),
            numbers_last(
                old(self)@,
                plus(Size { metrics: 1, points: 0, exemplars: 0 }, data_size(m.data)),
            ),
        ensures
            final(self).wf(),
            final(self)@ == with_metric(old(self)@, *m, rid, sid).0,
            grown_within(
                old(self)@,
                final(self)@,
                plus(Size { metrics: 1, points: 0, exemplars: 0 }, data_size(m.data)),
            ),
            absorbed_as(r, with_metric(old(self)@, *m, rid, sid)),
            r matches Ok(n) ==> n <= data_size(m.data).points,
    {
        match self.m_name.append(m.name.as_str()) {
            Ok(_) => {},
            Err(e) => {
                return Err(e);
            },
        }
        match self.m_unit.append(m.unit.as_str()) {
            Ok(_) => {},
            Err(e) => {
                return Err(e);
            },
        }
        let mid: u32 = self.next_metric_id;
        self.next_metric_id = self.next_metric_id + 1;
        let (kind, temporality, monotonic) = describe(&m.data);
        let description: Option<&String> = if m.description.as_str().is_empty() {
            None
        } else {
            Some(&m.description)
        };
        self.descriptors.push(description, kind, temporality, monotonic, rid, sid);
        match self.metric_attrs.append_all(mid, &m.metadata) {
            Ok(_) => {},
            Err(e) => {
                return Err(e);
            },
        }
        self.append_data(&m.data, mid)
    }

    fn append_metrics(&mut self, ms: &Vec<Metric>, rid: u16, sid: u16) -> (r: Result<usize, Error>)
        requires
            old(self).wf(),
            numbers_last(old(self)@, metrics_size(ms@)),
        ensures
            final(self).wf(),
            final(self)@ == with_metrics(old(self)@, ms@, rid, sid).0,
            grown_within(old(self)@, final(self)@, metrics_size(ms@)),
            absorbed_as(r, with_metrics(old(self)@, ms@, rid, sid)),
            r matches Ok(n) ==> n <= metrics_size(ms@).points,
    {
        let ghost start = self@;
        let ghost all = ms@;
        let ghost budget = metrics_size(all);
        let mut i: usize = 0;
        let mut added: usize = 0;
        assert(all.skip(0) =~= all);
        while i < ms.len()
            invariant
                i <= ms@.len(),
                all == ms@,
                self.wf(),
                start == old(self)@,
                budget == metrics_size(all),
                numbers_last(start, budget),
                self@.metrics.len() + metrics_size(all.skip(i as int)).metrics <= start.metrics.len()
                    + budget.metrics,
                self@.points + metrics_size(all.skip(i as int)).points <= start.points + budget.points,
                self@.exemplars.len() + metrics_size(all.skip(i as int)).exemplars
                    <= start.exemplars.len() + budget.exemplars,
                added + metrics_size(all.skip(i as int)).points <= budget.points,
                with_metrics(start, all, rid, sid) == ({
                    let rest = with_metrics(self@, all.skip(i as int), rid, sid);
                    (rest.0, added as nat + rest.1, rest.2)
                }),
            decreases ms@.len() - i,
        {
            assert(all.skip(i as int)[0] == all[i as int]);
            assert(all.skip(i as int).skip(1) =~= all.skip(i + 1));
            let n: usize = match self.append_metric(&ms[i], rid, sid) {
                Ok(n) => n,
                Err(e) => {
                    return Err(e);
                },
            };
            added = added + n;
            i = i + 1;
        }
        Ok(added)
    }

    fn append_scopes(&mut self, sms: &Vec<ScopeMetrics>, rid: u16) -> (r: Result<usize, Error>)
        requires
            old(self).wf(),
            numbers_last(old(self)@, scopes_size(sms@)),
        ensures
            final(self).wf(),
            final(self)@ == with_scope_metrics(old(self)@, sms@, rid).0,
            grown_within(old(self)@, final(self)@, scopes_size(sms@)),
            absorbed_as(r, with_scope_metrics(old(self)@, sms@, rid)),
            r matches Ok(n) ==> n <= scopes_size(sms@).points,
    {
        let ghost start = self@;
        let ghost all = sms@;
        let ghost budget = scopes_size(all);
        let mut i: usize = 0;
        let mut added: usize = 0;
        assert(all.skip(0) =~= all);
        while i < sms.len()
            invariant
                i <= sms@.len(),
                all == sms@,
                self.wf(),
                start == old(self)@,
                budget == scopes_size(all),
                numbers_last(start, budget),
                self@.metrics.len() + scopes_size(all.skip(i as int)).metrics <= start.metrics.len()
                    + budget.metrics,
                self@.points + scopes_size(all.skip(i as int)).points <= start.points + budget.points,
                self@.exemplars.len() + scopes_size(all.skip(i as int)).exemplars
                    <= start.exemplars.len() + budget.exemplars,
                added + scopes_size(all.skip(i as int)).points <= budget.points,
                with_scope_metrics(start, all, rid) == ({
                    let rest = with_scope_metrics(self@, all.skip(i as int), rid);
                    (rest.0, added as nat + rest.1, rest.2)
                }),
            decreases sms@.len() - i,
        {
            assert(all.skip(i as int)[0] == all[i as int]);
            assert(all.skip(i as int).skip(1) =~= all.skip(i + 1));
            let sm = &sms[i];
            let scope = match &sm.scope {
                Some(x) => Some(x),
                None => None,
            };
            let sid: u16 = match self.rs.scope(scope) {
                Ok(id) => id,
                Err(e) => {
                    return Err(e);
                },
            };
            let n: usize = match self.append_metrics(&sm.metrics, rid, sid) {
                Ok(n) => n,
                Err(e) => {
                    return Err(e);
                },
            };
            added = added + n;
            i = i + 1;
        }
        Ok(added)
    }

    fn append_resources(&mut self, rms: &Vec<ResourceMetrics>) -> (r: Result<usize, Error>)
        requires
            old(self).wf(),
            numbers_last(old(self)@, request_size(rms@)),
        ensures
            final(self).wf(),
            final(self)@ == with_resource_metrics(old(self)@, rms@).0,
            grown_within(old(self)@, final(self)@, request_size(rms@)),
            absorbed_as(r, with_resource_metrics(old(self)@, rms@)),
            r matches Ok(n) ==> n <= request_size(rms@).points,
    {
        let ghost start = self@;
        let ghost all = rms@;
        let ghost budget = request_size(all);
        let mut i: usize = 0;
        let mut added: usize = 0;
        assert(all.skip(0) =~= all);
        while i < rms.len()
            invariant
                i <= rms@.len(),
                all == rms@,
                self.wf(),
                start == old(self)@,
                budget == request_size(all),
                numbers_last(start, budget),
                self@.metrics.len() + request_size(all.skip(i as int)).metrics <= start.metrics.len()
                    + budget.metrics,
                self@.points + request_size(all.skip(i as int)).points <= start.points + budget.points,
                self@.exemplars.len() + request_size(all.skip(i as int)).exemplars
                    <= start.exemplars.len() + budget.exemplars,
                added + request_size(all.skip(i as int)).points <= budget.points,
                with_resource_metrics(start, all) == ({
                    let rest = with_resource_metrics(self@, all.skip(i as int));
                    (rest.0, added as nat + rest.1, rest.2)
                }),
            decreases rms@.len() - i,
        {
            assert(all.skip(i as int)[0] == all[i as int]);
            assert(all.skip(i as int).skip(1) =~= all.skip(i + 1));
            let rm = &rms[i];
            let resource = match &rm.resource {
                Some(x) => Some(x),
                None => None,
            };
            let rid: u16 = match self.rs.resource(resource) {
                Ok(id) => id,
                Err(e) => {
                    return Err(e);
                },
            };
            let n: usize = match self.append_scopes(&rm.scope_metrics, rid) {
                Ok(n) => n,
                Err(e) => {
                    return Err(e);
                },
            };
            added = added + n;
            i = i + 1;
        }
        Ok(added)
    }

    /// Absorb one export request. Returns the number of points added. On a
    /// refusal what had been absorbed before it stays absorbed.
    pub fn append_request(&mut self, req: &ExportMetricsServiceRequest) -> (r: Result<usize, Error>)
        requires
            old(self).wf(),
            numbers_last(old(self)@, request_size(req.resource_metrics@)),
        ensures
            final(self).wf(),
            final(self)@ == with_resource_metrics(old(self)@, req.resource_metrics@).0,
            absorbed_as(r, with_resource_metrics(old(self)@, req.resource_metrics@)),
    {
        self.append_resources(&req.resource_metrics)
    }
}

// ---------------------------------------------------------------------------
// Headroom.

/// The attributes of a point's exemplars.
pub open spec fn exemplar_kv(es: Seq<Exemplar>) -> nat
    decreases es.len(),
{
    if es.len() == 0 {
        0
    } else {
        es[0].filtered_attributes@.len() + exemplar_kv(es.skip(1))
    }
}

/// The attributes of the points of a gauge or a sum, and those of their exemplars.
pub open spec fn numbers_kv(ps: Seq<NumberDataPoint>) -> (nat, nat)
    decreases ps.len(),
{
    if ps.len() == 0 {
        (0, 0)
    } else {
        let rest = numbers_kv(ps.skip(1));
        (ps[0].attributes@.len() + rest.0, exemplar_kv(ps[0].exemplars@) + rest.1)
    }
}

/// The attributes of the points of a histogram, and those of their exemplars.
pub open spec fn hists_kv(ps: Seq<HistogramDataPoint>) -> (nat, nat)
    decreases ps.len(),
{
    if ps.len() == 0 {
        (0, 0)
    } else {
        let rest = hists_kv(ps.skip(1));
        (ps[0].attributes@.len() + rest.0, exemplar_kv(ps[0].exemplars@) + rest.1)
    }
}

/// The attributes of the points of an exponential histogram, and those of their exemplars.
pub open spec fn exps_kv(ps: Seq<ExponentialHistogramDataPoint>) -> (nat, nat)
    decreases ps.len(),
{
    if ps.len() == 0 {
        (0, 0)
    } else {
        let rest = exps_kv(ps.skip(1));
        (ps[0].attributes@.len() + rest.0, exemplar_kv(ps[0].exemplars@) + rest.1)
    }
}

/// The attributes of the points of a summary, and those of their exemplars.
pub open spec fn summs_kv(ps: Seq<SummaryDataPoint>) -> (nat, nat)
    decreases ps.len(),
{
    if ps.len() == 0 {
        (0, 0)
    } else {
        let rest = summs_kv(ps.skip(1));
        (ps[0].attributes@.len() + rest.0, 0 + rest.1)
    }
}

/// The attributes of a metric's points, and those of their exemplars.
pub open spec fn data_kv(data: Option<MetricData>) -> (nat, nat) {
    match data {
        None => (0, 0),
        Some(MetricData::Gauge(g)) => numbers_kv(g.data_points@),
        Some(MetricData::Sum(s)) => numbers_kv(s.data_points@),
        Some(MetricData::Histogram(h)) => hists_kv(h.data_points@),
        Some(MetricData::ExponentialHistogram(h)) => exps_kv(h.data_points@),
        Some(MetricData::Summary(s)) => summs_kv(s.data_points@),
    }
}

/// What a request would add, at most: resources, scopes, metrics, and the
/// attributes of each, of the points and of the exemplars.
pub struct Demand {
    pub resources: nat,
    pub scopes: nat,
    pub names: nat,
    pub res_kv: nat,
    pub scope_kv: nat,
    pub meta_kv: nat,
    pub dp_kv: nat,
    pub ex_kv: nat,
}

impl Demand {
    pub open spec fn none() -> Demand {
        Demand {
            resources: 0,
            scopes: 0,
            names: 0,
            res_kv: 0,
            scope_kv: 0,
            meta_kv: 0,
            dp_kv: 0,
            ex_kv: 0,
        }
    }

    /// Two demands together.
    pub open spec fn and(self, other: Demand) -> Demand {
        Demand {
            resources: self.resources + other.resources,
            scopes: self.scopes + other.scopes,
            names: self.names + other.names,
            res_kv: self.res_kv + other.res_kv,
            scope_kv: self.scope_kv + other.scope_kv,
            meta_kv: self.meta_kv + other.meta_kv,
            dp_kv: self.dp_kv + other.dp_kv,
            ex_kv: self.ex_kv + other.ex_kv,
        }
    }
}

/// What one metric would add, at most.
pub open spec fn metric_demand(m: Metric) -> Demand {
    Demand {
        names: 1,
        meta_kv: m.metadata@.len(),
        dp_kv: data_kv(m.data).0,
        ex_kv: data_kv(m.data).1,
        ..Demand::none()
    }
}

/// What several metrics would add, at most.
pub open spec fn metrics_demand(ms: Seq<Metric>) -> Demand
    decreases ms.len(),
{
    if ms.len() == 0 {
        Demand::none()
    } else {
        metric_demand(ms[0]).and(metrics_demand(ms.skip(1)))
    }
}

/// What several scopes would add, at most.
pub open spec fn scopes_demand(sms: Seq<ScopeMetrics>) -> Demand
    decreases sms.len(),
{
    if sms.len() == 0 {
        Demand::none()
    } else {
        let own = Demand { scopes: 1, scope_kv: scope_demand(sms[0].scope), ..Demand::none() };
        own.and(metrics_demand(sms[0].metrics@)).and(scopes_demand(sms.skip(1)))
    }
}

/// What several resources would add, at most.
pub open spec fn request_demand(rms: Seq<ResourceMetrics>) -> Demand
    decreases rms.len(),
{
    if rms.len() == 0 {
        Demand::none()
    } else {
        let own = Demand {
            resources: 1,
            res_kv: resource_demand(rms[0].resource),
            ..Demand::none()
        };
        own.and(scopes_demand(rms[0].scope_metrics@)).and(request_demand(rms.skip(1)))
    }
}

/// Whether what a builder holds leaves room for a demand.
pub open spec fn leaves_room(st: MetricsState, d: Demand) -> bool {
    &&& st.rs.resources.len() + d.resources <= DICT_CAP
    &&& st.rs.scopes.len() + d.scopes <= DICT_CAP
    &&& firsts(keys_in(st.rs.resource_attrs)).len() + d.res_kv <= DICT_CAP
    &&& firsts(keys_in(st.rs.scope_attrs)).len() + d.scope_kv <= DICT_CAP
    &&& firsts(keys_in(st.metric_attrs)).len() + d.meta_kv <= DICT_CAP
    &&& firsts(keys_in(st.dp_attrs)).len() + d.dp_kv <= DICT_CAP
    &&& firsts(keys_in(st.exemplar_attrs)).len() + d.ex_kv <= DICT_CAP
    &&& firsts(st.names).len() + d.names <= DICT_CAP
    &&& firsts(st.units).len() + d.names <= DICT_CAP
}

/// Running totals of a demand.
pub struct Totals {
    pub resources: usize,
    pub scopes: usize,
    pub names: usize,
    pub res_kv: usize,
    pub scope_kv: usize,
    pub meta_kv: usize,
    pub dp_kv: usize,
    pub ex_kv: usize,
}

impl Totals {
    /// The totals are those of a demand, each held at the end of its range.
    pub open spec fn are(&self, d: Demand) -> bool {
        &&& self.resources == held(d.resources)
        &&& self.scopes == held(d.scopes)
        &&& self.names == held(d.names)
        &&& self.res_kv == held(d.res_kv)
        &&& self.scope_kv == held(d.scope_kv)
        &&& self.meta_kv == held(d.meta_kv)
        &&& self.dp_kv == held(d.dp_kv)
        &&& self.ex_kv == held(d.ex_kv)
    }

    fn none() -> (t: Totals)
        ensures
            t.are(Demand::none()),
    {
        Totals {
            resources: 0,
            scopes: 0,
            names: 0,
            res_kv: 0,
            scope_kv: 0,
            meta_kv: 0,
            dp_kv: 0,
            ex_kv: 0,
        }
    }

    fn and(self, other: Totals, Ghost(a): Ghost<Demand>, Ghost(b): Ghost<Demand>) -> (t: Totals)
        requires
            self.are(a),
            other.are(b),
        ensures
            t.are(a.and(b)),
    {
        Totals {
            resources: self.resources.saturating_add(other.resources),
            scopes: self.scopes.saturating_add(other.scopes),
            names: self.names.saturating_add(other.names),
            res_kv: self.res_kv.saturating_add(other.res_kv),
            scope_kv: self.scope_kv.saturating_add(other.scope_kv),
            meta_kv: self.meta_kv.saturating_add(other.meta_kv),
            dp_kv: self.dp_kv.saturating_add(other.dp_kv),
            ex_kv: self.ex_kv.saturating_add(other.ex_kv),
        }
    }
}

fn count_exemplars(es: &Vec<Exemplar>) -> (n: usize)
    ensures
        n == held(exemplar_kv(es@)),
{
    let ghost all = es@;
    let mut i: usize = es.len();
    let mut n: usize = 0;
    assert(all.skip(all.len() as int) =~= Seq::<Exemplar>::empty());
    while i > 0
        invariant
            i <= es@.len(),
            all == es@,
            n == held(exemplar_kv(all.skip(i as int))),
        decreases i,
    {
        i = i - 1;
        assert(all.skip(i as int)[0] == all[i as int]);
        assert(all.skip(i as int).skip(1) =~= all.skip(i + 1));
        n = n.saturating_add(es[i].filtered_attributes.len());
    }
    assert(all.skip(0) =~= all);
    n
}

fn count_numbers(ps: &Vec<NumberDataPoint>) -> (r: (usize, usize))
    ensures
        r.0 == held(numbers_kv(ps@).0),
        r.1 == held(numbers_kv(ps@).1),
{
    let ghost all = ps@;
    let mut i: usize = ps.len();
    let mut a: usize = 0;
    let mut e: usize = 0;
    assert(all.skip(all.len() as int) =~= Seq::<NumberDataPoint>::empty());
    while i > 0
        invariant
            i <= ps@.len(),
            all == ps@,
            a == held(numbers_kv(all.skip(i as int)).0),
            e == held(numbers_kv(all.skip(i as int)).1),
        decreases i,
    {
        i = i - 1;
        assert(all.skip(i as int)[0] == all[i as int]);
        assert(all.skip(i as int).skip(1) =~= all.skip(i + 1));
        a = a.saturating_add(ps[i].attributes.len());
        e = e.saturating_add(count_exemplars(&ps[i].exemplars));
    }
    assert(all.skip(0) =~= all);
    (a, e)
}

fn count_hists(ps: &Vec<HistogramDataPoint>) -> (r: (usize, usize))
    ensures
        r.0 == held(hists_kv(ps@).0),
        r.1 == held(hists_kv(ps@).1),
{
    let ghost all = ps@;
    let mut i: usize = ps.len();
    let mut a: usize = 0;
    let mut e: usize = 0;
    assert(all.skip(all.len() as int) =~= Seq::<HistogramDataPoint>::empty());
    while i > 0
        invariant
            i <= ps@.len(),
            all == ps@,
            a == held(hists_kv(all.skip(i as int)).0),
            e == held(hists_kv(all.skip(i as int)).1),
        decreases i,
    {
        i = i - 1;
        assert(all.skip(i as int)[0] == all[i as int]);
        assert(all.skip(i as int).skip(1) =~= all.skip(i + 1));
        a = a.saturating_add(ps[i].attributes.len());
        e = e.saturating_add(count_exemplars(&ps[i].exemplars));
    }
    assert(all.skip(0) =~= all);
    (a, e)
}

fn count_exps(ps: &Vec<ExponentialHistogramDataPoint>) -> (r: (usize, usize))
    ensures
        r.0 == held(exps_kv(ps@).0),
        r.1 == held(exps_kv(ps@).1),
{
    let ghost all = ps@;
    let mut i: usize = ps.len();
    let mut a: usize = 0;
    let mut e: usize = 0;
    assert(all.skip(all.len() as int) =~= Seq::<ExponentialHistogramDataPoint>::empty());
    while i > 0
        invariant
            i <= ps@.len(),
            all == ps@,
            a == held(exps_kv(all.skip(i as int)).0),
            e == held(exps_kv(all.skip(i as int)).1),
        decreases i,
    {
        i = i - 1;
        assert(all.skip(i as int)[0] == all[i as int]);
        assert(all.skip(i as int).skip(1) =~= all.skip(i + 1));
        a = a.saturating_add(ps[i].attributes.len());
        e = e.saturating_add(count_exemplars(&ps[i].exemplars));
    }
    assert(all.skip(0) =~= all);
    (a, e)
}

fn count_summs(ps: &Vec<SummaryDataPoint>) -> (r: (usize, usize))
    ensures
        r.0 == held(summs_kv(ps@).0),
        r.1 == held(summs_kv(ps@).1),
{
    let ghost all = ps@;
    let mut i: usize = ps.len();
    let mut a: usize = 0;
    let e: usize = 0;
    assert(all.skip(all.len() as int) =~= Seq::<SummaryDataPoint>::empty());
    while i > 0
        invariant
            i <= ps@.len(),
            all == ps@,
            a == held(summs_kv(all.skip(i as int)).0),
            e == held(summs_kv(all.skip(i as int)).1),
        decreases i,
    {
        i = i - 1;
        assert(all.skip(i as int)[0] == all[i as int]);
        assert(all.skip(i as int).skip(1) =~= all.skip(i + 1));
        a = a.saturating_add(ps[i].attributes.len());
    }
    assert(all.skip(0) =~= all);
    (a, e)
}

/// The attributes of a metric's points and those of their exemplars, whichever
/// of the five shapes it has.
pub fn for_each_point(m: &Metric) -> (r: (usize, usize))
    ensures
        r.0 == held(data_kv(m.data).0),
        r.1 == held(data_kv(m.data).1),
{
    match &m.data {
        None => (0, 0),
        Some(MetricData::Gauge(g)) => count_numbers(&g.data_points),
        Some(MetricData::Sum(s)) => count_numbers(&s.data_points),
        Some(MetricData::Histogram(h)) => count_hists(&h.data_points),
        Some(MetricData::ExponentialHistogram(h)) => count_exps(&h.data_points),
        Some(MetricData::Summary(s)) => count_summs(&s.data_points),
    }
}

fn count_metrics(ms: &Vec<Metric>) -> (t: Totals)
    ensures
        t.are(metrics_demand(ms@)),
{
    let ghost all = ms@;
    let mut i: usize = ms.len();
    let mut t = Totals::none();
    assert(all.skip(all.len() as int) =~= Seq::<Metric>::empty());
    while i > 0
        invariant
            i <= ms@.len(),
            all == ms@,
            t.are(metrics_demand(all.skip(i as int))),
        decreases i,
    {
        i = i - 1;
        assert(all.skip(i as int)[0] == all[i as int]);
        assert(all.skip(i as int).skip(1) =~= all.skip(i + 1));
        let (a, e) = for_each_point(&ms[i]);
        let own = Totals {
            names: 1,
            meta_kv: ms[i].metadata.len(),
            dp_kv: a,
            ex_kv: e,
            ..Totals::none()
        };
        let ghost d = metric_demand(all[i as int]);
        let ghost rest = metrics_demand(all.skip(i + 1));
        t = own.and(t, Ghost(d), Ghost(rest));
    }
    assert(all.skip(0) =~= all);
    t
}

fn count_scopes(sms: &Vec<ScopeMetrics>) -> (t: Totals)
    ensures
        t.are(scopes_demand(sms@)),
{
    let ghost all = sms@;
    let mut i: usize = sms.len();
    let mut t = Totals::none();
    assert(all.skip(all.len() as int) =~= Seq::<ScopeMetrics>::empty());
    while i > 0
        invariant
            i <= sms@.len(),
            all == sms@,
            t.are(scopes_demand(all.skip(i as int))),
        decreases i,
    {
        i = i - 1;
        assert(all.skip(i as int)[0] == all[i as int]);
        assert(all.skip(i as int).skip(1) =~= all.skip(i + 1));
        let sm = &sms[i];
        let kv: usize = match &sm.scope {
            Some(s) => s.attributes.len().saturating_add(2),
            None => 2,
        };
        let own = Totals { scopes: 1, scope_kv: kv, ..Totals::none() };
        let ghost d = Demand { scopes: 1, scope_kv: scope_demand(sm.scope), ..Demand::none() };
        let ghost inner = metrics_demand(sm.metrics@);
        let ghost rest = scopes_demand(all.skip(i + 1));
        let m = count_metrics(&sm.metrics);
        t = own.and(m, Ghost(d), Ghost(inner)).and(t, Ghost(d.and(inner)), Ghost(rest));
    }
    assert(all.skip(0) =~= all);
    t
}

fn count_request(rms: &Vec<ResourceMetrics>) -> (t: Totals)
    ensures
        t.are(request_demand(rms@)),
{
    let ghost all = rms@;
    let mut i: usize = rms.len();
    let mut t = Totals::none();
    assert(all.skip(all.len() as int) =~= Seq::<ResourceMetrics>::empty());
    while i > 0
        invariant
            i <= rms@.len(),
            all == rms@,
            t.are(request_demand(all.skip(i as int))),
        decreases i,
    {
        i = i - 1;
        assert(all.skip(i as int)[0] == all[i as int]);
        assert(all.skip(i as int).skip(1) =~= all.skip(i + 1));
        let rm = &rms[i];
        let kv: usize = match &rm.resource {
            Some(r) => r.attributes.len(),
            None => 0,
        };
        let own = Totals { resources: 1, res_kv: kv, ..Totals::none() };
        let ghost d = Demand {
            resources: 1,
            res_kv: resource_demand(rm.resource),
            ..Demand::none()
        };
        let ghost inner = scopes_demand(rm.scope_metrics@);
        let ghost rest = request_demand(all.skip(i + 1));
        let m = count_scopes(&rm.scope_metrics);
        t = own.and(m, Ghost(d), Ghost(inner)).and(t, Ghost(d.and(inner)), Ghost(rest));
    }
    assert(all.skip(0) =~= all);
    t
}

impl MetricsBuilder {
    /// Whether `req` is guaranteed to fit without overflowing a dictionary or
    /// an id space. Name and unit both draw from the count of metrics, because
    /// a metric contributes at most one new entry to each.
    pub fn has_headroom_for(&self, req: &ExportMetricsServiceRequest) -> (r: bool)
        requires
            self.wf(),
        ensures
            r == leaves_room(self@, request_demand(req.resource_metrics@)),
    {
        let t = count_request(&req.resource_metrics);
        self.rs.has_headroom(t.resources, t.scopes, t.res_kv, t.scope_kv)
            && self.metric_attrs.has_headroom(t.meta_kv) && self.dp_attrs.has_headroom(t.dp_kv)
            && self.exemplar_attrs.has_headroom(t.ex_kv) && self.m_name.has_headroom(t.names)
            && self.m_unit.has_headroom(t.names)
    }

    /// Rough resident cost of what has been accumulated, by which a block is
    /// sealed. The count wraps at the width of a word.
    pub fn approx_bytes(&self) -> (n: usize)
        requires
            self.wf(),
        ensures
            n == wrapped_count(cost_of(self@)),
    {
        let ghost st = self@;
        let points: usize = self.next_dp_id as usize;
        let metrics: usize = self.next_metric_id as usize;
        let exemplars: usize = self.next_exemplar_id as usize;
        let a: usize = self.dp_attrs.len();
        let b: usize = self.metric_attrs.len();
        let c: usize = self.exemplar_attrs.len();
        let d: usize = self.rs.len();
        proof {
            lemma_small_count(points);
            lemma_small_count(metrics);
            lemma_small_count(exemplars);
            lemma_small_count(a);
            lemma_small_count(b);
            lemma_small_count(c);
        }
        let ghost p = st.points * 48;
        let ghost m = st.metrics.len() * 32;
        let ghost e = st.exemplars.len() * 56;
        let ghost l = st.list_values * 8;
        let ghost shared = st.rs.resource_attrs.len() + st.rs.scope_attrs.len();
        let ghost attrs = st.dp_attrs.len() + st.metric_attrs.len() + st.exemplar_attrs.len()
            + shared;
        let x: usize = mul_count(points, 48, Ghost(st.points));
        let y: usize = mul_count(metrics, 32, Ghost(st.metrics.len()));
        let x: usize = add_counts(x, y, Ghost(p), Ghost(m));
        let y: usize = mul_count(exemplars, 56, Ghost(st.exemplars.len()));
        let x: usize = add_counts(x, y, Ghost(p + m), Ghost(e));
        let y: usize = mul_count(self.list_values, 8, Ghost(st.list_values));
        let x: usize = add_counts(x, y, Ghost(p + m + e), Ghost(l));
        let y: usize = add_counts(a, b, Ghost(a as nat), Ghost(b as nat));
        let y: usize = add_counts(y, c, Ghost((a + b) as nat), Ghost(c as nat));
        let y: usize = add_counts(y, d, Ghost((a + b + c) as nat), Ghost(shared));
        let y: usize = mul_count(y, 48, Ghost(attrs));
        let ghost sum = p + m + e + l;
        let x: usize = add_counts(x, y, Ghost(sum), Ghost(attrs * 48));
        let ghost sum = sum + attrs * 48;
        let ghost text = slot_text_bytes(st.metrics.map_values(|r: MetricRow| r.description));
        let x: usize = add_counts(x, self.descriptors.heap(), Ghost(sum), Ghost(text));
        let ghost sum = sum + text;
        let x: usize = add_counts(
            x,
            self.dp_attrs.heap_bytes(),
            Ghost(sum),
            Ghost(heap_of(st.dp_attrs)),
        );
        let ghost sum = sum + heap_of(st.dp_attrs);
        let x: usize = add_counts(
            x,
            self.metric_attrs.heap_bytes(),
            Ghost(sum),
            Ghost(heap_of(st.metric_attrs)),
        );
        let ghost sum = sum + heap_of(st.metric_attrs);
        let x: usize = add_counts(
            x,
            self.exemplar_attrs.heap_bytes(),
            Ghost(sum),
            Ghost(heap_of(st.exemplar_attrs)),
        );
        let ghost sum = sum + heap_of(st.exemplar_attrs);
        let ghost last = heap_of(st.rs.resource_attrs) + heap_of(st.rs.scope_attrs);
        add_counts(x, self.rs.heap_bytes(), Ghost(sum), Ghost(last))
    }
}

/// What the accumulated rows cost: fixed-width columns by the row, list
/// elements by the piece, and the bytes of the variable-width heaps.
pub open spec fn cost_of(st: MetricsState) -> nat {
    let shared = st.rs.resource_attrs.len() + st.rs.scope_attrs.len();
    let attrs = st.dp_attrs.len() + st.metric_attrs.len() + st.exemplar_attrs.len() + shared;
    let fixed = st.points * 48 + st.metrics.len() * 32 + st.exemplars.len() * 56 + st.list_values
        * 8;
    let text = slot_text_bytes(st.metrics.map_values(|r: MetricRow| r.description));
    let heaps = heap_of(st.dp_attrs) + heap_of(st.metric_attrs) + heap_of(st.exemplar_attrs);
    fixed + attrs * 48 + text + heaps + (heap_of(st.rs.resource_attrs) + heap_of(
        st.rs.scope_attrs,
    ))
}

// ---------------------------------------------------------------------------
// Sealing.

/// The tables a metrics block is made of, in publish order.
pub open spec fn metrics_tables() -> Seq<Seq<char>> {
    seq![
        "metrics"@,
        "metric_attrs"@,
        "number_dp"@,
        "hist_dp"@,
        "hist_bounds"@,
        "exp_hist_dp"@,
        "summary_dp"@,
        "dp_attrs"@,
        "exemplars"@,
        "exemplar_attrs"@,
        "resources"@,
        "resource_attrs"@,
        "scope_attrs"@,
    ]
}

/// Whether the columns of the descriptor table are of one length. They are not
/// after the second dictionary column refused what the first had taken.
pub open spec fn is_even(st: MetricsState) -> bool {
    st.names.len() == st.metrics.len() && st.units.len() == st.metrics.len()
}

/// The block that what has been accumulated is sealed into.
pub open spec fn metrics_sealed_of(b: Sealed, st: MetricsState) -> bool {
    let t = b.tables@;
    &&& b.num_rows == st.points
    &&& t.len() == 13
    &&& t.map_values(|n: Named| n.name@) == metrics_tables()
    &&& metrics_table_of(t[0].table, st.metrics, st.names, st.units)
    &&& attrs_table_of(t[1].table, st.metric_attrs)
    &&& number_table_of(t[2].table, st.numbers)
    &&& hist_table_of(t[3].table, st.hists)
    &&& bounds_table_of(t[4].table, st.bounds)
    &&& exp_table_of(t[5].table, st.exps)
    &&& summary_table_of(t[6].table, st.summs)
    &&& attrs_table_of(t[7].table, st.dp_attrs)
    &&& exemplar_table_of(t[8].table, st.exemplars)
    &&& attrs_table_of(t[9].table, st.exemplar_attrs)
    &&& interned_tables(t.subrange(10, 13), st.rs)
    &&& b.min_ts == since_epoch(st.min_ts)
    &&& b.max_ts == since_epoch(st.max_ts)
    &&& b.sidecars@.len() == 0
}

/// What sealing gives: the block, or the refusal of columns of unequal length.
pub open spec fn seals_as(r: Result<Sealed, Error>, st: MetricsState) -> bool {
    if is_even(st) {
        r matches Ok(b) && metrics_sealed_of(b, st)
    } else {
        r matches Err(Error::Arrow(e)) && e@ == uneven_columns()
    }
}

fn named(name: &str, table: Table) -> (n: Named)
    ensures
        n.name@ == name@,
        n.table == table,
{
    Named { name: name.to_owned(), table }
}

impl MetricsBuilder {
    fn seal(&self) -> (r: Result<Sealed, Error>)
        requires
            self.wf(),
        ensures
            seals_as(r, self@),
    {
        let n: usize = self.next_metric_id as usize;
        if self.m_name.len() != n || self.m_unit.len() != n {
            return Err(
                Error::Arrow(
                    "Invalid argument error: all columns in a record batch must have the same length".to_owned(),
                ),
            );
        }
        let metric_attrs = match self.metric_attrs.finish() {
            Ok(t) => t,
            Err(e) => {
                return Err(e);
            },
        };
        let dp_attrs = match self.dp_attrs.finish() {
            Ok(t) => t,
            Err(e) => {
                return Err(e);
            },
        };
        let exemplar_attrs = match self.exemplar_attrs.finish() {
            Ok(t) => t,
            Err(e) => {
                return Err(e);
            },
        };
        let mut shared = match self.rs.finish() {
            Ok(v) => v,
            Err(e) => {
                return Err(e);
            },
        };
        let ghost three = shared@;
        let mut tables: Vec<Named> = Vec::new();
        tables.push(named("metrics", self.descriptors.finish_with(&self.m_name, &self.m_unit)));
        tables.push(named("metric_attrs", metric_attrs));
        tables.push(named("number_dp", self.num.finish()));
        tables.push(named("hist_dp", self.hist.finish()));
        tables.push(named("hist_bounds", self.bounds.finish()));
        tables.push(named("exp_hist_dp", self.exp.finish()));
        tables.push(named("summary_dp", self.summ.finish()));
        tables.push(named("dp_attrs", dp_attrs));
        tables.push(named("exemplars", self.ex.finish()));
        tables.push(named("exemplar_attrs", exemplar_attrs));
        let ghost ten = tables@;
        tables.append(&mut shared);
        proof {
            assert(tables@ =~= ten + three);
            assert(tables@.subrange(10, 13) =~= three);
            assert(tables@.map_values(|n: Named| n.name@) =~= metrics_tables());
        }
        Ok(Sealed::with(self.next_dp_id as usize, tables, self.min_ts, self.max_ts))
    }

    /// Seal the accumulated points into a block and start over, on failure
    /// too.
    pub fn finish(&mut self) -> (r: Result<Sealed, Error>)
        requires
            old(self).wf(),
        ensures
            seals_as(r, old(self)@),
            final(self).wf(),
            final(self)@ == MetricsState::none(),
    {
        let out = self.seal();
        *self = MetricsBuilder::new();
        out
    }

    /// What has been accumulated, as a block that can be read while the builder
    /// goes on accumulating.
    pub fn snapshot(&self) -> (r: Result<Sealed, Error>)
        requires
            self.wf(),
        ensures
            seals_as(r, self@),
    {
        self.seal()
    }
}

} // verus!
