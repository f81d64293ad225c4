//! What a metrics block holds of a request: each point in the table of its
//! shape, under its own number and its metric's, with its own values, attributes
//! and exemplars; and each metric with what describes it.

use crate::attrs::appended;
use crate::cells::{
    bool_at, bounds_names, descriptor_names, double_at, doubles_at, entry_at, exemplar_names,
    exp_names, hist_names, i32_at, lemma_bounds_names, lemma_columns, lemma_descriptor_names,
    lemma_exemplar_names, lemma_exp_names, lemma_hist_names, lemma_metric_table_names,
    lemma_number_names, lemma_summary_names, lemma_tables, maybe_double_at, maybe_fixed_at,
    maybe_int_at, maybe_numbers_at, maybe_text_at, maybe_time_at, maybe_u32_at, metric_table_names,
    number_names, numbers_at, summary_names, time_at, u16_at, u32_at, u64_at, u8_at,
};
use crate::interning::{with_resource, with_scope, Outcome};
use crate::internlaws::{
    all_stand, begins, has_attrs, is_faithful, is_number_of, is_scope_number_of, lemma_appended,
    lemma_begins, lemma_has_attrs, lemma_number_on, lemma_rs_later, lemma_scope_number_on,
    lemma_stand_on, lemma_told, lemma_with_resource, lemma_with_scope, rs_later, tells_resource,
    tells_scope,
};
use crate::metrics::{
    counts_len, counts_of, double_of, exemplar_row, int_of, metric_row, metrics_sealed_of,
    offset_of, with_data, with_exemplars, with_exp, with_exps, with_hist, with_hists, with_metric,
    with_metrics, with_number, with_numbers, with_point, with_resource_metrics, with_scope_metrics,
    with_summ, with_summs, with_tail, MetricsState,
};
use crate::otlp::{
    pairs, Buckets, Exemplar, ExponentialHistogramDataPoint, HistogramDataPoint,
    InstrumentationScope, KeyValue, Metric, MetricData, NumberDataPoint, NumberValue, Resource,
    ResourceMetrics, ScopeMetrics, SummaryDataPoint, ValueAtQuantile,
};
use crate::points::{
    bounds_number, bounds_table_of, exemplar_table_of, exp_table_of, head_of, hist_table_of,
    metrics_table_of, number_table_of, summary_table_of, with_bounds, ExemplarRow, ExpRow, HeadRow,
    HistRow, MetricRow, NumberRow, StatsRow, SummRow,
};
use crate::scan::{table_named, Named};
use crate::signal::Sealed;
use crate::table::{Field, Table};
use vstd::prelude::*;

verus! {

// ---------------------------------------------------------------------------
// What a request holds.

/// One point, in one of four shapes.
pub enum Point {
    Number(NumberDataPoint),
    Hist(HistogramDataPoint),
    Exp(ExponentialHistogramDataPoint),
    Summ(SummaryDataPoint),
}

/// The points of a metric, in order.
pub open spec fn points_of(m: Metric) -> Seq<Point> {
    match m.data {
        None => Seq::empty(),
        Some(MetricData::Gauge(g)) => g.data_points@.map_values(
            |p: NumberDataPoint| Point::Number(p),
        ),
        Some(MetricData::Sum(s)) => s.data_points@.map_values(|p: NumberDataPoint| Point::Number(p)),
        Some(MetricData::Histogram(h)) => h.data_points@.map_values(
            |p: HistogramDataPoint| Point::Hist(p),
        ),
        Some(MetricData::ExponentialHistogram(h)) => h.data_points@.map_values(
            |p: ExponentialHistogramDataPoint| Point::Exp(p),
        ),
        Some(MetricData::Summary(s)) => s.data_points@.map_values(
            |p: SummaryDataPoint| Point::Summ(p),
        ),
    }
}

/// A metric, and the resource and the scope it came under.
pub struct Item {
    pub metric: Metric,
    pub resource: Option<Resource>,
    pub scope: Option<InstrumentationScope>,
}

/// The metrics of one scope, each with where it came from.
pub open spec fn items_of_scope(
    ms: Seq<Metric>,
    resource: Option<Resource>,
    scope: Option<InstrumentationScope>,
) -> Seq<Item> {
    ms.map_values(|m: Metric| Item { metric: m, resource, scope })
}

/// The metrics of several scopes of one resource, in their order.
pub open spec fn items_of_scopes(sms: Seq<ScopeMetrics>, resource: Option<Resource>) -> Seq<Item>
    decreases sms.len(),
{
    if sms.len() == 0 {
        Seq::empty()
    } else {
        items_of_scope(sms[0].metrics@, resource, sms[0].scope) + items_of_scopes(
            sms.skip(1),
            resource,
        )
    }
}

/// The metrics of a request, in order.
pub open spec fn items_of(rms: Seq<ResourceMetrics>) -> Seq<Item>
    decreases rms.len(),
{
    if rms.len() == 0 {
        Seq::empty()
    } else {
        items_of_scopes(rms[0].scope_metrics@, rms[0].resource) + items_of(rms.skip(1))
    }
}

/// How many points the first `k` metrics have.
pub open spec fn points_before(items: Seq<Item>, k: nat) -> nat
    decreases k,
{
    if k == 0 {
        0
    } else {
        points_before(items, (k - 1) as nat) + points_of(items[k - 1].metric).len()
    }
}

// ---------------------------------------------------------------------------
// What is accumulated of it.

/// A wire time as it is stored: what is beyond a signed one is unset.
pub open spec fn stored_time(t: u64) -> int {
    if t < 0x8000_0000_0000_0000 {
        t as int
    } else {
        0
    }
}

/// A time that is absent where it is unset.
pub open spec fn set_time(t: u64) -> Option<i64> {
    if stored_time(t) == 0 {
        None
    } else {
        Some(t as i64)
    }
}

/// The value of a point or an exemplar as an integer, where it is one.
pub open spec fn whole(v: Option<NumberValue>) -> Option<i64> {
    match v {
        Some(NumberValue::AsInt(i)) => Some(i),
        Some(NumberValue::AsDouble(_)) => None,
        None => None,
    }
}

/// The value of a point or an exemplar as a double, where it is one.
pub open spec fn fraction(v: Option<NumberValue>) -> Option<u64> {
    match v {
        Some(NumberValue::AsDouble(d)) => Some(d),
        Some(NumberValue::AsInt(_)) => None,
        None => None,
    }
}

/// An id that is absent where it has not this many bytes.
pub open spec fn id_of(v: Seq<u8>, width: nat) -> Option<Seq<u8>> {
    if v.len() == width {
        Some(v)
    } else {
        None
    }
}

/// A text that is absent where it is empty.
pub open spec fn said(s: Seq<char>) -> Option<Seq<char>> {
    if s.len() > 0 {
        Some(s)
    } else {
        None
    }
}

/// The counts of one side of an exponential histogram, where it was recorded.
pub open spec fn side_counts(b: Option<Buckets>) -> Option<Seq<u64>> {
    match b {
        Some(b) => Some(b.bucket_counts@),
        None => None,
    }
}

/// The offset of one side of an exponential histogram, or zero.
pub open spec fn side_offset(b: Option<Buckets>) -> i32 {
    match b {
        Some(b) => b.offset,
        None => 0,
    }
}

/// The quantiles of a summary.
pub open spec fn quantiles(v: Seq<ValueAtQuantile>) -> Seq<u64> {
    Seq::new(v.len(), |i: int| v[i].quantile)
}

/// The values at the quantiles of a summary.
pub open spec fn quantile_values(v: Seq<ValueAtQuantile>) -> Seq<u64> {
    Seq::new(v.len(), |i: int| v[i].value)
}

spec fn head_is(h: HeadRow, id: int, mid: int, start: u64, time: u64, flags: u32) -> bool {
    &&& h.id == id
    &&& h.metric_id == mid
    &&& h.start == set_time(start)
    &&& h.time == stored_time(time)
    &&& h.flags == flags
}

spec fn row_is(s: MetricsState, id: int, mid: int, p: Point, i: int) -> bool {
    match p {
        Point::Number(p) => {
            &&& 0 <= i < s.numbers.len()
            &&& head_is(
                s.numbers[i].head,
                id,
                mid,
                p.start_time_unix_nano,
                p.time_unix_nano,
                p.flags,
            )
            &&& s.numbers[i].int == whole(p.value)
            &&& s.numbers[i].double == fraction(p.value)
        },
        Point::Hist(p) => {
            &&& 0 <= i < s.hists.len()
            &&& head_is(
                s.hists[i].head,
                id,
                mid,
                p.start_time_unix_nano,
                p.time_unix_nano,
                p.flags,
            )
            &&& s.hists[i].stats.count == p.count
            &&& s.hists[i].stats.sum == p.sum
            &&& s.hists[i].stats.min == p.min
            &&& s.hists[i].stats.max == p.max
            &&& s.hists[i].counts == p.bucket_counts@
            &&& match s.hists[i].bounds {
                None => p.explicit_bounds@.len() == 0,
                Some(n) => p.explicit_bounds@.len() > 0 && n < s.bounds.len() && s.bounds[n as int]
                    == p.explicit_bounds@,
            }
        },
        Point::Exp(p) => {
            &&& 0 <= i < s.exps.len()
            &&& head_is(
                s.exps[i].head,
                id,
                mid,
                p.start_time_unix_nano,
                p.time_unix_nano,
                p.flags,
            )
            &&& s.exps[i].stats.count == p.count
            &&& s.exps[i].stats.sum == p.sum
            &&& s.exps[i].stats.min == p.min
            &&& s.exps[i].stats.max == p.max
            &&& s.exps[i].scale == p.scale
            &&& s.exps[i].zero_count == p.zero_count
            &&& s.exps[i].zero_threshold == p.zero_threshold
            &&& s.exps[i].pos_offset == side_offset(p.positive)
            &&& s.exps[i].pos == side_counts(p.positive)
            &&& s.exps[i].neg_offset == side_offset(p.negative)
            &&& s.exps[i].neg == side_counts(p.negative)
        },
        Point::Summ(p) => {
            &&& 0 <= i < s.summs.len()
            &&& head_is(
                s.summs[i].head,
                id,
                mid,
                p.start_time_unix_nano,
                p.time_unix_nano,
                p.flags,
            )
            &&& s.summs[i].count == p.count
            &&& s.summs[i].sum == p.sum
            &&& s.summs[i].quantile == quantiles(p.quantile_values@)
            &&& s.summs[i].value == quantile_values(p.quantile_values@)
        },
    }
}

/// The attributes of a point.
pub open spec fn attributes_of(p: Point) -> Seq<KeyValue> {
    match p {
        Point::Number(p) => p.attributes@,
        Point::Hist(p) => p.attributes@,
        Point::Exp(p) => p.attributes@,
        Point::Summ(p) => p.attributes@,
    }
}

/// The exemplars of a point. A summary has none.
pub open spec fn exemplars_of(p: Point) -> Seq<Exemplar> {
    match p {
        Point::Number(p) => p.exemplars@,
        Point::Hist(p) => p.exemplars@,
        Point::Exp(p) => p.exemplars@,
        Point::Summ(p) => Seq::empty(),
    }
}

spec fn exemplar_is(s: MetricsState, parent: int, e: Exemplar, x: int) -> bool {
    &&& 0 <= x < s.exemplars.len()
    &&& s.exemplars[x].parent == parent
    &&& s.exemplars[x].time == stored_time(e.time_unix_nano)
    &&& s.exemplars[x].int == whole(e.value)
    &&& s.exemplars[x].double == fraction(e.value)
    &&& s.exemplars[x].trace == id_of(e.trace_id@, 16)
    &&& s.exemplars[x].span == id_of(e.span_id@, 8)
    &&& all_stand(s.exemplar_attrs, x, pairs(e.filtered_attributes@))
}

spec fn has_exemplar(s: MetricsState, parent: int, e: Exemplar) -> bool {
    exists|x: int| #[trigger] exemplar_is(s, parent, e, x)
}

spec fn have_exemplars(s: MetricsState, parent: int, es: Seq<Exemplar>) -> bool {
    forall|q: int| 0 <= q < es.len() ==> has_exemplar(s, parent, #[trigger] es[q])
}

spec fn is_kept(s: MetricsState, id: int, mid: int, p: Point) -> bool {
    &&& exists|i: int| #[trigger] row_is(s, id, mid, p, i)
    &&& all_stand(s.dp_attrs, id, pairs(attributes_of(p)))
    &&& have_exemplars(s, id, exemplars_of(p))
}

/// The number a kind of metric is stored as.
pub open spec fn kind_number(m: Metric) -> int {
    match m.data {
        None => 0,
        Some(MetricData::Gauge(_)) => 1,
        Some(MetricData::Sum(_)) => 2,
        Some(MetricData::Histogram(_)) => 3,
        Some(MetricData::ExponentialHistogram(_)) => 4,
        Some(MetricData::Summary(_)) => 5,
    }
}

/// The temporality of a metric as it was sent, or zero where its kind has none.
pub open spec fn sent_temporality(m: Metric) -> i32 {
    match m.data {
        Some(MetricData::Sum(s)) => s.aggregation_temporality,
        Some(MetricData::Histogram(h)) => h.aggregation_temporality,
        Some(MetricData::ExponentialHistogram(h)) => h.aggregation_temporality,
        _ => 0,
    }
}

/// The temporality a metric is stored with: one that is defined stays, and what
/// does not fit a byte is unspecified.
pub open spec fn temporality_number(m: Metric) -> int {
    let v = sent_temporality(m);
    if 0 <= v <= 2 {
        v as int
    } else if 2 < v <= 255 {
        2
    } else {
        0
    }
}

/// Whether a metric only ever grows: only a sum can say so.
pub open spec fn only_grows(m: Metric) -> bool {
    m.data matches Some(MetricData::Sum(s)) && s.is_monotonic
}

spec fn is_described(s: MetricsState, mid: int, item: Item) -> bool {
    let m = item.metric;
    &&& 0 <= mid < s.metrics.len()
    &&& mid < s.names.len()
    &&& mid < s.units.len()
    &&& s.names[mid] == said(m.name@)
    &&& s.units[mid] == said(m.unit@)
    &&& s.metrics[mid].description == said(m.description@)
    &&& s.metrics[mid].kind == kind_number(m)
    &&& s.metrics[mid].temporality == temporality_number(m)
    &&& s.metrics[mid].monotonic == only_grows(m)
    &&& is_number_of(s.rs, s.metrics[mid].resource_id as int, item.resource)
    &&& is_scope_number_of(s.rs, s.metrics[mid].scope_id as int, item.scope)
    &&& all_stand(s.metric_attrs, mid, pairs(m.metadata@))
}

// ---------------------------------------------------------------------------
// What is accumulated only grows.

spec fn is_later(a: MetricsState, b: MetricsState) -> bool {
    &&& begins(a.metrics, b.metrics)
    &&& begins(a.names, b.names)
    &&& begins(a.units, b.units)
    &&& begins(a.numbers, b.numbers)
    &&& begins(a.hists, b.hists)
    &&& begins(a.bounds, b.bounds)
    &&& begins(a.exps, b.exps)
    &&& begins(a.summs, b.summs)
    &&& begins(a.exemplars, b.exemplars)
    &&& begins(a.metric_attrs, b.metric_attrs)
    &&& begins(a.dp_attrs, b.dp_attrs)
    &&& begins(a.exemplar_attrs, b.exemplar_attrs)
    &&& rs_later(a.rs, b.rs)
    &&& a.points <= b.points
}

proof fn lemma_later(a: MetricsState, b: MetricsState, c: MetricsState)
    requires
        is_later(a, b),
        is_later(b, c),
    ensures
        is_later(a, c),
{
    lemma_begins(a.metrics, b.metrics, c.metrics);
    lemma_begins(a.names, b.names, c.names);
    lemma_begins(a.units, b.units, c.units);
    lemma_begins(a.numbers, b.numbers, c.numbers);
    lemma_begins(a.hists, b.hists, c.hists);
    lemma_begins(a.bounds, b.bounds, c.bounds);
    lemma_begins(a.exps, b.exps, c.exps);
    lemma_begins(a.summs, b.summs, c.summs);
    lemma_begins(a.exemplars, b.exemplars, c.exemplars);
    lemma_begins(a.metric_attrs, b.metric_attrs, c.metric_attrs);
    lemma_begins(a.dp_attrs, b.dp_attrs, c.dp_attrs);
    lemma_begins(a.exemplar_attrs, b.exemplar_attrs, c.exemplar_attrs);
    lemma_rs_later(a.rs, b.rs, c.rs);
}

/// Within what numbers can name.
spec fn is_within(s: MetricsState) -> bool {
    &&& s.points <= u32::MAX
    &&& s.metrics.len() <= u32::MAX
    &&& s.exemplars.len() <= u32::MAX
    &&& s.bounds.len() <= u32::MAX
}

proof fn lemma_exemplars_stay(a: MetricsState, b: MetricsState, parent: int, es: Seq<Exemplar>)
    requires
        is_later(a, b),
        have_exemplars(a, parent, es),
    ensures
        have_exemplars(b, parent, es),
{
    assert forall|q: int| 0 <= q < es.len() implies has_exemplar(b, parent, #[trigger] es[q]) by {
        let x = choose|x: int| #[trigger] exemplar_is(a, parent, es[q], x);
        assert(b.exemplars[x] == a.exemplars[x]);
        lemma_stand_on(a.exemplar_attrs, b.exemplar_attrs, x, pairs(es[q].filtered_attributes@));
        assert(exemplar_is(b, parent, es[q], x));
    }
}

proof fn lemma_row_stays(a: MetricsState, b: MetricsState, id: int, mid: int, p: Point, i: int)
    requires
        is_later(a, b),
        row_is(a, id, mid, p, i),
    ensures
        row_is(b, id, mid, p, i),
{
    match p {
        Point::Number(p) => {
            assert(b.numbers[i] == a.numbers[i]);
        },
        Point::Hist(p) => {
            assert(b.hists[i] == a.hists[i]);
            if let Some(n) = a.hists[i].bounds {
                assert(b.bounds[n as int] == a.bounds[n as int]);
            }
        },
        Point::Exp(p) => {
            assert(b.exps[i] == a.exps[i]);
        },
        Point::Summ(p) => {
            assert(b.summs[i] == a.summs[i]);
        },
    }
}

proof fn lemma_kept_on(a: MetricsState, b: MetricsState, id: int, mid: int, p: Point)
    requires
        is_later(a, b),
        is_kept(a, id, mid, p),
    ensures
        is_kept(b, id, mid, p),
{
    let i = choose|i: int| #[trigger] row_is(a, id, mid, p, i);
    lemma_row_stays(a, b, id, mid, p, i);
    lemma_stand_on(a.dp_attrs, b.dp_attrs, id, pairs(attributes_of(p)));
    lemma_exemplars_stay(a, b, id, exemplars_of(p));
}

proof fn lemma_described_on(a: MetricsState, b: MetricsState, mid: int, item: Item)
    requires
        is_later(a, b),
        is_described(a, mid, item),
    ensures
        is_described(b, mid, item),
{
    assert(b.metrics[mid] == a.metrics[mid]);
    assert(b.names[mid] == a.names[mid]);
    assert(b.units[mid] == a.units[mid]);
    lemma_number_on(a.rs, b.rs, a.metrics[mid].resource_id as int, item.resource);
    lemma_scope_number_on(a.rs, b.rs, a.metrics[mid].scope_id as int, item.scope);
    lemma_stand_on(a.metric_attrs, b.metric_attrs, mid, pairs(item.metric.metadata@));
}

/// What is between two states that nothing but points came to.
spec fn only_points(a: MetricsState, b: MetricsState) -> bool {
    &&& is_later(a, b)
    &&& b.metrics == a.metrics
    &&& b.names == a.names
    &&& b.units == a.units
    &&& b.rs == a.rs
}

proof fn lemma_with_exemplars(st: MetricsState, dp_id: u32, es: Seq<Exemplar>)
    ensures
        only_points(st, with_exemplars(st, dp_id, es).0),
        with_exemplars(st, dp_id, es).0.points == st.points,
        with_exemplars(st, dp_id, es).1 is None && with_exemplars(st, dp_id, es).0.exemplars.len()
            <= u32::MAX ==> have_exemplars(with_exemplars(st, dp_id, es).0, dp_id as int, es),
    decreases es.len(),
{
    if es.len() > 0 {
        let kvs = pairs(es[0].filtered_attributes@);
        let at = st.exemplars.len();
        let end = appended(st.exemplar_attrs, at as u32, kvs);
        let s1 = MetricsState {
            exemplars: st.exemplars.push(exemplar_row(es[0], dp_id)),
            exemplar_attrs: end.0,
            ..st
        };
        lemma_appended(st.exemplar_attrs, at as u32, kvs);
        assert(is_later(st, s1));
        if end.1 {
            let rest = es.skip(1);
            lemma_with_exemplars(s1, dp_id, rest);
            let (s2, e) = with_exemplars(st, dp_id, es);
            lemma_later(st, s1, s2);
            if e is None && s2.exemplars.len() <= u32::MAX {
                assert forall|q: int| 0 <= q < es.len() implies has_exemplar(
                    s2,
                    dp_id as int,
                    #[trigger] es[q],
                ) by {
                    if q == 0 {
                        assert(at as u32 == at);
                        assert(exemplar_is(s1, dp_id as int, es[0], at as int));
                        assert(s2.exemplars[at as int] == s1.exemplars[at as int]);
                        lemma_stand_on(s1.exemplar_attrs, s2.exemplar_attrs, at as int, kvs);
                        assert(exemplar_is(s2, dp_id as int, es[0], at as int));
                    } else {
                        assert(rest[q - 1] == es[q]);
                    }
                }
            }
        }
    }
}

proof fn lemma_with_tail(st: MetricsState, dp_id: u32, attributes: Seq<KeyValue>, es: Seq<Exemplar>)
    ensures
        only_points(st, with_tail(st, dp_id, attributes, es).0),
        with_tail(st, dp_id, attributes, es).0.points == st.points,
        with_tail(st, dp_id, attributes, es).1 is None && with_tail(
            st,
            dp_id,
            attributes,
            es,
        ).0.exemplars.len() <= u32::MAX ==> {
            let s = with_tail(st, dp_id, attributes, es).0;
            &&& all_stand(s.dp_attrs, dp_id as int, pairs(attributes))
            &&& have_exemplars(s, dp_id as int, es)
        },
{
    let end = appended(st.dp_attrs, dp_id, pairs(attributes));
    let s1 = MetricsState { dp_attrs: end.0, ..st };
    lemma_appended(st.dp_attrs, dp_id, pairs(attributes));
    assert(is_later(st, s1));
    if end.1 {
        lemma_with_exemplars(s1, dp_id, es);
        let s2 = with_exemplars(s1, dp_id, es).0;
        lemma_later(st, s1, s2);
        lemma_stand_on(s1.dp_attrs, s2.dp_attrs, dp_id as int, pairs(attributes));
    }
}

// ---------------------------------------------------------------------------
// One point of each shape, and the points of a metric of that shape.

/// The state a number point is stored to, its row and attributes not yet in it.
pub open spec fn before_number(st: MetricsState, p: NumberDataPoint, mid: u32) -> MetricsState {
    let s0 = with_point(st, p.time_unix_nano);
    MetricsState {
        numbers: s0.numbers.push(
            NumberRow {
                head: head_of(
                    st.points as u32,
                    mid,
                    p.start_time_unix_nano,
                    p.time_unix_nano,
                    p.flags,
                ),
                int: int_of(p.value),
                double: double_of(p.value),
            },
        ),
        ..s0
    }
}

/// The state a histogram point is stored to.
pub open spec fn before_hist(st: MetricsState, p: HistogramDataPoint, mid: u32) -> MetricsState {
    let s0 = with_point(st, p.time_unix_nano);
    let b = p.explicit_bounds@;
    let numbered = bounds_number(st.bounds, b);
    MetricsState {
        hists: s0.hists.push(
            HistRow {
                head: head_of(
                    st.points as u32,
                    mid,
                    p.start_time_unix_nano,
                    p.time_unix_nano,
                    p.flags,
                ),
                stats: StatsRow { count: p.count, sum: p.sum, min: p.min, max: p.max },
                counts: p.bucket_counts@,
                bounds: if b.len() == 0 {
                    None
                } else {
                    Some(numbered.0)
                },
            },
        ),
        bounds: if b.len() == 0 {
            st.bounds
        } else {
            with_bounds(st.bounds, b)
        },
        list_values: st.list_values + p.bucket_counts@.len() + if b.len() > 0 && numbered.1 {
            b.len()
        } else {
            0
        },
        ..s0
    }
}

/// The state a point of an exponential histogram is stored to.
pub open spec fn before_exp(st: MetricsState, p: ExponentialHistogramDataPoint, mid: u32) -> MetricsState {
    let s0 = with_point(st, p.time_unix_nano);
    MetricsState {
        exps: s0.exps.push(
            ExpRow {
                head: head_of(
                    st.points as u32,
                    mid,
                    p.start_time_unix_nano,
                    p.time_unix_nano,
                    p.flags,
                ),
                stats: StatsRow { count: p.count, sum: p.sum, min: p.min, max: p.max },
                scale: p.scale,
                zero_count: p.zero_count,
                zero_threshold: p.zero_threshold,
                pos_offset: offset_of(p.positive),
                pos: counts_of(p.positive),
                neg_offset: offset_of(p.negative),
                neg: counts_of(p.negative),
            },
        ),
        list_values: st.list_values + counts_len(p.positive) + counts_len(p.negative),
        ..s0
    }
}

/// The state a summary point is stored to.
pub open spec fn before_summ(st: MetricsState, p: SummaryDataPoint, mid: u32) -> MetricsState {
    let s0 = with_point(st, p.time_unix_nano);
    MetricsState {
        summs: s0.summs.push(
            SummRow {
                head: head_of(
                    st.points as u32,
                    mid,
                    p.start_time_unix_nano,
                    p.time_unix_nano,
                    p.flags,
                ),
                count: p.count,
                sum: p.sum,
                quantile: p.quantile_values@.map_values(|q: ValueAtQuantile| q.quantile),
                value: p.quantile_values@.map_values(|q: ValueAtQuantile| q.value),
            },
        ),
        list_values: st.list_values + p.quantile_values@.len() * 2,
        ..s0
    }
}

/// What one point leaves: what was there, and itself under the next number.
proof fn lemma_with_number(st: MetricsState, p: NumberDataPoint, mid: u32)
    ensures
        only_points(st, with_number(st, p, mid).0),
        with_number(st, p, mid).0.points == st.points + 1,
        with_number(st, p, mid).1 is None && is_within(with_number(st, p, mid).0) ==> is_kept(
            with_number(st, p, mid).0,
            st.points as int,
            mid as int,
            Point::Number(p),
        ),
{
    let id = st.points as u32;
    let s1 = before_number(st, p, mid);
    let es: Seq<Exemplar> = p.exemplars@;
    assert(with_number(st, p, mid) == with_tail(s1, id, p.attributes@, es));
    lemma_with_tail(s1, id, p.attributes@, es);
    let s2 = with_number(st, p, mid).0;
    assert(is_later(st, s1));
    lemma_later(st, s1, s2);
    if with_number(st, p, mid).1 is None && is_within(s2) {
        let i = st.numbers.len() as int;
        assert(id == st.points);
        assert(row_is(s1, id as int, mid as int, Point::Number(p), i));
        lemma_row_stays(s1, s2, id as int, mid as int, Point::Number(p), i);
    }
}

proof fn lemma_with_numbers(st: MetricsState, ps: Seq<NumberDataPoint>, mid: u32)
    ensures
        only_points(st, with_numbers(st, ps, mid).0),
        with_numbers(st, ps, mid).2 is None ==> with_numbers(st, ps, mid).0.points == st.points + ps.len(),
        with_numbers(st, ps, mid).2 is None && is_within(with_numbers(st, ps, mid).0) ==> forall|j: int|
            0 <= j < ps.len() ==> is_kept(
                with_numbers(st, ps, mid).0,
                st.points + j,
                mid as int,
                Point::Number(#[trigger] ps[j]),
            ),
    decreases ps.len(),
{
    if ps.len() > 0 {
        let (s1, e) = with_number(st, ps[0], mid);
        lemma_with_number(st, ps[0], mid);
        if e is None {
            let rest = ps.skip(1);
            lemma_with_numbers(s1, rest, mid);
            let (s2, n, e2) = with_numbers(st, ps, mid);
            lemma_later(st, s1, s2);
            if e2 is None && is_within(s2) {
                assert forall|j: int| 0 <= j < ps.len() implies is_kept(
                    s2,
                    st.points + j,
                    mid as int,
                    Point::Number(#[trigger] ps[j]),
                ) by {
                    if j == 0 {
                        lemma_kept_on(s1, s2, st.points as int, mid as int, Point::Number(ps[0]));
                    } else {
                        assert(rest[j - 1] == ps[j]);
                        assert(s1.points + (j - 1) == st.points + j);
                    }
                }
            }
        }
    }
}

/// What one point leaves: what was there, and itself under the next number.
proof fn lemma_with_hist(st: MetricsState, p: HistogramDataPoint, mid: u32)
    ensures
        only_points(st, with_hist(st, p, mid).0),
        with_hist(st, p, mid).0.points == st.points + 1,
        with_hist(st, p, mid).1 is None && is_within(with_hist(st, p, mid).0) ==> is_kept(
            with_hist(st, p, mid).0,
            st.points as int,
            mid as int,
            Point::Hist(p),
        ),
{
    let id = st.points as u32;
    let s1 = before_hist(st, p, mid);
    let es: Seq<Exemplar> = p.exemplars@;
    assert(with_hist(st, p, mid) == with_tail(s1, id, p.attributes@, es));
    lemma_with_tail(s1, id, p.attributes@, es);
    let s2 = with_hist(st, p, mid).0;
    assert(is_later(st, s1));
    lemma_later(st, s1, s2);
    if with_hist(st, p, mid).1 is None && is_within(s2) {
        let i = st.hists.len() as int;
        assert(id == st.points);
        let b = p.explicit_bounds@;
        if b.len() > 0 {
            if st.bounds.contains(b) {
                assert(st.bounds[st.bounds.index_of(b)] == b);
            } else {
                assert(s1.bounds[st.bounds.len() as int] == b);
                assert(s2.bounds.len() >= s1.bounds.len());
            }
        }
        assert(row_is(s1, id as int, mid as int, Point::Hist(p), i));
        lemma_row_stays(s1, s2, id as int, mid as int, Point::Hist(p), i);
    }
}

proof fn lemma_with_hists(st: MetricsState, ps: Seq<HistogramDataPoint>, mid: u32)
    ensures
        only_points(st, with_hists(st, ps, mid).0),
        with_hists(st, ps, mid).2 is None ==> with_hists(st, ps, mid).0.points == st.points + ps.len(),
        with_hists(st, ps, mid).2 is None && is_within(with_hists(st, ps, mid).0) ==> forall|j: int|
            0 <= j < ps.len() ==> is_kept(
                with_hists(st, ps, mid).0,
                st.points + j,
                mid as int,
                Point::Hist(#[trigger] ps[j]),
            ),
    decreases ps.len(),
{
    if ps.len() > 0 {
        let (s1, e) = with_hist(st, ps[0], mid);
        lemma_with_hist(st, ps[0], mid);
        if e is None {
            let rest = ps.skip(1);
            lemma_with_hists(s1, rest, mid);
            let (s2, n, e2) = with_hists(st, ps, mid);
            lemma_later(st, s1, s2);
            if e2 is None && is_within(s2) {
                assert forall|j: int| 0 <= j < ps.len() implies is_kept(
                    s2,
                    st.points + j,
                    mid as int,
                    Point::Hist(#[trigger] ps[j]),
                ) by {
                    if j == 0 {
                        lemma_kept_on(s1, s2, st.points as int, mid as int, Point::Hist(ps[0]));
                    } else {
                        assert(rest[j - 1] == ps[j]);
                        assert(s1.points + (j - 1) == st.points + j);
                    }
                }
            }
        }
    }
}

/// What one point leaves: what was there, and itself under the next number.
proof fn lemma_with_exp(st: MetricsState, p: ExponentialHistogramDataPoint, mid: u32)
    ensures
        only_points(st, with_exp(st, p, mid).0),
        with_exp(st, p, mid).0.points == st.points + 1,
        with_exp(st, p, mid).1 is None && is_within(with_exp(st, p, mid).0) ==> is_kept(
            with_exp(st, p, mid).0,
            st.points as int,
            mid as int,
            Point::Exp(p),
        ),
{
    let id = st.points as u32;
    let s1 = before_exp(st, p, mid);
    let es: Seq<Exemplar> = p.exemplars@;
    assert(with_exp(st, p, mid) == with_tail(s1, id, p.attributes@, es));
    lemma_with_tail(s1, id, p.attributes@, es);
    let s2 = with_exp(st, p, mid).0;
    assert(is_later(st, s1));
    lemma_later(st, s1, s2);
    if with_exp(st, p, mid).1 is None && is_within(s2) {
        let i = st.exps.len() as int;
        assert(id == st.points);
        assert(row_is(s1, id as int, mid as int, Point::Exp(p), i));
        lemma_row_stays(s1, s2, id as int, mid as int, Point::Exp(p), i);
    }
}

proof fn lemma_with_exps(st: MetricsState, ps: Seq<ExponentialHistogramDataPoint>, mid: u32)
    ensures
        only_points(st, with_exps(st, ps, mid).0),
        with_exps(st, ps, mid).2 is None ==> with_exps(st, ps, mid).0.points == st.points + ps.len(),
        with_exps(st, ps, mid).2 is None && is_within(with_exps(st, ps, mid).0) ==> forall|j: int|
            0 <= j < ps.len() ==> is_kept(
                with_exps(st, ps, mid).0,
                st.points + j,
                mid as int,
                Point::Exp(#[trigger] ps[j]),
            ),
    decreases ps.len(),
{
    if ps.len() > 0 {
        let (s1, e) = with_exp(st, ps[0], mid);
        lemma_with_exp(st, ps[0], mid);
        if e is None {
            let rest = ps.skip(1);
            lemma_with_exps(s1, rest, mid);
            let (s2, n, e2) = with_exps(st, ps, mid);
            lemma_later(st, s1, s2);
            if e2 is None && is_within(s2) {
                assert forall|j: int| 0 <= j < ps.len() implies is_kept(
                    s2,
                    st.points + j,
                    mid as int,
                    Point::Exp(#[trigger] ps[j]),
                ) by {
                    if j == 0 {
                        lemma_kept_on(s1, s2, st.points as int, mid as int, Point::Exp(ps[0]));
                    } else {
                        assert(rest[j - 1] == ps[j]);
                        assert(s1.points + (j - 1) == st.points + j);
                    }
                }
            }
        }
    }
}

/// What one point leaves: what was there, and itself under the next number.
proof fn lemma_with_summ(st: MetricsState, p: SummaryDataPoint, mid: u32)
    ensures
        only_points(st, with_summ(st, p, mid).0),
        with_summ(st, p, mid).0.points == st.points + 1,
        with_summ(st, p, mid).1 is None && is_within(with_summ(st, p, mid).0) ==> is_kept(
            with_summ(st, p, mid).0,
            st.points as int,
            mid as int,
            Point::Summ(p),
        ),
{
    let id = st.points as u32;
    let s1 = before_summ(st, p, mid);
    let es: Seq<Exemplar> = Seq::empty();
    assert(with_summ(st, p, mid) == with_tail(s1, id, p.attributes@, es));
    lemma_with_tail(s1, id, p.attributes@, es);
    let s2 = with_summ(st, p, mid).0;
    assert(is_later(st, s1));
    lemma_later(st, s1, s2);
    if with_summ(st, p, mid).1 is None && is_within(s2) {
        let i = st.summs.len() as int;
        assert(id == st.points);
        assert(s1.summs[i].quantile =~= quantiles(p.quantile_values@));
        assert(s1.summs[i].value =~= quantile_values(p.quantile_values@));
        assert(row_is(s1, id as int, mid as int, Point::Summ(p), i));
        lemma_row_stays(s1, s2, id as int, mid as int, Point::Summ(p), i);
    }
}

proof fn lemma_with_summs(st: MetricsState, ps: Seq<SummaryDataPoint>, mid: u32)
    ensures
        only_points(st, with_summs(st, ps, mid).0),
        with_summs(st, ps, mid).2 is None ==> with_summs(st, ps, mid).0.points == st.points + ps.len(),
        with_summs(st, ps, mid).2 is None && is_within(with_summs(st, ps, mid).0) ==> forall|j: int|
            0 <= j < ps.len() ==> is_kept(
                with_summs(st, ps, mid).0,
                st.points + j,
                mid as int,
                Point::Summ(#[trigger] ps[j]),
            ),
    decreases ps.len(),
{
    if ps.len() > 0 {
        let (s1, e) = with_summ(st, ps[0], mid);
        lemma_with_summ(st, ps[0], mid);
        if e is None {
            let rest = ps.skip(1);
            lemma_with_summs(s1, rest, mid);
            let (s2, n, e2) = with_summs(st, ps, mid);
            lemma_later(st, s1, s2);
            if e2 is None && is_within(s2) {
                assert forall|j: int| 0 <= j < ps.len() implies is_kept(
                    s2,
                    st.points + j,
                    mid as int,
                    Point::Summ(#[trigger] ps[j]),
                ) by {
                    if j == 0 {
                        lemma_kept_on(s1, s2, st.points as int, mid as int, Point::Summ(ps[0]));
                    } else {
                        assert(rest[j - 1] == ps[j]);
                        assert(s1.points + (j - 1) == st.points + j);
                    }
                }
            }
        }
    }
}

// ---------------------------------------------------------------------------
// Metrics, scopes and resources.

/// The descriptor columns are of one length.
spec fn is_level(s: MetricsState) -> bool {
    s.names.len() == s.metrics.len() && s.units.len() == s.metrics.len()
}

/// Each of these metrics is described, and each of its points is kept, under the
/// numbers from these on.
spec fn all_kept(s: MetricsState, points: nat, metrics: nat, items: Seq<Item>) -> bool {
    &&& forall|k: int|
        0 <= k < items.len() ==> is_described(s, metrics + k, #[trigger] items[k])
    &&& forall|k: int, j: int|
        0 <= k < items.len() && 0 <= j < points_of(items[k].metric).len() ==> is_kept(
            s,
            points + points_before(items, k as nat) + j,
            metrics + k,
            #[trigger] points_of(#[trigger] items[k].metric)[j],
        )
}

proof fn lemma_all_on(a: MetricsState, b: MetricsState, points: nat, metrics: nat, items: Seq<Item>)
    requires
        is_later(a, b),
        all_kept(a, points, metrics, items),
    ensures
        all_kept(b, points, metrics, items),
{
    assert forall|k: int| 0 <= k < items.len() implies is_described(
        b,
        metrics + k,
        #[trigger] items[k],
    ) by {
        lemma_described_on(a, b, metrics + k, items[k]);
    }
    assert forall|k: int, j: int|
        0 <= k < items.len() && 0 <= j < points_of(items[k].metric).len() implies is_kept(
        b,
        points + points_before(items, k as nat) + j,
        metrics + k,
        #[trigger] points_of(#[trigger] items[k].metric)[j],
    ) by {
        lemma_kept_on(
            a,
            b,
            points + points_before(items, k as nat) + j,
            metrics + k,
            points_of(items[k].metric)[j],
        );
    }
}

proof fn lemma_before_first(a: Seq<Item>, b: Seq<Item>, k: nat)
    requires
        k <= a.len(),
    ensures
        points_before(a + b, k) == points_before(a, k),
    decreases k,
{
    if k > 0 {
        lemma_before_first(a, b, (k - 1) as nat);
        assert((a + b)[k - 1] == a[k - 1]);
    }
}

proof fn lemma_before_both(a: Seq<Item>, b: Seq<Item>, k: nat)
    requires
        k <= b.len(),
    ensures
        points_before(a + b, a.len() + k) == points_before(a, a.len()) + points_before(b, k),
    decreases k,
{
    if k == 0 {
        lemma_before_first(a, b, a.len());
    } else {
        lemma_before_both(a, b, (k - 1) as nat);
        assert((a + b)[a.len() + k - 1] == b[k - 1]);
    }
}

proof fn lemma_all_both(s: MetricsState, points: nat, metrics: nat, a: Seq<Item>, b: Seq<Item>)
    requires
        all_kept(s, points, metrics, a),
        all_kept(s, points + points_before(a, a.len()), metrics + a.len(), b),
    ensures
        all_kept(s, points, metrics, a + b),
{
    let c = a + b;
    assert forall|k: int| 0 <= k < c.len() implies is_described(s, metrics + k, #[trigger] c[k]) by {
        if k < a.len() {
            assert(c[k] == a[k]);
        } else {
            assert(c[k] == b[k - a.len()]);
        }
    }
    assert forall|k: int, j: int|
        0 <= k < c.len() && 0 <= j < points_of(c[k].metric).len() implies is_kept(
        s,
        points + points_before(c, k as nat) + j,
        metrics + k,
        #[trigger] points_of(#[trigger] c[k].metric)[j],
    ) by {
        if k < a.len() {
            assert(c[k] == a[k]);
            lemma_before_first(a, b, k as nat);
            assert(points_of(a[k].metric)[j] == points_of(c[k].metric)[j]);
        } else {
            let m = k - a.len();
            assert(c[k] == b[m]);
            lemma_before_both(a, b, m as nat);
            assert(points_of(b[m].metric)[j] == points_of(c[k].metric)[j]);
        }
    }
}

proof fn lemma_with_data(st: MetricsState, m: Metric, mid: u32)
    ensures
        only_points(st, with_data(st, m.data, mid).0),
        with_data(st, m.data, mid).2 is None ==> with_data(st, m.data, mid).0.points == st.points
            + points_of(m).len(),
        with_data(st, m.data, mid).2 is None && is_within(with_data(st, m.data, mid).0) ==> forall|
            j: int,
        |
            0 <= j < points_of(m).len() ==> is_kept(
                with_data(st, m.data, mid).0,
                st.points + j,
                mid as int,
                #[trigger] points_of(m)[j],
            ),
{
    let end = with_data(st, m.data, mid);
    match m.data {
        None => {},
        Some(MetricData::Gauge(g)) => {
            let ps = g.data_points@;
            lemma_with_numbers(st, ps, mid);
            assert(forall|j: int| 0 <= j < ps.len() ==> points_of(m)[j] == Point::Number(#[trigger] ps[j]));
        },
        Some(MetricData::Sum(s)) => {
            let ps = s.data_points@;
            lemma_with_numbers(st, ps, mid);
            assert(forall|j: int| 0 <= j < ps.len() ==> points_of(m)[j] == Point::Number(#[trigger] ps[j]));
        },
        Some(MetricData::Histogram(h)) => {
            let ps = h.data_points@;
            lemma_with_hists(st, ps, mid);
            assert(forall|j: int| 0 <= j < ps.len() ==> points_of(m)[j] == Point::Hist(#[trigger] ps[j]));
        },
        Some(MetricData::ExponentialHistogram(h)) => {
            let ps = h.data_points@;
            lemma_with_exps(st, ps, mid);
            assert(forall|j: int| 0 <= j < ps.len() ==> points_of(m)[j] == Point::Exp(#[trigger] ps[j]));
        },
        Some(MetricData::Summary(s)) => {
            let ps = s.data_points@;
            lemma_with_summs(st, ps, mid);
            assert(forall|j: int| 0 <= j < ps.len() ==> points_of(m)[j] == Point::Summ(#[trigger] ps[j]));
        },
    }
}

proof fn lemma_with_metric(st: MetricsState, item: Item, rid: u16, sid: u16)
    ensures
        ({
            let end = with_metric(st, item.metric, rid, sid);
            &&& is_later(st, end.0)
            &&& end.0.rs == st.rs
            &&& end.2 is None ==> {
                &&& end.0.points == st.points + points_of(item.metric).len()
                &&& end.0.metrics.len() == st.metrics.len() + 1
                &&& is_level(st) ==> is_level(end.0)
            }
            &&& end.2 is None && is_within(end.0) && is_level(st) && is_number_of(
                st.rs,
                rid as int,
                item.resource,
            ) && is_scope_number_of(st.rs, sid as int, item.scope) ==> all_kept(
                end.0,
                st.points,
                st.metrics.len(),
                seq![item],
            )
        }),
{
    let m = item.metric;
    let end = with_metric(st, m, rid, sid);
    let s1 = MetricsState { names: st.names.push(crate::logs::dict_text(m.name@)), ..st };
    if crate::logs::dict_takes(st.names, m.name@) {
        assert(is_later(st, s1));
        if crate::logs::dict_takes(st.units, m.unit@) {
            let mid = st.metrics.len() as u32;
            let kvs = pairs(m.metadata@);
            let attrs = appended(st.metric_attrs, mid, kvs);
            lemma_appended(st.metric_attrs, mid, kvs);
            let s2 = MetricsState {
                units: st.units.push(crate::logs::dict_text(m.unit@)),
                metrics: st.metrics.push(metric_row(m, rid, sid)),
                metric_attrs: attrs.0,
                ..s1
            };
            assert(is_later(st, s2));
            if attrs.1 {
                lemma_with_data(s2, m, mid);
                lemma_later(st, s2, end.0);
                if end.2 is None && is_within(end.0) && is_level(st) && is_number_of(
                    st.rs,
                    rid as int,
                    item.resource,
                ) && is_scope_number_of(st.rs, sid as int, item.scope) {
                    let at = st.metrics.len() as int;
                    assert(mid == at);
                    assert(end.0.metrics[at] == metric_row(m, rid, sid));
                    assert(is_described(s2, at, item));
                    lemma_described_on(s2, end.0, at, item);
                    let items = seq![item];
                    assert forall|k: int, j: int|
                        0 <= k < items.len() && 0 <= j < points_of(
                            items[k].metric,
                        ).len() implies is_kept(
                        end.0,
                        st.points + points_before(items, k as nat) + j,
                        st.metrics.len() + k,
                        #[trigger] points_of(#[trigger] items[k].metric)[j],
                    ) by {
                        assert(k == 0);
                        assert(points_before(items, 0) == 0);
                        assert(is_kept(end.0, s2.points + j, mid as int, points_of(m)[j]));
                    }
                }
            }
        }
    }
}

/// What is owed of absorbing some metrics.
spec fn is_absorbed(
    st: MetricsState,
    end: (MetricsState, nat, Option<Seq<char>>),
    items: Seq<Item>,
) -> bool {
    &&& is_later(st, end.0)
    &&& end.2 is None ==> {
        &&& end.0.points == st.points + points_before(items, items.len())
        &&& end.0.metrics.len() == st.metrics.len() + items.len()
        &&& is_level(st) ==> is_level(end.0)
        &&& is_faithful(st.rs) ==> is_faithful(end.0.rs)
        &&& is_within(end.0) && is_level(st) && is_faithful(st.rs) ==> all_kept(
            end.0,
            st.points,
            st.metrics.len(),
            items,
        )
    }
}

proof fn lemma_absorbed_both(
    st: MetricsState,
    mid: (MetricsState, nat, Option<Seq<char>>),
    end: (MetricsState, nat, Option<Seq<char>>),
    a: Seq<Item>,
    b: Seq<Item>,
)
    requires
        is_absorbed(st, mid, a),
        mid.2 is None,
        is_absorbed(mid.0, end, b),
    ensures
        is_absorbed(st, end, a + b),
{
    lemma_later(st, mid.0, end.0);
    lemma_before_both(a, b, b.len());
    if end.2 is None && is_within(end.0) && is_level(st) && is_faithful(st.rs) {
        lemma_all_on(mid.0, end.0, st.points, st.metrics.len(), a);
        lemma_all_both(end.0, st.points, st.metrics.len(), a, b);
    }
}

proof fn lemma_nothing(st: MetricsState)
    ensures
        is_absorbed(st, (st, 0, None), Seq::empty()),
{
}

proof fn lemma_with_metrics(
    st: MetricsState,
    ms: Seq<Metric>,
    resource: Option<Resource>,
    scope: Option<InstrumentationScope>,
    rid: u16,
    sid: u16,
)
    requires
        is_faithful(st.rs),
        is_number_of(st.rs, rid as int, resource),
        is_scope_number_of(st.rs, sid as int, scope),
    ensures
        is_absorbed(st, with_metrics(st, ms, rid, sid), items_of_scope(ms, resource, scope)),
    decreases ms.len(),
{
    let items = items_of_scope(ms, resource, scope);
    if ms.len() == 0 {
        lemma_nothing(st);
        assert(items =~= Seq::empty());
    } else {
        let item = Item { metric: ms[0], resource, scope };
        let (s1, n, e) = with_metric(st, ms[0], rid, sid);
        lemma_with_metric(st, item, rid, sid);
        assert(points_before(seq![item], 1) == points_of(ms[0]).len()) by {
            reveal_with_fuel(points_before, 2);
        }
        if e is None {
            let rest = ms.skip(1);
            assert(is_absorbed(st, (s1, n, e), seq![item]));
            lemma_with_metrics(s1, rest, resource, scope, rid, sid);
            lemma_absorbed_both(
                st,
                (s1, n, e),
                with_metrics(s1, rest, rid, sid),
                seq![item],
                items_of_scope(rest, resource, scope),
            );
            assert(seq![item] + items_of_scope(rest, resource, scope) =~= items);
        }
    }
}

proof fn lemma_with_scopes(
    st: MetricsState,
    sms: Seq<ScopeMetrics>,
    resource: Option<Resource>,
    rid: u16,
)
    requires
        is_faithful(st.rs),
        is_number_of(st.rs, rid as int, resource),
    ensures
        is_absorbed(st, with_scope_metrics(st, sms, rid), items_of_scopes(sms, resource)),
    decreases sms.len(),
{
    if sms.len() == 0 {
        lemma_nothing(st);
    } else {
        let (rs, o) = with_scope(st.rs, sms[0].scope);
        let s0 = MetricsState { rs, ..st };
        lemma_with_scope(st.rs, sms[0].scope);
        assert(is_later(st, s0));
        if let Outcome::Id(sid) = o {
            let ms = sms[0].metrics@;
            let first = items_of_scope(ms, resource, sms[0].scope);
            let rest = sms.skip(1);
            lemma_number_on(st.rs, rs, rid as int, resource);
            lemma_with_metrics(s0, ms, resource, sms[0].scope, rid, sid);
            let (s1, n, e) = with_metrics(s0, ms, rid, sid);
            lemma_later(st, s0, s1);
            assert(is_absorbed(st, (s1, n, e), first));
            if e is None {
                lemma_number_on(rs, s1.rs, rid as int, resource);
                lemma_with_scopes(s1, rest, resource, rid);
                lemma_absorbed_both(
                    st,
                    (s1, n, e),
                    with_scope_metrics(s1, rest, rid),
                    first,
                    items_of_scopes(rest, resource),
                );
            }
        }
    }
}

proof fn lemma_with_resources(st: MetricsState, rms: Seq<ResourceMetrics>)
    requires
        is_faithful(st.rs),
    ensures
        is_absorbed(st, with_resource_metrics(st, rms), items_of(rms)),
    decreases rms.len(),
{
    if rms.len() == 0 {
        lemma_nothing(st);
    } else {
        let (rs, o) = with_resource(st.rs, rms[0].resource);
        let s0 = MetricsState { rs, ..st };
        lemma_with_resource(st.rs, rms[0].resource);
        assert(is_later(st, s0));
        if let Outcome::Id(rid) = o {
            let sms = rms[0].scope_metrics@;
            let first = items_of_scopes(sms, rms[0].resource);
            let rest = rms.skip(1);
            lemma_with_scopes(s0, sms, rms[0].resource, rid);
            let (s1, n, e) = with_scope_metrics(s0, sms, rid);
            lemma_later(st, s0, s1);
            assert(is_absorbed(st, (s1, n, e), first));
            if e is None {
                lemma_with_resources(s1, rest);
                lemma_absorbed_both(
                    st,
                    (s1, n, e),
                    with_resource_metrics(s1, rest),
                    first,
                    items_of(rest),
                );
            }
        }
    }
}

// ---------------------------------------------------------------------------
// In the tables of the sealed block.

/// What every point has, by column: its number, its metric's, when it started
/// and when it was taken, and its flags.
pub open spec fn head_at(
    t: Table,
    row: int,
    id: int,
    mid: int,
    start: u64,
    time: u64,
    flags: u32,
) -> bool {
    &&& 0 <= row < t.rows
    &&& u32_at(t, "id"@, row, id)
    &&& u32_at(t, "metric_id"@, row, mid)
    &&& maybe_time_at(t, "start_time_unix_nano"@, row, set_time(start))
    &&& time_at(t, "time_unix_nano"@, row, stored_time(time))
    &&& u32_at(t, "flags"@, row, flags as int)
}

/// A point of a gauge or a sum, in a row of the table.
pub open spec fn number_at(t: Table, row: int, id: int, mid: int, p: NumberDataPoint) -> bool {
    &&& head_at(t, row, id, mid, p.start_time_unix_nano, p.time_unix_nano, p.flags)
    &&& maybe_int_at(t, "int"@, row, whole(p.value))
    &&& maybe_double_at(t, "double"@, row, fraction(p.value))
}

/// The boundaries of a histogram point: none, or the row of the boundary table
/// that the point names.
pub open spec fn bounds_at(tables: Seq<Named>, t: Table, row: int, bounds: Seq<u64>) -> bool {
    if bounds.len() == 0 {
        maybe_u32_at(t, "bounds_id"@, row, None)
    } else {
        exists|n: u32| #[trigger] maybe_u32_at(t, "bounds_id"@, row, Some(n)) && has_bounds(tables, n, bounds)
    }
}

/// The boundary table has these boundaries under the number.
pub open spec fn has_bounds(tables: Seq<Named>, n: u32, bounds: Seq<u64>) -> bool {
    &&& table_named(tables, "hist_bounds"@) matches Some(b)
    &&& n < b.rows
    &&& u32_at(b, "id"@, n as int, n as int)
    &&& doubles_at(b, "bounds"@, n as int, bounds)
}

/// A point of a histogram, in a row of the table.
pub open spec fn hist_at(
    tables: Seq<Named>,
    t: Table,
    row: int,
    id: int,
    mid: int,
    p: HistogramDataPoint,
) -> bool {
    &&& head_at(t, row, id, mid, p.start_time_unix_nano, p.time_unix_nano, p.flags)
    &&& u64_at(t, "count"@, row, p.count as int)
    &&& maybe_double_at(t, "sum"@, row, p.sum)
    &&& maybe_double_at(t, "min"@, row, p.min)
    &&& maybe_double_at(t, "max"@, row, p.max)
    &&& numbers_at(t, "bucket_counts"@, row, p.bucket_counts@)
    &&& bounds_at(tables, t, row, p.explicit_bounds@)
}

/// A point of an exponential histogram, in a row of the table.
pub open spec fn exp_at(
    t: Table,
    row: int,
    id: int,
    mid: int,
    p: ExponentialHistogramDataPoint,
) -> bool {
    &&& head_at(t, row, id, mid, p.start_time_unix_nano, p.time_unix_nano, p.flags)
    &&& u64_at(t, "count"@, row, p.count as int)
    &&& maybe_double_at(t, "sum"@, row, p.sum)
    &&& maybe_double_at(t, "min"@, row, p.min)
    &&& maybe_double_at(t, "max"@, row, p.max)
    &&& i32_at(t, "scale"@, row, p.scale as int)
    &&& u64_at(t, "zero_count"@, row, p.zero_count as int)
    &&& double_at(t, "zero_threshold"@, row, p.zero_threshold)
    &&& i32_at(t, "positive_offset"@, row, side_offset(p.positive) as int)
    &&& maybe_numbers_at(t, "positive_counts"@, row, side_counts(p.positive))
    &&& i32_at(t, "negative_offset"@, row, side_offset(p.negative) as int)
    &&& maybe_numbers_at(t, "negative_counts"@, row, side_counts(p.negative))
}

/// A point of a summary, in a row of the table.
pub open spec fn summary_at(t: Table, row: int, id: int, mid: int, p: SummaryDataPoint) -> bool {
    &&& head_at(t, row, id, mid, p.start_time_unix_nano, p.time_unix_nano, p.flags)
    &&& u64_at(t, "count"@, row, p.count as int)
    &&& double_at(t, "sum"@, row, p.sum)
    &&& doubles_at(t, "quantile"@, row, quantiles(p.quantile_values@))
    &&& doubles_at(t, "value"@, row, quantile_values(p.quantile_values@))
}

/// A point stands in the table of its shape.
pub open spec fn point_at(tables: Seq<Named>, row: int, id: int, mid: int, p: Point) -> bool {
    match p {
        Point::Number(p) => table_named(tables, "number_dp"@) matches Some(t) && number_at(
            t,
            row,
            id,
            mid,
            p,
        ),
        Point::Hist(p) => table_named(tables, "hist_dp"@) matches Some(t) && hist_at(
            tables,
            t,
            row,
            id,
            mid,
            p,
        ),
        Point::Exp(p) => table_named(tables, "exp_hist_dp"@) matches Some(t) && exp_at(
            t,
            row,
            id,
            mid,
            p,
        ),
        Point::Summ(p) => table_named(tables, "summary_dp"@) matches Some(t) && summary_at(
            t,
            row,
            id,
            mid,
            p,
        ),
    }
}

/// An exemplar stands in a row of its table, under the number of its point and
/// with its own attributes.
pub open spec fn exemplar_at(tables: Seq<Named>, row: int, parent: int, e: Exemplar) -> bool {
    &&& table_named(tables, "exemplars"@) matches Some(t)
    &&& 0 <= row < t.rows
    &&& u32_at(t, "id"@, row, row)
    &&& u32_at(t, "parent_id"@, row, parent)
    &&& time_at(t, "time_unix_nano"@, row, stored_time(e.time_unix_nano))
    &&& maybe_int_at(t, "int"@, row, whole(e.value))
    &&& maybe_double_at(t, "double"@, row, fraction(e.value))
    &&& maybe_fixed_at(t, "trace_id"@, row, id_of(e.trace_id@, 16))
    &&& maybe_fixed_at(t, "span_id"@, row, id_of(e.span_id@, 8))
    &&& has_attrs(tables, "exemplar_attrs"@, row, pairs(e.filtered_attributes@))
}

/// The block has the exemplar.
pub open spec fn stores_exemplar(tables: Seq<Named>, parent: int, e: Exemplar) -> bool {
    exists|row: int| #[trigger] exemplar_at(tables, row, parent, e)
}

/// The block has the point under this number, and the number of its metric: in
/// the table of its shape, with its attributes and its exemplars.
pub open spec fn stores_point(tables: Seq<Named>, id: int, mid: int, p: Point) -> bool {
    &&& exists|row: int| #[trigger] point_at(tables, row, id, mid, p)
    &&& has_attrs(tables, "dp_attrs"@, id, pairs(attributes_of(p)))
    &&& forall|q: int|
        0 <= q < exemplars_of(p).len() ==> stores_exemplar(tables, id, #[trigger] exemplars_of(p)[q])
}

/// The block describes the metric under this number, and says whose it is.
pub open spec fn stores_metric(tables: Seq<Named>, mid: int, item: Item) -> bool {
    let m = item.metric;
    &&& table_named(tables, "metrics"@) matches Some(t)
    &&& 0 <= mid < t.rows
    &&& u32_at(t, "id"@, mid, mid)
    &&& entry_at(t, "name"@, mid, m.name@)
    &&& maybe_text_at(t, "description"@, mid, said(m.description@))
    &&& entry_at(t, "unit"@, mid, m.unit@)
    &&& u8_at(t, "kind"@, mid, kind_number(m))
    &&& u8_at(t, "temporality"@, mid, temporality_number(m))
    &&& bool_at(t, "is_monotonic"@, mid, only_grows(m))
    &&& exists|rid: u16| #[trigger]
        u16_at(t, "resource_id"@, mid, rid as int) && tells_resource(tables, rid as int, item.resource)
    &&& exists|sid: u16| #[trigger]
        u16_at(t, "scope_id"@, mid, sid as int) && tells_scope(tables, sid as int, item.scope)
    &&& has_attrs(tables, "metric_attrs"@, mid, pairs(m.metadata@))
}

proof fn lemma_metric_tables(b: Sealed, st: MetricsState)
    requires
        metrics_sealed_of(b, st),
    ensures
        table_named(b.tables@, "metrics"@) == Some(b.tables@[0].table),
        table_named(b.tables@, "metric_attrs"@) == Some(b.tables@[1].table),
        table_named(b.tables@, "number_dp"@) == Some(b.tables@[2].table),
        table_named(b.tables@, "hist_dp"@) == Some(b.tables@[3].table),
        table_named(b.tables@, "hist_bounds"@) == Some(b.tables@[4].table),
        table_named(b.tables@, "exp_hist_dp"@) == Some(b.tables@[5].table),
        table_named(b.tables@, "summary_dp"@) == Some(b.tables@[6].table),
        table_named(b.tables@, "dp_attrs"@) == Some(b.tables@[7].table),
        table_named(b.tables@, "exemplars"@) == Some(b.tables@[8].table),
        table_named(b.tables@, "exemplar_attrs"@) == Some(b.tables@[9].table),
        table_named(b.tables@, "resources"@) == Some(b.tables@[10].table),
        table_named(b.tables@, "resource_attrs"@) == Some(b.tables@[11].table),
        table_named(b.tables@, "scope_attrs"@) == Some(b.tables@[12].table),
{
    let t = b.tables@;
    let names = metric_table_names();
    let held = t.map_values(|n: Named| n.name@);
    assert(held =~= names);
    assert forall|i: int| 0 <= i < names.len() implies (#[trigger] t[i]).name@ == names[i] by {
        assert(held[i] == t[i].name@);
    }
    lemma_metric_table_names();
    lemma_tables(t, names);
    assert(names[0] == "metrics"@ && names[1] == "metric_attrs"@ && names[2] == "number_dp"@);
    assert(names[3] == "hist_dp"@ && names[4] == "hist_bounds"@ && names[5] == "exp_hist_dp"@);
    assert(names[6] == "summary_dp"@ && names[7] == "dp_attrs"@ && names[8] == "exemplars"@);
    assert(names[9] == "exemplar_attrs"@ && names[10] == "resources"@);
    assert(names[11] == "resource_attrs"@ && names[12] == "scope_attrs"@);
}

proof fn lemma_number_cells(t: Table, s: MetricsState, row: int, id: int, mid: int, p: NumberDataPoint)
    requires
        number_table_of(t, s.numbers),
        row_is(s, id, mid, Point::Number(p), row),
    ensures
        number_at(t, row, id, mid, p),
{
    let names = number_names();
    let held = t.fields@.map_values(|f: Field| f.name@);
    assert(held =~= names);
    assert forall|i: int| 0 <= i < names.len() implies (#[trigger] t.fields@[i]).name@ == names[i] by {
        assert(held[i] == t.fields@[i].name@);
    }
    lemma_number_names();
    lemma_columns(t, names);
    assert(t.named(names[0]) is Some && t.named(names[1]) is Some && t.named(names[2]) is Some);
    assert(t.named(names[3]) is Some && t.named(names[4]) is Some && t.named(names[5]) is Some);
    assert(t.named(names[6]) is Some);
    assert(s.numbers[row].int == whole(p.value));
}

proof fn lemma_bounds_cells(tables: Seq<Named>, s: MetricsState, n: u32)
    requires
        table_named(tables, "hist_bounds"@) matches Some(b) && bounds_table_of(b, s.bounds),
        n < s.bounds.len(),
        s.bounds.len() <= u32::MAX,
    ensures
        has_bounds(tables, n, s.bounds[n as int]),
{
    let t = table_named(tables, "hist_bounds"@)->0;
    let names = bounds_names();
    lemma_bounds_names();
    lemma_columns(t, names);
    assert(t.named(names[0]) is Some && t.named(names[1]) is Some);
    let lists = s.bounds.map_values(|r: Seq<u64>| Some(r));
    assert(lists[n as int] == Some(s.bounds[n as int]));
    assert(crate::columns::counting(s.bounds.len())[n as int] == n);
}

proof fn lemma_hist_cells(
    tables: Seq<Named>,
    t: Table,
    s: MetricsState,
    row: int,
    id: int,
    mid: int,
    p: HistogramDataPoint,
)
    requires
        hist_table_of(t, s.hists),
        table_named(tables, "hist_bounds"@) matches Some(b) && bounds_table_of(b, s.bounds),
        s.bounds.len() <= u32::MAX,
        row_is(s, id, mid, Point::Hist(p), row),
    ensures
        hist_at(tables, t, row, id, mid, p),
{
    let names = hist_names();
    let held = t.fields@.map_values(|f: Field| f.name@);
    assert(held =~= names);
    assert forall|i: int| 0 <= i < names.len() implies (#[trigger] t.fields@[i]).name@ == names[i] by {
        assert(held[i] == t.fields@[i].name@);
    }
    lemma_hist_names();
    lemma_columns(t, names);
    assert(t.named(names[0]) is Some && t.named(names[1]) is Some && t.named(names[2]) is Some);
    assert(t.named(names[3]) is Some && t.named(names[4]) is Some && t.named(names[5]) is Some);
    assert(t.named(names[6]) is Some && t.named(names[7]) is Some && t.named(names[8]) is Some);
    assert(t.named(names[9]) is Some && t.named(names[10]) is Some);
    let lists = s.hists.map_values(|r: HistRow| Some(r.counts));
    assert(lists[row] == Some(s.hists[row].counts));
    let numbers = s.hists.map_values(|r: HistRow| r.bounds);
    assert(numbers[row] == s.hists[row].bounds);
    if let Some(n) = s.hists[row].bounds {
        lemma_bounds_cells(tables, s, n);
        assert(maybe_u32_at(t, "bounds_id"@, row, Some(n)));
    }
}

proof fn lemma_exp_cells(
    t: Table,
    s: MetricsState,
    row: int,
    id: int,
    mid: int,
    p: ExponentialHistogramDataPoint,
)
    requires
        exp_table_of(t, s.exps),
        row_is(s, id, mid, Point::Exp(p), row),
    ensures
        exp_at(t, row, id, mid, p),
{
    let names = exp_names();
    let held = t.fields@.map_values(|f: Field| f.name@);
    assert(held =~= names);
    assert forall|i: int| 0 <= i < names.len() implies (#[trigger] t.fields@[i]).name@ == names[i] by {
        assert(held[i] == t.fields@[i].name@);
    }
    lemma_exp_names();
    lemma_columns(t, names);
    assert(t.named(names[0]) is Some && t.named(names[1]) is Some && t.named(names[2]) is Some);
    assert(t.named(names[3]) is Some && t.named(names[4]) is Some && t.named(names[5]) is Some);
    assert(t.named(names[6]) is Some && t.named(names[7]) is Some && t.named(names[8]) is Some);
    assert(t.named(names[9]) is Some && t.named(names[10]) is Some && t.named(names[11]) is Some);
    assert(t.named(names[12]) is Some && t.named(names[13]) is Some && t.named(names[14]) is Some);
    assert(t.named(names[15]) is Some);
    let pos = s.exps.map_values(|r: ExpRow| r.pos);
    let neg = s.exps.map_values(|r: ExpRow| r.neg);
    assert(pos[row] == s.exps[row].pos && neg[row] == s.exps[row].neg);
}

proof fn lemma_summary_cells(t: Table, s: MetricsState, row: int, id: int, mid: int, p: SummaryDataPoint)
    requires
        summary_table_of(t, s.summs),
        row_is(s, id, mid, Point::Summ(p), row),
    ensures
        summary_at(t, row, id, mid, p),
{
    let names = summary_names();
    let held = t.fields@.map_values(|f: Field| f.name@);
    assert(held =~= names);
    assert forall|i: int| 0 <= i < names.len() implies (#[trigger] t.fields@[i]).name@ == names[i] by {
        assert(held[i] == t.fields@[i].name@);
    }
    lemma_summary_names();
    lemma_columns(t, names);
    assert(t.named(names[0]) is Some && t.named(names[1]) is Some && t.named(names[2]) is Some);
    assert(t.named(names[3]) is Some && t.named(names[4]) is Some && t.named(names[5]) is Some);
    assert(t.named(names[6]) is Some && t.named(names[7]) is Some && t.named(names[8]) is Some);
    let quantile = s.summs.map_values(|r: SummRow| Some(r.quantile));
    let value = s.summs.map_values(|r: SummRow| Some(r.value));
    assert(quantile[row] == Some(s.summs[row].quantile) && value[row] == Some(s.summs[row].value));
}

proof fn lemma_exemplar_cells(tables: Seq<Named>, s: MetricsState, row: int, parent: int, e: Exemplar)
    requires
        table_named(tables, "exemplars"@) matches Some(t) && exemplar_table_of(t, s.exemplars),
        table_named(tables, "exemplar_attrs"@) matches Some(t) && crate::attrs::attrs_table_of(
            t,
            s.exemplar_attrs,
        ),
        s.exemplars.len() <= u32::MAX,
        exemplar_is(s, parent, e, row),
    ensures
        exemplar_at(tables, row, parent, e),
{
    let t = table_named(tables, "exemplars"@)->0;
    let names = exemplar_names();
    let held = t.fields@.map_values(|f: Field| f.name@);
    assert(held =~= names);
    assert forall|i: int| 0 <= i < names.len() implies (#[trigger] t.fields@[i]).name@ == names[i] by {
        assert(held[i] == t.fields@[i].name@);
    }
    lemma_exemplar_names();
    lemma_columns(t, names);
    assert(t.named(names[0]) is Some && t.named(names[1]) is Some && t.named(names[2]) is Some);
    assert(t.named(names[3]) is Some && t.named(names[4]) is Some && t.named(names[5]) is Some);
    assert(t.named(names[6]) is Some);
    assert(crate::columns::counting(s.exemplars.len())[row] == row);
    let traces = s.exemplars.map_values(|r: ExemplarRow| r.trace);
    let spans = s.exemplars.map_values(|r: ExemplarRow| r.span);
    assert(traces[row] == s.exemplars[row].trace && spans[row] == s.exemplars[row].span);
    lemma_has_attrs(
        tables,
        "exemplar_attrs"@,
        s.exemplar_attrs,
        row,
        pairs(e.filtered_attributes@),
    );
}

proof fn lemma_descriptor_cells(tables: Seq<Named>, s: MetricsState, mid: int, item: Item)
    requires
        table_named(tables, "metrics"@) matches Some(t) && metrics_table_of(
            t,
            s.metrics,
            s.names,
            s.units,
        ),
        table_named(tables, "metric_attrs"@) matches Some(t) && crate::attrs::attrs_table_of(
            t,
            s.metric_attrs,
        ),
        s.metrics.len() <= u32::MAX,
        is_described(s, mid, item),
        tells_resource(tables, s.metrics[mid].resource_id as int, item.resource),
        tells_scope(tables, s.metrics[mid].scope_id as int, item.scope),
    ensures
        stores_metric(tables, mid, item),
{
    let t = table_named(tables, "metrics"@)->0;
    let names = descriptor_names();
    let held = t.fields@.map_values(|f: Field| f.name@);
    assert(held =~= names);
    assert forall|i: int| 0 <= i < names.len() implies (#[trigger] t.fields@[i]).name@ == names[i] by {
        assert(held[i] == t.fields@[i].name@);
    }
    lemma_descriptor_names();
    lemma_columns(t, names);
    assert(t.named(names[0]) is Some && t.named(names[1]) is Some && t.named(names[2]) is Some);
    assert(t.named(names[3]) is Some && t.named(names[4]) is Some && t.named(names[5]) is Some);
    assert(t.named(names[6]) is Some && t.named(names[7]) is Some && t.named(names[8]) is Some);
    assert(crate::columns::counting(s.metrics.len())[mid] == mid);
    let texts = s.metrics.map_values(|r: MetricRow| r.description);
    assert(texts[mid] == s.metrics[mid].description);
    lemma_has_attrs(
        tables,
        "metric_attrs"@,
        s.metric_attrs,
        mid,
        pairs(item.metric.metadata@),
    );
    assert(u16_at(t, "resource_id"@, mid, s.metrics[mid].resource_id as int));
    assert(u16_at(t, "scope_id"@, mid, s.metrics[mid].scope_id as int));
}

proof fn lemma_point_stored(b: Sealed, s: MetricsState, id: int, mid: int, p: Point)
    requires
        metrics_sealed_of(b, s),
        is_within(s),
        is_kept(s, id, mid, p),
    ensures
        stores_point(b.tables@, id, mid, p),
{
    let tables = b.tables@;
    lemma_metric_tables(b, s);
    let i = choose|i: int| #[trigger] row_is(s, id, mid, p, i);
    match p {
        Point::Number(x) => lemma_number_cells(tables[2].table, s, i, id, mid, x),
        Point::Hist(x) => lemma_hist_cells(tables, tables[3].table, s, i, id, mid, x),
        Point::Exp(x) => lemma_exp_cells(tables[5].table, s, i, id, mid, x),
        Point::Summ(x) => lemma_summary_cells(tables[6].table, s, i, id, mid, x),
    }
    assert(point_at(tables, i, id, mid, p));
    lemma_has_attrs(tables, "dp_attrs"@, s.dp_attrs, id, pairs(attributes_of(p)));
    let es = exemplars_of(p);
    assert forall|q: int| 0 <= q < es.len() implies stores_exemplar(tables, id, #[trigger] es[q]) by {
        assert(has_exemplar(s, id, es[q]));
        let x = choose|x: int| #[trigger] exemplar_is(s, id, es[q], x);
        lemma_exemplar_cells(tables, s, x, id, es[q]);
    }
}

/// A request that was absorbed whole is in the block that is sealed from it: the
/// `k`-th of its metrics is described under the number of those before it, and
/// the `j`-th point of that metric stands, with its own values in the columns of
/// their names, in the table of its shape.
pub proof fn law_a_request_is_stored(
    st: MetricsState,
    rms: Seq<ResourceMetrics>,
    b: Sealed,
    k: int,
    j: int,
)
    requires
        st.names.len() == st.metrics.len(),
        st.units.len() == st.metrics.len(),
        is_faithful(st.rs),
        with_resource_metrics(st, rms).2 is None,
        with_resource_metrics(st, rms).0.points <= u32::MAX,
        with_resource_metrics(st, rms).0.metrics.len() <= u32::MAX,
        with_resource_metrics(st, rms).0.exemplars.len() <= u32::MAX,
        with_resource_metrics(st, rms).0.bounds.len() <= u32::MAX,
        metrics_sealed_of(b, with_resource_metrics(st, rms).0),
        0 <= k < items_of(rms).len(),
    ensures
        stores_metric(b.tables@, st.metrics.len() + k, items_of(rms)[k]),
        0 <= j < points_of(items_of(rms)[k].metric).len() ==> stores_point(
            b.tables@,
            st.points + points_before(items_of(rms), k as nat) + j,
            st.metrics.len() + k,
            points_of(items_of(rms)[k].metric)[j],
        ),
{
    let s = with_resource_metrics(st, rms).0;
    let items = items_of(rms);
    let tables = b.tables@;
    lemma_with_resources(st, rms);
    assert(all_kept(s, st.points, st.metrics.len(), items));
    lemma_metric_tables(b, s);
    let v = tables.subrange(10, 13);
    assert(v[0] == tables[10] && v[1] == tables[11] && v[2] == tables[12]);
    lemma_told(tables, s.rs);
    let mid = st.metrics.len() + k;
    assert(is_described(s, mid, items[k]));
    lemma_descriptor_cells(tables, s, mid, items[k]);
    if 0 <= j < points_of(items[k].metric).len() {
        let id = st.points + points_before(items, k as nat) + j;
        assert(is_kept(s, id, mid, points_of(items[k].metric)[j]));
        lemma_point_stored(b, s, id, mid, points_of(items[k].metric)[j]);
    }
}

/// The point of a histogram that a block has under a number has its own count,
/// sum, minimum and maximum there, each in the column of its name.
pub proof fn law_a_histogram_keeps_its_values(
    st: MetricsState,
    rms: Seq<ResourceMetrics>,
    b: Sealed,
    k: int,
    j: int,
    p: HistogramDataPoint,
)
    requires
        st.names.len() == st.metrics.len(),
        st.units.len() == st.metrics.len(),
        is_faithful(st.rs),
        with_resource_metrics(st, rms).2 is None,
        with_resource_metrics(st, rms).0.points <= u32::MAX,
        with_resource_metrics(st, rms).0.metrics.len() <= u32::MAX,
        with_resource_metrics(st, rms).0.exemplars.len() <= u32::MAX,
        with_resource_metrics(st, rms).0.bounds.len() <= u32::MAX,
        metrics_sealed_of(b, with_resource_metrics(st, rms).0),
        0 <= k < items_of(rms).len(),
        items_of(rms)[k].metric.data matches Some(MetricData::Histogram(h)) && 0 <= j
            < h.data_points@.len() && h.data_points@[j] == p,
    ensures
        table_named(b.tables@, "hist_dp"@) matches Some(t) && exists|row: int|
            0 <= row < t.rows && #[trigger] u32_at(
                t,
                "id"@,
                row,
                st.points + points_before(items_of(rms), k as nat) + j,
            ) && u64_at(t, "count"@, row, p.count as int) && maybe_double_at(
                t,
                "sum"@,
                row,
                p.sum,
            ) && maybe_double_at(t, "min"@, row, p.min) && maybe_double_at(t, "max"@, row, p.max),
{
    law_a_request_is_stored(st, rms, b, k, j);
    let id = st.points + points_before(items_of(rms), k as nat) + j;
    let mid = st.metrics.len() + k;
    let x = points_of(items_of(rms)[k].metric)[j];
    assert(x == Point::Hist(p));
    let row = choose|row: int| #[trigger] point_at(b.tables@, row, id, mid, x);
    let t = table_named(b.tables@, "hist_dp"@)->0;
    assert(u32_at(t, "id"@, row, id));
}

/// Nothing has been interned into a block that is new, and its descriptor
/// columns are of one length; so what is said of absorbing a request holds of
/// the first one, and then of each that follows.
pub proof fn law_a_new_block_can_be_told_from(rms: Seq<ResourceMetrics>)
    ensures
        is_faithful(MetricsState::none().rs),
        is_faithful(with_resource_metrics(MetricsState::none(), rms).0.rs) || with_resource_metrics(
            MetricsState::none(),
            rms,
        ).2 is Some,
        MetricsState::none().names.len() == MetricsState::none().metrics.len(),
        MetricsState::none().units.len() == MetricsState::none().metrics.len(),
{
    lemma_with_resources(MetricsState::none(), rms);
}

} // verus!
