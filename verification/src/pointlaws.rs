//! What holds of accumulated metrics as a whole: one id space across the point
//! tables, a range that covers the points, and what the headroom check
//! promises.

use crate::attrfilter::parents_of;
use crate::attrs::{appended, attr_row_is, keys_in, str_cap, strs_in, value_or_empty, AttrRow};
use crate::columns::{counting, firsts};
use crate::headroom::{
    interned_room, lemma_appended_room, lemma_firsts_push, lemma_resource_room, lemma_scope_room,
};
use crate::interning::{with_resource, with_scope, Outcome};
use crate::logs::dict_text;
use crate::metrics::{
    data_size, exemplar_kv, exemplar_row, exps_kv, exps_size, hists_kv, hists_size, is_even,
    leaves_room, metric_demand, metric_row, metrics_demand, metrics_sealed_of, metrics_size,
    numbers_kv, numbers_size, request_demand, request_size, scopes_demand, scopes_size, summs_kv,
    summs_size, with_data, with_exemplars, with_exp, with_exps, with_hist, with_hists, with_metric,
    with_metrics, with_number, with_numbers, with_point, with_resource_metrics, with_scope_metrics,
    with_summ, with_summs, with_tail, Demand, MetricsState,
};
use crate::otlp::{
    lemma_pairs, pairs, Exemplar, ExponentialHistogramDataPoint, HistogramDataPoint, KeyValue,
    Metric, MetricData, NumberDataPoint, Pair, ResourceMetrics, ScopeMetrics, SummaryDataPoint,
};
use crate::points::{head_of, ExemplarRow, ExpRow, HeadRow, HistRow, NumberRow, SummRow};
use crate::schema::DICT_CAP;
use crate::signal::Sealed;
use crate::table::{Column, Data};
use vstd::prelude::*;

verus! {

// ---------------------------------------------------------------------------
// One id space.

/// What every point has, table by table.
pub open spec fn heads_of(st: MetricsState) -> Seq<Seq<HeadRow>> {
    seq![
        st.numbers.map_values(|r: NumberRow| r.head),
        st.hists.map_values(|r: HistRow| r.head),
        st.exps.map_values(|r: ExpRow| r.head),
        st.summs.map_values(|r: SummRow| r.head),
    ]
}

/// Point `id` stands at row `i` of table `t`.
pub open spec fn stands_at(tables: Seq<Seq<HeadRow>>, id: int, t: int, i: int) -> bool {
    0 <= t < tables.len() && 0 <= i < tables[t].len() && tables[t][i].id == id
}

/// Point `id` stands somewhere.
pub open spec fn is_placed(tables: Seq<Seq<HeadRow>>, id: int) -> bool {
    exists|t: int, i: int| #[trigger] stands_at(tables, id, t, i)
}

/// The tables draw their ids from one counter: ids ascend within a table, no
/// two tables share one, and every number below the counter is the id of some
/// row.
pub open spec fn is_one_space(tables: Seq<Seq<HeadRow>>, points: nat) -> bool {
    &&& forall|t: int, i: int|
        0 <= t < tables.len() && 0 <= i < tables[t].len() ==> (#[trigger] tables[t][i]).id < points
    &&& forall|t: int, i: int, j: int|
        0 <= t < tables.len() && 0 <= i < j < tables[t].len() ==> (#[trigger] tables[t][i]).id < (
        #[trigger] tables[t][j]).id
    &&& forall|t: int, i: int, u: int, j: int|
        0 <= t < tables.len() && 0 <= i < tables[t].len() && 0 <= u < tables.len() && 0 <= j
            < tables[u].len() && t != u ==> (#[trigger] tables[t][i]).id != (
        #[trigger] tables[u][j]).id
    &&& forall|id: int| 0 <= id < points ==> #[trigger] is_placed(tables, id)
}

/// The block's range covers every point that has a time.
pub open spec fn is_ranged(tables: Seq<Seq<HeadRow>>, min_ts: i64, max_ts: i64) -> bool {
    forall|t: int, i: int|
        0 <= t < tables.len() && 0 <= i < tables[t].len() && (#[trigger] tables[t][i]).time != 0
            ==> min_ts <= tables[t][i].time <= max_ts
}

/// Every exemplar belongs to a point.
pub open spec fn are_owned(es: Seq<ExemplarRow>, points: nat) -> bool {
    forall|i: int| 0 <= i < es.len() ==> (#[trigger] es[i]).parent < points
}

/// Every attribute of a point belongs to one.
pub open spec fn are_hung(attrs: Seq<AttrRow>, points: nat) -> bool {
    forall|i: int| 0 <= i < attrs.len() ==> (#[trigger] attrs[i]).parent < points
}

/// What holds of accumulated metrics.
pub open spec fn is_sound(st: MetricsState) -> bool {
    &&& is_one_space(heads_of(st), st.points)
    &&& is_ranged(heads_of(st), st.min_ts, st.max_ts)
    &&& are_owned(st.exemplars, st.points)
    &&& are_hung(st.dp_attrs, st.points)
}

proof fn lemma_appended_hung(attrs: Seq<AttrRow>, parent: u32, ps: Seq<Pair>, points: nat)
    requires
        are_hung(attrs, points),
        parent < points,
    ensures
        are_hung(appended(attrs, parent, ps).0, points),
    decreases ps.len(),
{
    if ps.len() > 0 {
        let row = AttrRow { parent, key: ps[0].key, value: value_or_empty(ps[0].value) };
        let more = attrs.push(row);
        assert forall|i: int| 0 <= i < more.len() implies (#[trigger] more[i]).parent < points by {
            if i < attrs.len() {
                assert(more[i] == attrs[i]);
            }
        }
        lemma_appended_hung(more, parent, ps.skip(1), points);
    }
}

proof fn lemma_space_push(tables: Seq<Seq<HeadRow>>, points: nat, t: int, h: HeadRow)
    requires
        is_one_space(tables, points),
        0 <= t < tables.len(),
        h.id == points,
    ensures
        is_one_space(tables.update(t, tables[t].push(h)), points + 1),
{
    let now = tables.update(t, tables[t].push(h));
    assert forall|u: int, i: int| 0 <= u < now.len() && 0 <= i < now[u].len() implies (
    #[trigger] now[u][i]).id < points + 1 by {
        if u != t || i < tables[t].len() {
            assert(now[u][i] == tables[u][i]);
        }
    }
    assert forall|u: int, i: int, j: int|
        0 <= u < now.len() && 0 <= i < j < now[u].len() implies (#[trigger] now[u][i]).id < (
    #[trigger] now[u][j]).id by {
        assert(now[u][i] == tables[u][i]);
        if u != t || j < tables[t].len() {
            assert(now[u][j] == tables[u][j]);
        }
    }
    assert forall|u: int, i: int, v: int, j: int|
        0 <= u < now.len() && 0 <= i < now[u].len() && 0 <= v < now.len() && 0 <= j < now[v].len()
            && u != v implies (#[trigger] now[u][i]).id != (#[trigger] now[v][j]).id by {
        if u != t || i < tables[t].len() {
            assert(now[u][i] == tables[u][i]);
        }
        if v != t || j < tables[t].len() {
            assert(now[v][j] == tables[v][j]);
        }
    }
    assert forall|id: int| 0 <= id < points + 1 implies #[trigger] is_placed(now, id) by {
        if id < points {
            assert(is_placed(tables, id));
            let (u, i) = choose|u: int, i: int| #[trigger] stands_at(tables, id, u, i);
            assert(now[u][i] == tables[u][i]);
            assert(stands_at(now, id, u, i));
        } else {
            assert(stands_at(now, id, t, tables[t].len() as int));
        }
    }
}

proof fn lemma_exemplars_sound(st: MetricsState, dp_id: u32, es: Seq<Exemplar>)
    requires
        is_sound(st),
        dp_id < st.points,
    ensures
        is_sound(with_exemplars(st, dp_id, es).0),
    decreases es.len(),
{
    if es.len() > 0 {
        let end = appended(
            st.exemplar_attrs,
            st.exemplars.len() as u32,
            pairs(es[0].filtered_attributes@),
        );
        let s1 = MetricsState {
            exemplars: st.exemplars.push(exemplar_row(es[0], dp_id)),
            exemplar_attrs: end.0,
            ..st
        };
        assert(heads_of(s1) == heads_of(st));
        assert forall|i: int| 0 <= i < s1.exemplars.len() implies (#[trigger] s1.exemplars[i]).parent
            < s1.points by {
            if i < st.exemplars.len() {
                assert(s1.exemplars[i] == st.exemplars[i]);
            }
        }
        if end.1 {
            lemma_exemplars_sound(s1, dp_id, es.skip(1));
        }
    }
}

/// A point pushed to table `t`, and what hangs off it, keeps the state sound.
proof fn lemma_point_sound(
    st: MetricsState,
    s1: MetricsState,
    t: int,
    mid: u32,
    start: u64,
    time: u64,
    flags: u32,
    attributes: Seq<KeyValue>,
    es: Seq<Exemplar>,
)
    requires
        is_sound(st),
        st.points < u32::MAX,
        0 <= t < 4,
        heads_of(s1) == heads_of(st).update(
            t,
            heads_of(st)[t].push(head_of(st.points as u32, mid, start, time, flags)),
        ),
        s1.points == st.points + 1,
        s1.min_ts == with_point(st, time).min_ts,
        s1.max_ts == with_point(st, time).max_ts,
        s1.exemplars == st.exemplars,
        s1.dp_attrs == st.dp_attrs,
    ensures
        is_sound(with_tail(s1, st.points as u32, attributes, es).0),
{
    let h = head_of(st.points as u32, mid, start, time, flags);
    let tables = heads_of(st);
    let now = heads_of(s1);
    lemma_space_push(tables, st.points, t, h);
    assert forall|u: int, i: int|
        0 <= u < now.len() && 0 <= i < now[u].len() && (#[trigger] now[u][i]).time != 0 implies s1.min_ts
        <= now[u][i].time <= s1.max_ts by {
        if u != t || i < tables[t].len() {
            assert(now[u][i] == tables[u][i]);
        }
    }
    assert(is_sound(s1));
    let end = appended(s1.dp_attrs, st.points as u32, pairs(attributes));
    lemma_appended_hung(s1.dp_attrs, st.points as u32, pairs(attributes), s1.points);
    let s2 = MetricsState { dp_attrs: end.0, ..s1 };
    assert(heads_of(s2) == heads_of(s1));
    if end.1 {
        lemma_exemplars_sound(s2, st.points as u32, es);
    }
}

proof fn lemma_exemplars_grow(st: MetricsState, dp_id: u32, es: Seq<Exemplar>)
    ensures
        with_exemplars(st, dp_id, es).0.points == st.points,
    decreases es.len(),
{
    if es.len() > 0 {
        let end = appended(
            st.exemplar_attrs,
            st.exemplars.len() as u32,
            pairs(es[0].filtered_attributes@),
        );
        let s1 = MetricsState {
            exemplars: st.exemplars.push(exemplar_row(es[0], dp_id)),
            exemplar_attrs: end.0,
            ..st
        };
        if end.1 {
            lemma_exemplars_grow(s1, dp_id, es.skip(1));
        }
    }
}

proof fn lemma_tail_points(st: MetricsState, dp_id: u32, attributes: Seq<KeyValue>, es: Seq<Exemplar>)
    ensures
        with_tail(st, dp_id, attributes, es).0.points == st.points,
{
    let end = appended(st.dp_attrs, dp_id, pairs(attributes));
    lemma_exemplars_grow(MetricsState { dp_attrs: end.0, ..st }, dp_id, es);
}

/// The state that `with_number` hands on to the attributes and exemplars.
proof fn lemma_number_before_tail(st: MetricsState, p: NumberDataPoint, mid: u32) -> (s1: MetricsState)
    ensures
        with_number(st, p, mid) == with_tail(s1, st.points as u32, p.attributes@, p.exemplars@),
        heads_of(s1) == heads_of(st).update(
            0,
            heads_of(st)[0].push(
                head_of(
                    st.points as u32,
                    mid,
                    p.start_time_unix_nano,
                    p.time_unix_nano,
                    p.flags,
                ),
            ),
        ),
        s1.points == st.points + 1,
        s1.min_ts == with_point(st, p.time_unix_nano).min_ts,
        s1.max_ts == with_point(st, p.time_unix_nano).max_ts,
        s1.exemplars == st.exemplars,
        s1.exemplar_attrs == st.exemplar_attrs,
        s1.dp_attrs == st.dp_attrs,
        s1.metrics == st.metrics,
        s1.names == st.names,
        s1.units == st.units,
        s1.metric_attrs == st.metric_attrs,
        s1.rs == st.rs,
{
    let id = st.points as u32;
    let s0 = with_point(st, p.time_unix_nano);
    let row = NumberRow {
        head: head_of(id, mid, p.start_time_unix_nano, p.time_unix_nano, p.flags),
        int: crate::metrics::int_of(p.value),
        double: crate::metrics::double_of(p.value),
    };
    let s1 = MetricsState { numbers: s0.numbers.push(row), ..s0 };
    assert(s1.numbers.map_values(|r: NumberRow| r.head) =~= st.numbers.map_values(|r: NumberRow| r.head).push(
        row.head,
    ));
    assert(heads_of(s1) =~= heads_of(st).update(0, heads_of(st)[0].push(row.head)));
    s1
}

proof fn lemma_numbers_sound(st: MetricsState, ps: Seq<NumberDataPoint>, mid: u32)
    requires
        is_sound(st),
        st.points + numbers_size(ps).points <= u32::MAX,
    ensures
        is_sound(with_numbers(st, ps, mid).0),
        with_numbers(st, ps, mid).0.points <= st.points + numbers_size(ps).points,
    decreases ps.len(),
{
    if ps.len() > 0 {
        let p = ps[0];
        let s1 = lemma_number_before_tail(st, p, mid);
        lemma_point_sound(
            st,
            s1,
            0,
            mid,
            p.start_time_unix_nano,
            p.time_unix_nano,
            p.flags,
            p.attributes@,
            p.exemplars@,
        );
        lemma_tail_points(s1, st.points as u32, p.attributes@, p.exemplars@);
        let (s2, e) = with_number(st, p, mid);
        if e is None {
            lemma_numbers_sound(s2, ps.skip(1), mid);
        }
    }
}

/// The state that `with_hist` hands on to the attributes and exemplars.
proof fn lemma_hist_before_tail(st: MetricsState, p: HistogramDataPoint, mid: u32) -> (s1: MetricsState)
    ensures
        with_hist(st, p, mid) == with_tail(s1, st.points as u32, p.attributes@, p.exemplars@),
        heads_of(s1) == heads_of(st).update(
            1,
            heads_of(st)[1].push(
                head_of(
                    st.points as u32,
                    mid,
                    p.start_time_unix_nano,
                    p.time_unix_nano,
                    p.flags,
                ),
            ),
        ),
        s1.points == st.points + 1,
        s1.min_ts == with_point(st, p.time_unix_nano).min_ts,
        s1.max_ts == with_point(st, p.time_unix_nano).max_ts,
        s1.exemplars == st.exemplars,
        s1.exemplar_attrs == st.exemplar_attrs,
        s1.dp_attrs == st.dp_attrs,
        s1.metrics == st.metrics,
        s1.names == st.names,
        s1.units == st.units,
        s1.metric_attrs == st.metric_attrs,
        s1.rs == st.rs,
{
    let id = st.points as u32;
    let s0 = with_point(st, p.time_unix_nano);
    let b = p.explicit_bounds@;
    let numbered = crate::points::bounds_number(st.bounds, b);
    let row = HistRow {
        head: head_of(id, mid, p.start_time_unix_nano, p.time_unix_nano, p.flags),
        stats: crate::points::StatsRow { count: p.count, sum: p.sum, min: p.min, max: p.max },
        counts: p.bucket_counts@,
        bounds: if b.len() == 0 {
            None
        } else {
            Some(numbered.0)
        },
    };
    let s1 = MetricsState {
        hists: s0.hists.push(row),
        bounds: if b.len() == 0 {
            st.bounds
        } else {
            crate::points::with_bounds(st.bounds, b)
        },
        list_values: st.list_values + p.bucket_counts@.len() + if b.len() > 0 && numbered.1 {
            b.len()
        } else {
            0
        },
        ..s0
    };
    assert(s1.hists.map_values(|r: HistRow| r.head) =~= st.hists.map_values(|r: HistRow| r.head).push(
        row.head,
    ));
    assert(heads_of(s1) =~= heads_of(st).update(1, heads_of(st)[1].push(row.head)));
    s1
}

proof fn lemma_hists_sound(st: MetricsState, ps: Seq<HistogramDataPoint>, mid: u32)
    requires
        is_sound(st),
        st.points + hists_size(ps).points <= u32::MAX,
    ensures
        is_sound(with_hists(st, ps, mid).0),
        with_hists(st, ps, mid).0.points <= st.points + hists_size(ps).points,
    decreases ps.len(),
{
    if ps.len() > 0 {
        let p = ps[0];
        let s1 = lemma_hist_before_tail(st, p, mid);
        lemma_point_sound(
            st,
            s1,
            1,
            mid,
            p.start_time_unix_nano,
            p.time_unix_nano,
            p.flags,
            p.attributes@,
            p.exemplars@,
        );
        lemma_tail_points(s1, st.points as u32, p.attributes@, p.exemplars@);
        let (s2, e) = with_hist(st, p, mid);
        if e is None {
            lemma_hists_sound(s2, ps.skip(1), mid);
        }
    }
}

/// The state that `with_exp` hands on to the attributes and exemplars.
proof fn lemma_exp_before_tail(st: MetricsState, p: ExponentialHistogramDataPoint, mid: u32) -> (s1: MetricsState)
    ensures
        with_exp(st, p, mid) == with_tail(s1, st.points as u32, p.attributes@, p.exemplars@),
        heads_of(s1) == heads_of(st).update(
            2,
            heads_of(st)[2].push(
                head_of(
                    st.points as u32,
                    mid,
                    p.start_time_unix_nano,
                    p.time_unix_nano,
                    p.flags,
                ),
            ),
        ),
        s1.points == st.points + 1,
        s1.min_ts == with_point(st, p.time_unix_nano).min_ts,
        s1.max_ts == with_point(st, p.time_unix_nano).max_ts,
        s1.exemplars == st.exemplars,
        s1.exemplar_attrs == st.exemplar_attrs,
        s1.dp_attrs == st.dp_attrs,
        s1.metrics == st.metrics,
        s1.names == st.names,
        s1.units == st.units,
        s1.metric_attrs == st.metric_attrs,
        s1.rs == st.rs,
{
    let id = st.points as u32;
    let s0 = with_point(st, p.time_unix_nano);
    let row = ExpRow {
        head: head_of(id, mid, p.start_time_unix_nano, p.time_unix_nano, p.flags),
        stats: crate::points::StatsRow { count: p.count, sum: p.sum, min: p.min, max: p.max },
        scale: p.scale,
        zero_count: p.zero_count,
        zero_threshold: p.zero_threshold,
        pos_offset: crate::metrics::offset_of(p.positive),
        pos: crate::metrics::counts_of(p.positive),
        neg_offset: crate::metrics::offset_of(p.negative),
        neg: crate::metrics::counts_of(p.negative),
    };
    let s1 = MetricsState {
        exps: s0.exps.push(row),
        list_values: st.list_values + crate::metrics::counts_len(p.positive)
            + crate::metrics::counts_len(p.negative),
        ..s0
    };
    assert(s1.exps.map_values(|r: ExpRow| r.head) =~= st.exps.map_values(|r: ExpRow| r.head).push(
        row.head,
    ));
    assert(heads_of(s1) =~= heads_of(st).update(2, heads_of(st)[2].push(row.head)));
    s1
}

proof fn lemma_exps_sound(st: MetricsState, ps: Seq<ExponentialHistogramDataPoint>, mid: u32)
    requires
        is_sound(st),
        st.points + exps_size(ps).points <= u32::MAX,
    ensures
        is_sound(with_exps(st, ps, mid).0),
        with_exps(st, ps, mid).0.points <= st.points + exps_size(ps).points,
    decreases ps.len(),
{
    if ps.len() > 0 {
        let p = ps[0];
        let s1 = lemma_exp_before_tail(st, p, mid);
        lemma_point_sound(
            st,
            s1,
            2,
            mid,
            p.start_time_unix_nano,
            p.time_unix_nano,
            p.flags,
            p.attributes@,
            p.exemplars@,
        );
        lemma_tail_points(s1, st.points as u32, p.attributes@, p.exemplars@);
        let (s2, e) = with_exp(st, p, mid);
        if e is None {
            lemma_exps_sound(s2, ps.skip(1), mid);
        }
    }
}

/// The state that `with_summ` hands on to the attributes and exemplars.
proof fn lemma_summ_before_tail(st: MetricsState, p: SummaryDataPoint, mid: u32) -> (s1: MetricsState)
    ensures
        with_summ(st, p, mid) == with_tail(s1, st.points as u32, p.attributes@, Seq::empty()),
        heads_of(s1) == heads_of(st).update(
            3,
            heads_of(st)[3].push(
                head_of(
                    st.points as u32,
                    mid,
                    p.start_time_unix_nano,
                    p.time_unix_nano,
                    p.flags,
                ),
            ),
        ),
        s1.points == st.points + 1,
        s1.min_ts == with_point(st, p.time_unix_nano).min_ts,
        s1.max_ts == with_point(st, p.time_unix_nano).max_ts,
        s1.exemplars == st.exemplars,
        s1.exemplar_attrs == st.exemplar_attrs,
        s1.dp_attrs == st.dp_attrs,
        s1.metrics == st.metrics,
        s1.names == st.names,
        s1.units == st.units,
        s1.metric_attrs == st.metric_attrs,
        s1.rs == st.rs,
{
    let id = st.points as u32;
    let s0 = with_point(st, p.time_unix_nano);
    let row = SummRow {
        head: head_of(id, mid, p.start_time_unix_nano, p.time_unix_nano, p.flags),
        count: p.count,
        sum: p.sum,
        quantile: p.quantile_values@.map_values(|q: crate::otlp::ValueAtQuantile| q.quantile),
        value: p.quantile_values@.map_values(|q: crate::otlp::ValueAtQuantile| q.value),
    };
    let s1 = MetricsState {
        summs: s0.summs.push(row),
        list_values: st.list_values + p.quantile_values@.len() * 2,
        ..s0
    };
    assert(s1.summs.map_values(|r: SummRow| r.head) =~= st.summs.map_values(|r: SummRow| r.head).push(
        row.head,
    ));
    assert(heads_of(s1) =~= heads_of(st).update(3, heads_of(st)[3].push(row.head)));
    s1
}

proof fn lemma_summs_sound(st: MetricsState, ps: Seq<SummaryDataPoint>, mid: u32)
    requires
        is_sound(st),
        st.points + summs_size(ps).points <= u32::MAX,
    ensures
        is_sound(with_summs(st, ps, mid).0),
        with_summs(st, ps, mid).0.points <= st.points + summs_size(ps).points,
    decreases ps.len(),
{
    if ps.len() > 0 {
        let p = ps[0];
        let s1 = lemma_summ_before_tail(st, p, mid);
        lemma_point_sound(
            st,
            s1,
            3,
            mid,
            p.start_time_unix_nano,
            p.time_unix_nano,
            p.flags,
            p.attributes@,
            Seq::empty(),
        );
        lemma_tail_points(s1, st.points as u32, p.attributes@, Seq::empty());
        let (s2, e) = with_summ(st, p, mid);
        if e is None {
            lemma_summs_sound(s2, ps.skip(1), mid);
        }
    }
}

proof fn lemma_data_sound(st: MetricsState, data: Option<MetricData>, mid: u32)
    requires
        is_sound(st),
        st.points + data_size(data).points <= u32::MAX,
    ensures
        is_sound(with_data(st, data, mid).0),
        with_data(st, data, mid).0.points <= st.points + data_size(data).points,
{
    match data {
        None => {},
        Some(MetricData::Gauge(g)) => lemma_numbers_sound(st, g.data_points@, mid),
        Some(MetricData::Sum(s)) => lemma_numbers_sound(st, s.data_points@, mid),
        Some(MetricData::Histogram(h)) => lemma_hists_sound(st, h.data_points@, mid),
        Some(MetricData::ExponentialHistogram(h)) => lemma_exps_sound(st, h.data_points@, mid),
        Some(MetricData::Summary(s)) => lemma_summs_sound(st, s.data_points@, mid),
    }
}

proof fn lemma_metric_sound(st: MetricsState, m: Metric, rid: u16, sid: u16)
    requires
        is_sound(st),
        st.points + data_size(m.data).points <= u32::MAX,
    ensures
        is_sound(with_metric(st, m, rid, sid).0),
        with_metric(st, m, rid, sid).0.points <= st.points + data_size(m.data).points,
{
    let s1 = MetricsState { names: st.names.push(dict_text(m.name@)), ..st };
    assert(heads_of(s1) == heads_of(st));
    let mid = st.metrics.len() as u32;
    let end = appended(st.metric_attrs, mid, pairs(m.metadata@));
    let s2 = MetricsState {
        units: st.units.push(dict_text(m.unit@)),
        metrics: st.metrics.push(metric_row(m, rid, sid)),
        metric_attrs: end.0,
        ..s1
    };
    assert(heads_of(s2) == heads_of(st));
    assert(is_sound(s2));
    lemma_data_sound(s2, m.data, mid);
}

proof fn lemma_metrics_sound(st: MetricsState, ms: Seq<Metric>, rid: u16, sid: u16)
    requires
        is_sound(st),
        st.points + metrics_size(ms).points <= u32::MAX,
    ensures
        is_sound(with_metrics(st, ms, rid, sid).0),
        with_metrics(st, ms, rid, sid).0.points <= st.points + metrics_size(ms).points,
    decreases ms.len(),
{
    if ms.len() > 0 {
        lemma_metric_sound(st, ms[0], rid, sid);
        let (s1, n, e) = with_metric(st, ms[0], rid, sid);
        if e is None {
            lemma_metrics_sound(s1, ms.skip(1), rid, sid);
        }
    }
}

proof fn lemma_scopes_sound(st: MetricsState, sms: Seq<ScopeMetrics>, rid: u16)
    requires
        is_sound(st),
        st.points + scopes_size(sms).points <= u32::MAX,
    ensures
        is_sound(with_scope_metrics(st, sms, rid).0),
        with_scope_metrics(st, sms, rid).0.points <= st.points + scopes_size(sms).points,
    decreases sms.len(),
{
    if sms.len() > 0 {
        let (rs, o) = with_scope(st.rs, sms[0].scope);
        let s0 = MetricsState { rs, ..st };
        assert(heads_of(s0) == heads_of(st));
        if let Outcome::Id(sid) = o {
            lemma_metrics_sound(s0, sms[0].metrics@, rid, sid);
            let (s1, n, e) = with_metrics(s0, sms[0].metrics@, rid, sid);
            if e is None {
                lemma_scopes_sound(s1, sms.skip(1), rid);
            }
        }
    }
}

proof fn lemma_resources_sound(st: MetricsState, rms: Seq<ResourceMetrics>)
    requires
        is_sound(st),
        st.points + request_size(rms).points <= u32::MAX,
    ensures
        is_sound(with_resource_metrics(st, rms).0),
    decreases rms.len(),
{
    if rms.len() > 0 {
        let (rs, o) = with_resource(st.rs, rms[0].resource);
        let s0 = MetricsState { rs, ..st };
        assert(heads_of(s0) == heads_of(st));
        if let Outcome::Id(rid) = o {
            lemma_scopes_sound(s0, rms[0].scope_metrics@, rid);
            let (s1, n, e) = with_scope_metrics(s0, rms[0].scope_metrics@, rid);
            if e is None {
                lemma_resources_sound(s1, rms.skip(1));
            }
        }
    }
}

/// However a request ends, a point id names exactly one row in exactly one of
/// the four tables, the ids are dense from zero, the block's range covers every
/// point that has a time, and every attribute and exemplar of a point belongs
/// to one. It holds of what a fresh builder has accumulated, which is nothing.
pub proof fn law_points_share_one_id_space(st: MetricsState, rms: Seq<ResourceMetrics>)
    requires
        is_sound(st),
        st.points + request_size(rms).points <= u32::MAX,
    ensures
        is_sound(with_resource_metrics(st, rms).0),
        is_sound(MetricsState::none()),
{
    lemma_resources_sound(st, rms);
    let none = heads_of(MetricsState::none());
    assert forall|t: int| 0 <= t < none.len() implies (#[trigger] none[t]).len() == 0 by {}
}

/// The numbers of a column.
pub open spec fn numbers_of(c: Column) -> Seq<u32> {
    match c.data {
        Data::U32(v) => v@,
        _ => Seq::empty(),
    }
}

/// The ids of the points of a sealed block, table by table.
pub open spec fn ids_of(b: Sealed) -> Seq<Seq<u32>> {
    seq![
        numbers_of(b.tables@[2].table.fields@[0].column),
        numbers_of(b.tables@[3].table.fields@[0].column),
        numbers_of(b.tables@[5].table.fields@[0].column),
        numbers_of(b.tables@[6].table.fields@[0].column),
    ]
}

/// Id `id` stands at row `i` of the ids of table `t`.
pub open spec fn id_stands_at(ids: Seq<Seq<u32>>, id: int, t: int, i: int) -> bool {
    0 <= t < ids.len() && 0 <= i < ids[t].len() && ids[t][i] == id
}

/// Id `id` stands somewhere.
pub open spec fn id_is_placed(ids: Seq<Seq<u32>>, id: int) -> bool {
    exists|t: int, i: int| #[trigger] id_stands_at(ids, id, t, i)
}

proof fn lemma_sealed_ids(b: Sealed, st: MetricsState)
    requires
        metrics_sealed_of(b, st),
    ensures
        ids_of(b).len() == heads_of(st).len(),
        forall|t: int|
            0 <= t < ids_of(b).len() ==> (#[trigger] ids_of(b)[t]).len() == heads_of(st)[t].len(),
        forall|t: int, i: int|
            0 <= t < ids_of(b).len() && 0 <= i < ids_of(b)[t].len() ==> #[trigger] ids_of(b)[t][i]
                == heads_of(st)[t][i].id,
{
    let ids = ids_of(b);
    let heads = heads_of(st);
    assert(ids[0] == st.numbers.map_values(|r: NumberRow| r.head.id));
    assert(ids[1] == st.hists.map_values(|r: HistRow| r.head.id));
    assert(ids[2] == st.exps.map_values(|r: ExpRow| r.head.id));
    assert(ids[3] == st.summs.map_values(|r: SummRow| r.head.id));
    assert forall|t: int| 0 <= t < ids.len() implies (#[trigger] ids[t]).len() == heads[t].len() by {
        if t == 0 {
        } else if t == 1 {
        } else if t == 2 {
        } else {
        }
    }
    assert forall|t: int, i: int| 0 <= t < ids.len() && 0 <= i < ids[t].len() implies #[trigger] ids[t][i]
        == heads[t][i].id by {
        if t == 0 {
        } else if t == 1 {
        } else if t == 2 {
        } else {
        }
    }
}

/// The point tables of a sealed block share one id space: ids ascend within a
/// table, and every number below the block's count of points is the id of one
/// row of one table. What hangs off a point names such an id, and the metrics
/// are numbered from zero.
pub proof fn law_a_sealed_block_has_one_id_space(b: Sealed, st: MetricsState)
    requires
        is_sound(st),
        metrics_sealed_of(b, st),
    ensures
        ({
            let ids = ids_of(b);
            &&& forall|t: int, i: int|
                0 <= t < ids.len() && 0 <= i < ids[t].len() ==> #[trigger] ids[t][i] < b.num_rows
            &&& forall|t: int, i: int, j: int|
                0 <= t < ids.len() && 0 <= i < j < ids[t].len() ==> #[trigger] ids[t][i]
                    < #[trigger] ids[t][j]
            &&& forall|t: int, i: int, u: int, j: int|
                0 <= t < ids.len() && 0 <= i < ids[t].len() && 0 <= u < ids.len() && 0 <= j
                    < ids[u].len() && t != u ==> #[trigger] ids[t][i] != #[trigger] ids[u][j]
            &&& forall|id: int|
                0 <= id < b.num_rows ==> #[trigger] id_is_placed(ids, id)
        }),
        forall|i: int|
            0 <= i < b.tables@[7].table.rows ==> #[trigger] parents_of(b.tables@[7].table)[i]
                < b.num_rows,
        forall|i: int|
            0 <= i < b.tables@[8].table.rows ==> #[trigger] numbers_of(
                b.tables@[8].table.fields@[1].column,
            )[i] < b.num_rows,
        numbers_of(b.tables@[0].table.fields@[0].column) == counting(b.tables@[0].table.rows as nat),
{
    let ids = ids_of(b);
    let heads = heads_of(st);
    lemma_sealed_ids(b, st);
    assert forall|t: int, i: int| 0 <= t < ids.len() && 0 <= i < ids[t].len() implies #[trigger] ids[t][i]
        < b.num_rows by {
        assert(heads[t][i].id < st.points);
    }
    assert forall|t: int, i: int, j: int| 0 <= t < ids.len() && 0 <= i < j < ids[t].len() implies #[trigger] ids[t][i]
        < #[trigger] ids[t][j] by {
        assert(heads[t][i].id < heads[t][j].id);
    }
    assert forall|t: int, i: int, u: int, j: int|
        0 <= t < ids.len() && 0 <= i < ids[t].len() && 0 <= u < ids.len() && 0 <= j < ids[u].len()
            && t != u implies #[trigger] ids[t][i] != #[trigger] ids[u][j] by {
        assert(heads[t][i].id != heads[u][j].id);
    }
    assert forall|id: int| 0 <= id < b.num_rows implies #[trigger] id_is_placed(ids, id) by {
        assert(is_placed(heads, id));
        let (t, i) = choose|t: int, i: int| #[trigger] stands_at(heads, id, t, i);
        assert(ids[t].len() == heads[t].len());
        assert(ids[t][i] == heads[t][i].id);
        assert(id_stands_at(ids, id, t, i));
    }
    let hung = b.tables@[7].table;
    assert forall|i: int| 0 <= i < hung.rows implies #[trigger] parents_of(hung)[i] < b.num_rows by {
        assert(attr_row_is(hung, i, st.dp_attrs[i]));
    }
    let owned = b.tables@[8].table;
    assert(numbers_of(owned.fields@[1].column) == st.exemplars.map_values(
        |r: ExemplarRow| r.parent,
    ));
    assert forall|i: int| 0 <= i < owned.rows implies #[trigger] numbers_of(
        owned.fields@[1].column,
    )[i] < b.num_rows by {
        assert(st.exemplars[i].parent < st.points);
    }
}

// ---------------------------------------------------------------------------
// Headroom.

/// Whether what a builder holds leaves room for a demand, strings included.
pub open spec fn has_room(st: MetricsState, d: Demand) -> bool {
    &&& interned_room(st.rs, d.resources, d.scopes, d.res_kv, d.scope_kv)
    &&& firsts(keys_in(st.metric_attrs)).len() + d.meta_kv <= DICT_CAP
    &&& firsts(strs_in(st.metric_attrs)).len() + d.meta_kv <= str_cap()
    &&& firsts(keys_in(st.dp_attrs)).len() + d.dp_kv <= DICT_CAP
    &&& firsts(strs_in(st.dp_attrs)).len() + d.dp_kv <= str_cap()
    &&& firsts(keys_in(st.exemplar_attrs)).len() + d.ex_kv <= DICT_CAP
    &&& firsts(strs_in(st.exemplar_attrs)).len() + d.ex_kv <= str_cap()
    &&& firsts(st.names).len() + d.names <= DICT_CAP
    &&& firsts(st.units).len() + d.names <= DICT_CAP
}

proof fn lemma_exemplars_room(st: MetricsState, dp_id: u32, es: Seq<Exemplar>, d: Demand)
    requires
        has_room(st, d.and(Demand { ex_kv: exemplar_kv(es), ..Demand::none() })),
    ensures
        with_exemplars(st, dp_id, es).1 is None,
        has_room(with_exemplars(st, dp_id, es).0, d),
        is_even(st) ==> is_even(with_exemplars(st, dp_id, es).0),
    decreases es.len(),
{
    if es.len() > 0 {
        lemma_pairs(es[0].filtered_attributes@);
        lemma_appended_room(
            st.exemplar_attrs,
            st.exemplars.len() as u32,
            pairs(es[0].filtered_attributes@),
            es[0].filtered_attributes@.len(),
        );
        let end = appended(
            st.exemplar_attrs,
            st.exemplars.len() as u32,
            pairs(es[0].filtered_attributes@),
        );
        let s1 = MetricsState {
            exemplars: st.exemplars.push(exemplar_row(es[0], dp_id)),
            exemplar_attrs: end.0,
            ..st
        };
        lemma_exemplars_room(s1, dp_id, es.skip(1), d);
    }
}

proof fn lemma_tail_room(
    st: MetricsState,
    dp_id: u32,
    attributes: Seq<KeyValue>,
    es: Seq<Exemplar>,
    d: Demand,
)
    requires
        has_room(
            st,
            d.and(
                Demand { dp_kv: attributes.len(), ex_kv: exemplar_kv(es), ..Demand::none() },
            ),
        ),
    ensures
        with_tail(st, dp_id, attributes, es).1 is None,
        has_room(with_tail(st, dp_id, attributes, es).0, d),
        is_even(st) ==> is_even(with_tail(st, dp_id, attributes, es).0),
{
    lemma_pairs(attributes);
    lemma_appended_room(st.dp_attrs, dp_id, pairs(attributes), attributes.len());
    let end = appended(st.dp_attrs, dp_id, pairs(attributes));
    let s1 = MetricsState { dp_attrs: end.0, ..st };
    lemma_exemplars_room(s1, dp_id, es, d);
}

proof fn lemma_numbers_room(st: MetricsState, ps: Seq<NumberDataPoint>, mid: u32, d: Demand)
    requires
        has_room(
            st,
            d.and(
                Demand {
                    dp_kv: numbers_kv(ps).0,
                    ex_kv: numbers_kv(ps).1,
                    ..Demand::none()
                },
            ),
        ),
    ensures
        with_numbers(st, ps, mid).2 is None,
        with_numbers(st, ps, mid).1 == numbers_size(ps).points,
        has_room(with_numbers(st, ps, mid).0, d),
        is_even(st) ==> is_even(with_numbers(st, ps, mid).0),
    decreases ps.len(),
{
    if ps.len() > 0 {
        let p = ps[0];
        let rest = ps.skip(1);
        let s1 = lemma_number_before_tail(st, p, mid);
        let left = d.and(
            Demand { dp_kv: numbers_kv(rest).0, ex_kv: numbers_kv(rest).1, ..Demand::none() },
        );
        lemma_tail_room(s1, st.points as u32, p.attributes@, p.exemplars@, left);
        lemma_numbers_room(with_number(st, p, mid).0, rest, mid, d);
    }
}

proof fn lemma_hists_room(st: MetricsState, ps: Seq<HistogramDataPoint>, mid: u32, d: Demand)
    requires
        has_room(
            st,
            d.and(
                Demand {
                    dp_kv: hists_kv(ps).0,
                    ex_kv: hists_kv(ps).1,
                    ..Demand::none()
                },
            ),
        ),
    ensures
        with_hists(st, ps, mid).2 is None,
        with_hists(st, ps, mid).1 == hists_size(ps).points,
        has_room(with_hists(st, ps, mid).0, d),
        is_even(st) ==> is_even(with_hists(st, ps, mid).0),
    decreases ps.len(),
{
    if ps.len() > 0 {
        let p = ps[0];
        let rest = ps.skip(1);
        let s1 = lemma_hist_before_tail(st, p, mid);
        let left = d.and(
            Demand { dp_kv: hists_kv(rest).0, ex_kv: hists_kv(rest).1, ..Demand::none() },
        );
        lemma_tail_room(s1, st.points as u32, p.attributes@, p.exemplars@, left);
        lemma_hists_room(with_hist(st, p, mid).0, rest, mid, d);
    }
}

proof fn lemma_exps_room(st: MetricsState, ps: Seq<ExponentialHistogramDataPoint>, mid: u32, d: Demand)
    requires
        has_room(
            st,
            d.and(
                Demand {
                    dp_kv: exps_kv(ps).0,
                    ex_kv: exps_kv(ps).1,
                    ..Demand::none()
                },
            ),
        ),
    ensures
        with_exps(st, ps, mid).2 is None,
        with_exps(st, ps, mid).1 == exps_size(ps).points,
        has_room(with_exps(st, ps, mid).0, d),
        is_even(st) ==> is_even(with_exps(st, ps, mid).0),
    decreases ps.len(),
{
    if ps.len() > 0 {
        let p = ps[0];
        let rest = ps.skip(1);
        let s1 = lemma_exp_before_tail(st, p, mid);
        let left = d.and(
            Demand { dp_kv: exps_kv(rest).0, ex_kv: exps_kv(rest).1, ..Demand::none() },
        );
        lemma_tail_room(s1, st.points as u32, p.attributes@, p.exemplars@, left);
        lemma_exps_room(with_exp(st, p, mid).0, rest, mid, d);
    }
}

proof fn lemma_summs_room(st: MetricsState, ps: Seq<SummaryDataPoint>, mid: u32, d: Demand)
    requires
        has_room(
            st,
            d.and(
                Demand {
                    dp_kv: summs_kv(ps).0,
                    ex_kv: summs_kv(ps).1,
                    ..Demand::none()
                },
            ),
        ),
    ensures
        with_summs(st, ps, mid).2 is None,
        with_summs(st, ps, mid).1 == summs_size(ps).points,
        has_room(with_summs(st, ps, mid).0, d),
        is_even(st) ==> is_even(with_summs(st, ps, mid).0),
    decreases ps.len(),
{
    if ps.len() > 0 {
        let p = ps[0];
        let rest = ps.skip(1);
        let s1 = lemma_summ_before_tail(st, p, mid);
        let left = d.and(
            Demand { dp_kv: summs_kv(rest).0, ex_kv: summs_kv(rest).1, ..Demand::none() },
        );
        lemma_tail_room(s1, st.points as u32, p.attributes@, Seq::empty(), left);
        lemma_summs_room(with_summ(st, p, mid).0, rest, mid, d);
    }
}

proof fn lemma_metric_room(st: MetricsState, m: Metric, rid: u16, sid: u16, d: Demand)
    requires
        has_room(st, d.and(metric_demand(m))),
    ensures
        with_metric(st, m, rid, sid).2 is None,
        with_metric(st, m, rid, sid).1 == data_size(m.data).points,
        has_room(with_metric(st, m, rid, sid).0, d),
        is_even(st) ==> is_even(with_metric(st, m, rid, sid).0),
{
    lemma_pairs(m.metadata@);
    lemma_firsts_push(st.names, dict_text(m.name@));
    lemma_firsts_push(st.units, dict_text(m.unit@));
    let mid = st.metrics.len() as u32;
    lemma_appended_room(st.metric_attrs, mid, pairs(m.metadata@), m.metadata@.len());
    let end = appended(st.metric_attrs, mid, pairs(m.metadata@));
    let s1 = MetricsState { names: st.names.push(dict_text(m.name@)), ..st };
    let s2 = MetricsState {
        units: st.units.push(dict_text(m.unit@)),
        metrics: st.metrics.push(metric_row(m, rid, sid)),
        metric_attrs: end.0,
        ..s1
    };
    match m.data {
        None => {},
        Some(MetricData::Gauge(g)) => lemma_numbers_room(s2, g.data_points@, mid, d),
        Some(MetricData::Sum(s)) => lemma_numbers_room(s2, s.data_points@, mid, d),
        Some(MetricData::Histogram(h)) => lemma_hists_room(s2, h.data_points@, mid, d),
        Some(MetricData::ExponentialHistogram(h)) => lemma_exps_room(s2, h.data_points@, mid, d),
        Some(MetricData::Summary(s)) => lemma_summs_room(s2, s.data_points@, mid, d),
    }
}

proof fn lemma_metrics_room(st: MetricsState, ms: Seq<Metric>, rid: u16, sid: u16, d: Demand)
    requires
        has_room(st, d.and(metrics_demand(ms))),
    ensures
        with_metrics(st, ms, rid, sid).2 is None,
        with_metrics(st, ms, rid, sid).1 == metrics_size(ms).points,
        has_room(with_metrics(st, ms, rid, sid).0, d),
        is_even(st) ==> is_even(with_metrics(st, ms, rid, sid).0),
    decreases ms.len(),
{
    if ms.len() > 0 {
        let rest = ms.skip(1);
        lemma_metric_room(st, ms[0], rid, sid, d.and(metrics_demand(rest)));
        lemma_metrics_room(with_metric(st, ms[0], rid, sid).0, rest, rid, sid, d);
    }
}

proof fn lemma_scopes_room(st: MetricsState, sms: Seq<ScopeMetrics>, rid: u16, d: Demand)
    requires
        has_room(st, d.and(scopes_demand(sms))),
    ensures
        with_scope_metrics(st, sms, rid).2 is None,
        with_scope_metrics(st, sms, rid).1 == scopes_size(sms).points,
        has_room(with_scope_metrics(st, sms, rid).0, d),
        is_even(st) ==> is_even(with_scope_metrics(st, sms, rid).0),
    decreases sms.len(),
{
    if sms.len() > 0 {
        let rest = sms.skip(1);
        let e = scopes_demand(rest);
        let ms = sms[0].metrics@;
        let inner = metrics_demand(ms);
        lemma_scope_room(
            st.rs,
            sms[0].scope,
            d.resources + e.resources + inner.resources,
            d.scopes + e.scopes + inner.scopes,
            d.res_kv + e.res_kv + inner.res_kv,
            d.scope_kv + e.scope_kv + inner.scope_kv,
        );
        let (rs, o) = with_scope(st.rs, sms[0].scope);
        let s0 = MetricsState { rs, ..st };
        let sid = o->Id_0;
        lemma_metrics_room(s0, ms, rid, sid, d.and(e));
        lemma_scopes_room(with_metrics(s0, ms, rid, sid).0, rest, rid, d);
    }
}

proof fn lemma_request_room(st: MetricsState, rms: Seq<ResourceMetrics>)
    requires
        has_room(st, request_demand(rms)),
    ensures
        with_resource_metrics(st, rms).2 is None,
        with_resource_metrics(st, rms).1 == request_size(rms).points,
        is_even(st) ==> is_even(with_resource_metrics(st, rms).0),
    decreases rms.len(),
{
    if rms.len() > 0 {
        let rest = rms.skip(1);
        let e = request_demand(rest);
        let sms = rms[0].scope_metrics@;
        let inner = scopes_demand(sms);
        lemma_resource_room(
            st.rs,
            rms[0].resource,
            e.resources + inner.resources,
            e.scopes + inner.scopes,
            e.res_kv + inner.res_kv,
            e.scope_kv + inner.scope_kv,
        );
        let (rs, o) = with_resource(st.rs, rms[0].resource);
        let s0 = MetricsState { rs, ..st };
        let rid = o->Id_0;
        lemma_scopes_room(s0, sms, rid, e);
        lemma_request_room(with_scope_metrics(s0, sms, rid).0, rest);
    }
}

/// A request for which there is headroom is absorbed whole, every point of it,
/// and what is accumulated can be sealed. The distinct strings must stay within
/// what 32-bit positions tell apart.
pub proof fn law_metrics_headroom_is_a_promise(st: MetricsState, rms: Seq<ResourceMetrics>)
    requires
        leaves_room(st, request_demand(rms)),
        is_even(st),
        firsts(strs_in(st.metric_attrs)).len() + request_demand(rms).meta_kv <= str_cap(),
        firsts(strs_in(st.dp_attrs)).len() + request_demand(rms).dp_kv <= str_cap(),
        firsts(strs_in(st.exemplar_attrs)).len() + request_demand(rms).ex_kv <= str_cap(),
        firsts(strs_in(st.rs.resource_attrs)).len() + request_demand(rms).res_kv <= str_cap(),
        firsts(strs_in(st.rs.scope_attrs)).len() + request_demand(rms).scope_kv <= str_cap(),
    ensures
        with_resource_metrics(st, rms).2 is None,
        with_resource_metrics(st, rms).1 == request_size(rms).points,
        is_even(with_resource_metrics(st, rms).0),
{
    lemma_request_room(st, rms);
}

} // verus!
