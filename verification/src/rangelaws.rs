//! The time range of a block, over what came into it.

use crate::attrs::appended;
use crate::ingestlaws::{items_of, points_of, stored_time, Item, Point};
use crate::interning::{with_resource, with_scope, Outcome};
use crate::logs::{
    logs_sealed_of, with_record, with_records, with_resource_logs, with_scope_logs, LogsState,
};
use crate::metrics::{
    metrics_sealed_of, with_data, with_exemplars, with_exp, with_exps, with_hist, with_hists,
    with_metric, with_metrics, with_number, with_numbers, with_point, with_resource_metrics,
    with_scope_metrics, with_summ, with_summs, with_tail, MetricsState,
};
use crate::otlp::{
    pairs, Exemplar, ExponentialHistogramDataPoint, HistogramDataPoint, InstrumentationScope,
    KeyValue, LogRecord, Metric, MetricData, NumberDataPoint, Resource, ResourceLogs,
    ResourceMetrics, ScopeLogs, ScopeMetrics, SummaryDataPoint,
};
use crate::recordlaws::{entries_of, made_at, Entry};
use crate::signal::{Sealed, Sidecars};
use vstd::prelude::*;

verus! {

/// A range that reaches as far as it did and as these times, and no further.
pub open spec fn is_stretched(lo0: i64, hi0: i64, lo: i64, hi: i64, ts: Seq<int>) -> bool {
    &&& lo <= lo0
    &&& hi0 <= hi
    &&& forall|i: int| 0 <= i < ts.len() ==> lo <= #[trigger] ts[i] <= hi
    &&& lo == lo0 || ts.contains(lo as int)
    &&& hi == hi0 || ts.contains(hi as int)
}

proof fn lemma_stretched(
    lo0: i64,
    hi0: i64,
    lo1: i64,
    hi1: i64,
    lo2: i64,
    hi2: i64,
    a: Seq<int>,
    b: Seq<int>,
)
    requires
        is_stretched(lo0, hi0, lo1, hi1, a),
        is_stretched(lo1, hi1, lo2, hi2, b),
    ensures
        is_stretched(lo0, hi0, lo2, hi2, a + b),
{
    let c = a + b;
    assert forall|i: int| 0 <= i < c.len() implies lo2 <= #[trigger] c[i] <= hi2 by {
        if i < a.len() {
            assert(c[i] == a[i]);
        } else {
            assert(c[i] == b[i - a.len()]);
        }
    }
    assert forall|x: int| a.contains(x) || b.contains(x) implies #[trigger] c.contains(x) by {
        if a.contains(x) {
            assert(c[a.index_of(x)] == x);
        } else {
            assert(c[a.len() + b.index_of(x)] == x);
        }
    }
}

// ---------------------------------------------------------------------------
// Records.

/// When some records were made.
pub open spec fn times_of(es: Seq<Entry>, now: i64) -> Seq<int> {
    es.map_values(|e: Entry| made_at(e.record, now))
}

spec fn record_times(recs: Seq<LogRecord>, now: i64) -> Seq<int> {
    recs.map_values(|r: LogRecord| made_at(r, now))
}

/// Whether a range of accumulated records was stretched by these times. Where a
/// record was refused nothing is said.
spec fn logs_stretched(st: LogsState, end: LogsState, e: Option<Seq<char>>, ts: Seq<int>) -> bool {
    e is None ==> is_stretched(st.min_ts, st.max_ts, end.min_ts, end.max_ts, ts)
}

proof fn lemma_records(st: LogsState, recs: Seq<LogRecord>, rid: u16, sid: u16, now: i64)
    ensures
        ({
            let end = with_records(st, recs, rid, sid, now);
            logs_stretched(st, end.0, end.2, record_times(recs, now))
        }),
    decreases recs.len(),
{
    let end = with_records(st, recs, rid, sid, now);
    if recs.len() > 0 {
        let (s1, e) = with_record(st, recs[0], rid, sid, now);
        let first = seq![made_at(recs[0], now)];
        if e is None {
            let rest = recs.skip(1);
            assert(first[0] == made_at(recs[0], now));
            assert(is_stretched(st.min_ts, st.max_ts, s1.min_ts, s1.max_ts, first));
            lemma_records(s1, rest, rid, sid, now);
            if end.2 is None {
                lemma_stretched(
                    st.min_ts,
                    st.max_ts,
                    s1.min_ts,
                    s1.max_ts,
                    end.0.min_ts,
                    end.0.max_ts,
                    first,
                    record_times(rest, now),
                );
                assert(first + record_times(rest, now) =~= record_times(recs, now));
            }
        }
    }
}

proof fn lemma_scopes(st: LogsState, sls: Seq<ScopeLogs>, resource: Option<Resource>, rid: u16, now: i64)
    ensures
        ({
            let end = with_scope_logs(st, sls, rid, now);
            logs_stretched(
                st,
                end.0,
                end.2,
                times_of(crate::recordlaws::entries_of_scopes(sls, resource), now),
            )
        }),
    decreases sls.len(),
{
    let end = with_scope_logs(st, sls, rid, now);
    if sls.len() > 0 {
        let (rs, o) = with_scope(st.rs, sls[0].scope);
        let s0 = LogsState { rs, ..st };
        if let Outcome::Id(sid) = o {
            let recs = sls[0].log_records@;
            lemma_records(s0, recs, rid, sid, now);
            let mid = with_records(s0, recs, rid, sid, now);
            if mid.2 is None {
                let rest = sls.skip(1);
                lemma_scopes(mid.0, rest, resource, rid, now);
                if end.2 is None {
                    let later = crate::recordlaws::entries_of_scopes(rest, resource);
                    lemma_stretched(
                        st.min_ts,
                        st.max_ts,
                        mid.0.min_ts,
                        mid.0.max_ts,
                        end.0.min_ts,
                        end.0.max_ts,
                        record_times(recs, now),
                        times_of(later, now),
                    );
                    assert(record_times(recs, now) + times_of(later, now) =~= times_of(
                        crate::recordlaws::entries_of_scopes(sls, resource),
                        now,
                    ));
                }
            }
        }
    }
}

proof fn lemma_resources(st: LogsState, rls: Seq<ResourceLogs>, now: i64)
    ensures
        ({
            let end = with_resource_logs(st, rls, now);
            logs_stretched(st, end.0, end.2, times_of(entries_of(rls), now))
        }),
    decreases rls.len(),
{
    let end = with_resource_logs(st, rls, now);
    if rls.len() > 0 {
        let (rs, o) = with_resource(st.rs, rls[0].resource);
        let s0 = LogsState { rs, ..st };
        if let Outcome::Id(rid) = o {
            let sls = rls[0].scope_logs@;
            lemma_scopes(s0, sls, rls[0].resource, rid, now);
            let mid = with_scope_logs(s0, sls, rid, now);
            if mid.2 is None {
                let rest = rls.skip(1);
                lemma_resources(mid.0, rest, now);
                if end.2 is None {
                    let first = crate::recordlaws::entries_of_scopes(sls, rls[0].resource);
                    lemma_stretched(
                        st.min_ts,
                        st.max_ts,
                        mid.0.min_ts,
                        mid.0.max_ts,
                        end.0.min_ts,
                        end.0.max_ts,
                        times_of(first, now),
                        times_of(entries_of(rest), now),
                    );
                    assert(times_of(first, now) + times_of(entries_of(rest), now) =~= times_of(
                        entries_of(rls),
                        now,
                    ));
                }
            }
        }
    }
}

/// The range of a logs block that was sealed from one request starts at the
/// earliest of its records and ends at the latest, where they are no earlier
/// than the epoch.
pub proof fn law_a_logs_block_ranges_over_its_records(
    rls: Seq<ResourceLogs>,
    now: i64,
    b: Sealed,
    sidecars: Sidecars,
    k: int,
)
    requires
        with_resource_logs(LogsState::none(), rls, now).2 is None,
        logs_sealed_of(b, with_resource_logs(LogsState::none(), rls, now).0, sidecars),
        now >= 0,
        0 <= k < entries_of(rls).len(),
    ensures
        b.min_ts <= made_at(entries_of(rls)[k].record, now) <= b.max_ts,
        exists|i: int|
            0 <= i < entries_of(rls).len() && made_at((#[trigger] entries_of(rls)[i]).record, now)
                == b.min_ts,
        exists|i: int|
            0 <= i < entries_of(rls).len() && made_at((#[trigger] entries_of(rls)[i]).record, now)
                == b.max_ts,
{
    let es = entries_of(rls);
    let ts = times_of(es, now);
    let end = with_resource_logs(LogsState::none(), rls, now).0;
    lemma_resources(LogsState::none(), rls, now);
    assert(ts[k] == made_at(es[k].record, now));
    assert(ts.contains(ts[k]));
    assert(ts.contains(end.min_ts as int)) by {
        if end.min_ts == i64::MAX {
            assert(ts[k] == i64::MAX);
        }
    }
    assert(ts.contains(end.max_ts as int)) by {
        if end.max_ts == i64::MIN {
            assert(ts[k] == i64::MIN);
        }
    }
    let (i, j) = (ts.index_of(end.min_ts as int), ts.index_of(end.max_ts as int));
    assert(made_at(es[i].record, now) == end.min_ts);
    assert(made_at(es[j].record, now) == end.max_ts);
    assert(es[i] == entries_of(rls)[i] && es[j] == entries_of(rls)[j]);
}

/// What comes in later stretches the range of what is there, and nothing else
/// does.
pub proof fn law_a_request_stretches_the_range(st: LogsState, rls: Seq<ResourceLogs>, now: i64)
    requires
        with_resource_logs(st, rls, now).2 is None,
    ensures
        is_stretched(
            st.min_ts,
            st.max_ts,
            with_resource_logs(st, rls, now).0.min_ts,
            with_resource_logs(st, rls, now).0.max_ts,
            times_of(entries_of(rls), now),
        ),
{
    lemma_resources(st, rls, now);
}

// ---------------------------------------------------------------------------
// Points.

/// The wire time of a point.
pub open spec fn point_time(p: Point) -> u64 {
    match p {
        Point::Number(p) => p.time_unix_nano,
        Point::Hist(p) => p.time_unix_nano,
        Point::Exp(p) => p.time_unix_nano,
        Point::Summ(p) => p.time_unix_nano,
    }
}

/// When some points were taken, of those that say so.
pub open spec fn taken_at(ps: Seq<Point>) -> Seq<int>
    decreases ps.len(),
{
    if ps.len() == 0 {
        Seq::empty()
    } else if stored_time(point_time(ps[0])) != 0 {
        seq![stored_time(point_time(ps[0]))] + taken_at(ps.skip(1))
    } else {
        taken_at(ps.skip(1))
    }
}

/// When the points of some metrics were taken, of those that say so.
pub open spec fn all_taken_at(items: Seq<Item>) -> Seq<int>
    decreases items.len(),
{
    if items.len() == 0 {
        Seq::empty()
    } else {
        taken_at(points_of(items[0].metric)) + all_taken_at(items.skip(1))
    }
}

proof fn lemma_all_taken(a: Seq<Item>, b: Seq<Item>)
    ensures
        all_taken_at(a + b) == all_taken_at(a) + all_taken_at(b),
    decreases a.len(),
{
    if a.len() == 0 {
        assert(a + b =~= b);
        assert(all_taken_at(a) + all_taken_at(b) =~= all_taken_at(b));
    } else {
        lemma_all_taken(a.skip(1), b);
        assert((a + b).skip(1) =~= a.skip(1) + b);
        assert((a + b)[0] == a[0]);
        let x = taken_at(points_of(a[0].metric));
        assert(x + (all_taken_at(a.skip(1)) + all_taken_at(b)) =~= x + all_taken_at(a.skip(1))
            + all_taken_at(b));
    }
}

spec fn stretched(st: MetricsState, end: MetricsState, e: Option<Seq<char>>, ts: Seq<int>) -> bool {
    e is None ==> is_stretched(st.min_ts, st.max_ts, end.min_ts, end.max_ts, ts)
}

proof fn lemma_stretched_on(
    st: MetricsState,
    mid: MetricsState,
    end: MetricsState,
    a: Seq<int>,
    b: Seq<int>,
)
    requires
        stretched(st, mid, None, a),
        stretched(mid, end, None, b),
    ensures
        stretched(st, end, None, a + b),
{
    lemma_stretched(
        st.min_ts,
        st.max_ts,
        mid.min_ts,
        mid.max_ts,
        end.min_ts,
        end.max_ts,
        a,
        b,
    );
}

proof fn lemma_exemplars_range(st: MetricsState, dp_id: u32, es: Seq<Exemplar>)
    ensures
        with_exemplars(st, dp_id, es).0.min_ts == st.min_ts,
        with_exemplars(st, dp_id, es).0.max_ts == st.max_ts,
    decreases es.len(),
{
    if es.len() > 0 {
        let end = appended(
            st.exemplar_attrs,
            st.exemplars.len() as u32,
            pairs(es[0].filtered_attributes@),
        );
        let s1 = MetricsState {
            exemplars: st.exemplars.push(crate::metrics::exemplar_row(es[0], dp_id)),
            exemplar_attrs: end.0,
            ..st
        };
        if end.1 {
            lemma_exemplars_range(s1, dp_id, es.skip(1));
        }
    }
}

proof fn lemma_tail_range(st: MetricsState, dp_id: u32, attributes: Seq<KeyValue>, es: Seq<Exemplar>)
    ensures
        with_tail(st, dp_id, attributes, es).0.min_ts == st.min_ts,
        with_tail(st, dp_id, attributes, es).0.max_ts == st.max_ts,
{
    let end = appended(st.dp_attrs, dp_id, pairs(attributes));
    lemma_exemplars_range(MetricsState { dp_attrs: end.0, ..st }, dp_id, es);
}

/// The time of one point, where it says when it was taken.
spec fn one_time(t: u64) -> Seq<int> {
    if stored_time(t) != 0 {
        seq![stored_time(t)]
    } else {
        Seq::empty()
    }
}

proof fn lemma_point_range(st: MetricsState, t: u64)
    ensures
        stretched(st, with_point(st, t), None, one_time(t)),
{
    let ts = one_time(t);
    if stored_time(t) != 0 {
        assert(ts[0] == stored_time(t));
        assert(ts.contains(ts[0]));
    }
}

proof fn lemma_with_number_range(st: MetricsState, p: NumberDataPoint, mid: u32)
    ensures
        stretched(st, with_number(st, p, mid).0, None, one_time(p.time_unix_nano)),
{
    let s1 = crate::ingestlaws::before_number(st, p, mid);
    let es: Seq<Exemplar> = p.exemplars@;
    assert(with_number(st, p, mid) == with_tail(s1, st.points as u32, p.attributes@, es));
    lemma_tail_range(s1, st.points as u32, p.attributes@, es);
    lemma_point_range(st, p.time_unix_nano);
}

proof fn lemma_with_numbers_range(st: MetricsState, ps: Seq<NumberDataPoint>, points: Seq<Point>, mid: u32)
    requires
        points.len() == ps.len(),
        forall|j: int| 0 <= j < ps.len() ==> points[j] == Point::Number(#[trigger] ps[j]),
    ensures
        stretched(st, with_numbers(st, ps, mid).0, with_numbers(st, ps, mid).2, taken_at(points)),
    decreases ps.len(),
{
    if ps.len() > 0 {
        let (s1, e) = with_number(st, ps[0], mid);
        lemma_with_number_range(st, ps[0], mid);
        assert(points[0] == Point::Number(ps[0]));
        if e is None {
            let rest = ps.skip(1);
            let others = points.skip(1);
            assert forall|j: int| 0 <= j < rest.len() implies others[j] == Point::Number(
                #[trigger] rest[j],
            ) by {
                assert(rest[j] == ps[j + 1]);
            }
            lemma_with_numbers_range(s1, rest, others, mid);
            let end = with_numbers(st, ps, mid);
            if end.2 is None {
                lemma_stretched_on(
                    st,
                    s1,
                    end.0,
                    one_time(ps[0].time_unix_nano),
                    taken_at(others),
                );
                assert(one_time(ps[0].time_unix_nano) + taken_at(others) =~= taken_at(points));
            }
        }
    }
}

proof fn lemma_with_hist_range(st: MetricsState, p: HistogramDataPoint, mid: u32)
    ensures
        stretched(st, with_hist(st, p, mid).0, None, one_time(p.time_unix_nano)),
{
    let s1 = crate::ingestlaws::before_hist(st, p, mid);
    let es: Seq<Exemplar> = p.exemplars@;
    assert(with_hist(st, p, mid) == with_tail(s1, st.points as u32, p.attributes@, es));
    lemma_tail_range(s1, st.points as u32, p.attributes@, es);
    lemma_point_range(st, p.time_unix_nano);
}

proof fn lemma_with_hists_range(st: MetricsState, ps: Seq<HistogramDataPoint>, points: Seq<Point>, mid: u32)
    requires
        points.len() == ps.len(),
        forall|j: int| 0 <= j < ps.len() ==> points[j] == Point::Hist(#[trigger] ps[j]),
    ensures
        stretched(st, with_hists(st, ps, mid).0, with_hists(st, ps, mid).2, taken_at(points)),
    decreases ps.len(),
{
    if ps.len() > 0 {
        let (s1, e) = with_hist(st, ps[0], mid);
        lemma_with_hist_range(st, ps[0], mid);
        assert(points[0] == Point::Hist(ps[0]));
        if e is None {
            let rest = ps.skip(1);
            let others = points.skip(1);
            assert forall|j: int| 0 <= j < rest.len() implies others[j] == Point::Hist(
                #[trigger] rest[j],
            ) by {
                assert(rest[j] == ps[j + 1]);
            }
            lemma_with_hists_range(s1, rest, others, mid);
            let end = with_hists(st, ps, mid);
            if end.2 is None {
                lemma_stretched_on(
                    st,
                    s1,
                    end.0,
                    one_time(ps[0].time_unix_nano),
                    taken_at(others),
                );
                assert(one_time(ps[0].time_unix_nano) + taken_at(others) =~= taken_at(points));
            }
        }
    }
}

proof fn lemma_with_exp_range(st: MetricsState, p: ExponentialHistogramDataPoint, mid: u32)
    ensures
        stretched(st, with_exp(st, p, mid).0, None, one_time(p.time_unix_nano)),
{
    let s1 = crate::ingestlaws::before_exp(st, p, mid);
    let es: Seq<Exemplar> = p.exemplars@;
    assert(with_exp(st, p, mid) == with_tail(s1, st.points as u32, p.attributes@, es));
    lemma_tail_range(s1, st.points as u32, p.attributes@, es);
    lemma_point_range(st, p.time_unix_nano);
}

proof fn lemma_with_exps_range(st: MetricsState, ps: Seq<ExponentialHistogramDataPoint>, points: Seq<Point>, mid: u32)
    requires
        points.len() == ps.len(),
        forall|j: int| 0 <= j < ps.len() ==> points[j] == Point::Exp(#[trigger] ps[j]),
    ensures
        stretched(st, with_exps(st, ps, mid).0, with_exps(st, ps, mid).2, taken_at(points)),
    decreases ps.len(),
{
    if ps.len() > 0 {
        let (s1, e) = with_exp(st, ps[0], mid);
        lemma_with_exp_range(st, ps[0], mid);
        assert(points[0] == Point::Exp(ps[0]));
        if e is None {
            let rest = ps.skip(1);
            let others = points.skip(1);
            assert forall|j: int| 0 <= j < rest.len() implies others[j] == Point::Exp(
                #[trigger] rest[j],
            ) by {
                assert(rest[j] == ps[j + 1]);
            }
            lemma_with_exps_range(s1, rest, others, mid);
            let end = with_exps(st, ps, mid);
            if end.2 is None {
                lemma_stretched_on(
                    st,
                    s1,
                    end.0,
                    one_time(ps[0].time_unix_nano),
                    taken_at(others),
                );
                assert(one_time(ps[0].time_unix_nano) + taken_at(others) =~= taken_at(points));
            }
        }
    }
}

proof fn lemma_with_summ_range(st: MetricsState, p: SummaryDataPoint, mid: u32)
    ensures
        stretched(st, with_summ(st, p, mid).0, None, one_time(p.time_unix_nano)),
{
    let s1 = crate::ingestlaws::before_summ(st, p, mid);
    let es: Seq<Exemplar> = Seq::empty();
    assert(with_summ(st, p, mid) == with_tail(s1, st.points as u32, p.attributes@, es));
    lemma_tail_range(s1, st.points as u32, p.attributes@, es);
    lemma_point_range(st, p.time_unix_nano);
}

proof fn lemma_with_summs_range(st: MetricsState, ps: Seq<SummaryDataPoint>, points: Seq<Point>, mid: u32)
    requires
        points.len() == ps.len(),
        forall|j: int| 0 <= j < ps.len() ==> points[j] == Point::Summ(#[trigger] ps[j]),
    ensures
        stretched(st, with_summs(st, ps, mid).0, with_summs(st, ps, mid).2, taken_at(points)),
    decreases ps.len(),
{
    if ps.len() > 0 {
        let (s1, e) = with_summ(st, ps[0], mid);
        lemma_with_summ_range(st, ps[0], mid);
        assert(points[0] == Point::Summ(ps[0]));
        if e is None {
            let rest = ps.skip(1);
            let others = points.skip(1);
            assert forall|j: int| 0 <= j < rest.len() implies others[j] == Point::Summ(
                #[trigger] rest[j],
            ) by {
                assert(rest[j] == ps[j + 1]);
            }
            lemma_with_summs_range(s1, rest, others, mid);
            let end = with_summs(st, ps, mid);
            if end.2 is None {
                lemma_stretched_on(
                    st,
                    s1,
                    end.0,
                    one_time(ps[0].time_unix_nano),
                    taken_at(others),
                );
                assert(one_time(ps[0].time_unix_nano) + taken_at(others) =~= taken_at(points));
            }
        }
    }
}

proof fn lemma_data_range(st: MetricsState, m: Metric, mid: u32)
    ensures
        stretched(
            st,
            with_data(st, m.data, mid).0,
            with_data(st, m.data, mid).2,
            taken_at(points_of(m)),
        ),
{
    let points = points_of(m);
    match m.data {
        None => {},
        Some(MetricData::Gauge(g)) => lemma_with_numbers_range(st, g.data_points@, points, mid),
        Some(MetricData::Sum(s)) => lemma_with_numbers_range(st, s.data_points@, points, mid),
        Some(MetricData::Histogram(h)) => lemma_with_hists_range(st, h.data_points@, points, mid),
        Some(MetricData::ExponentialHistogram(h)) => lemma_with_exps_range(
            st,
            h.data_points@,
            points,
            mid,
        ),
        Some(MetricData::Summary(s)) => lemma_with_summs_range(st, s.data_points@, points, mid),
    }
}

proof fn lemma_metric_range(st: MetricsState, m: Metric, rid: u16, sid: u16)
    ensures
        stretched(
            st,
            with_metric(st, m, rid, sid).0,
            with_metric(st, m, rid, sid).2,
            taken_at(points_of(m)),
        ),
{
    let mid = st.metrics.len() as u32;
    let attrs = appended(st.metric_attrs, mid, pairs(m.metadata@));
    let s2 = MetricsState {
        names: st.names.push(crate::logs::dict_text(m.name@)),
        units: st.units.push(crate::logs::dict_text(m.unit@)),
        metrics: st.metrics.push(crate::metrics::metric_row(m, rid, sid)),
        metric_attrs: attrs.0,
        ..st
    };
    lemma_data_range(s2, m, mid);
}

proof fn lemma_metrics_range(
    st: MetricsState,
    ms: Seq<Metric>,
    resource: Option<Resource>,
    scope: Option<InstrumentationScope>,
    rid: u16,
    sid: u16,
)
    ensures
        stretched(
            st,
            with_metrics(st, ms, rid, sid).0,
            with_metrics(st, ms, rid, sid).2,
            all_taken_at(crate::ingestlaws::items_of_scope(ms, resource, scope)),
        ),
    decreases ms.len(),
{
    if ms.len() > 0 {
        let items = crate::ingestlaws::items_of_scope(ms, resource, scope);
        let (s1, n, e) = with_metric(st, ms[0], rid, sid);
        lemma_metric_range(st, ms[0], rid, sid);
        if e is None {
            let rest = ms.skip(1);
            lemma_metrics_range(s1, rest, resource, scope, rid, sid);
            let end = with_metrics(st, ms, rid, sid);
            assert(items.skip(1) =~= crate::ingestlaws::items_of_scope(rest, resource, scope));
            assert(items[0].metric == ms[0]);
            if end.2 is None {
                lemma_stretched_on(
                    st,
                    s1,
                    end.0,
                    taken_at(points_of(ms[0])),
                    all_taken_at(items.skip(1)),
                );
            }
        }
    }
}

proof fn lemma_scope_metrics_range(
    st: MetricsState,
    sms: Seq<ScopeMetrics>,
    resource: Option<Resource>,
    rid: u16,
)
    ensures
        stretched(
            st,
            with_scope_metrics(st, sms, rid).0,
            with_scope_metrics(st, sms, rid).2,
            all_taken_at(crate::ingestlaws::items_of_scopes(sms, resource)),
        ),
    decreases sms.len(),
{
    if sms.len() > 0 {
        let (rs, o) = with_scope(st.rs, sms[0].scope);
        let s0 = MetricsState { rs, ..st };
        if let Outcome::Id(sid) = o {
            let ms = sms[0].metrics@;
            let first = crate::ingestlaws::items_of_scope(ms, resource, sms[0].scope);
            let rest = sms.skip(1);
            let others = crate::ingestlaws::items_of_scopes(rest, resource);
            lemma_metrics_range(s0, ms, resource, sms[0].scope, rid, sid);
            let mid = with_metrics(s0, ms, rid, sid);
            let end = with_scope_metrics(st, sms, rid);
            if mid.2 is None {
                lemma_scope_metrics_range(mid.0, rest, resource, rid);
                if end.2 is None {
                    lemma_stretched_on(
                        st,
                        mid.0,
                        end.0,
                        all_taken_at(first),
                        all_taken_at(others),
                    );
                    lemma_all_taken(first, others);
                }
            }
        }
    }
}

proof fn lemma_resource_metrics_range(st: MetricsState, rms: Seq<ResourceMetrics>)
    ensures
        stretched(
            st,
            with_resource_metrics(st, rms).0,
            with_resource_metrics(st, rms).2,
            all_taken_at(items_of(rms)),
        ),
    decreases rms.len(),
{
    if rms.len() > 0 {
        let (rs, o) = with_resource(st.rs, rms[0].resource);
        let s0 = MetricsState { rs, ..st };
        if let Outcome::Id(rid) = o {
            let sms = rms[0].scope_metrics@;
            let first = crate::ingestlaws::items_of_scopes(sms, rms[0].resource);
            let rest = rms.skip(1);
            lemma_scope_metrics_range(s0, sms, rms[0].resource, rid);
            let mid = with_scope_metrics(s0, sms, rid);
            let end = with_resource_metrics(st, rms);
            if mid.2 is None {
                lemma_resource_metrics_range(mid.0, rest);
                if end.2 is None {
                    lemma_stretched_on(
                        st,
                        mid.0,
                        end.0,
                        all_taken_at(first),
                        all_taken_at(items_of(rest)),
                    );
                    lemma_all_taken(first, items_of(rest));
                }
            }
        }
    }
}

/// The points of a request stretch the range of what is there by the times they
/// were taken at; a point that does not say when leaves it alone, and when a
/// point started counting never does.
pub proof fn law_points_stretch_the_range(st: MetricsState, rms: Seq<ResourceMetrics>)
    requires
        with_resource_metrics(st, rms).2 is None,
    ensures
        is_stretched(
            st.min_ts,
            st.max_ts,
            with_resource_metrics(st, rms).0.min_ts,
            with_resource_metrics(st, rms).0.max_ts,
            all_taken_at(items_of(rms)),
        ),
{
    lemma_resource_metrics_range(st, rms);
}

/// A sealed metrics block says the range of what has been accumulated, from the
/// epoch on.
pub proof fn law_a_metrics_block_says_its_range(b: Sealed, st: MetricsState)
    requires
        metrics_sealed_of(b, st),
    ensures
        st.min_ts >= 0 ==> b.min_ts == st.min_ts,
        st.max_ts >= 0 ==> b.max_ts == st.max_ts,
        b.min_ts >= 0,
        b.max_ts >= 0,
{
}

} // verus!
