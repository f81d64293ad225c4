//! How much room a request asks for, and what it costs.

use crate::attrs::{appended, byteses_in, heap_of, keys_in, sers_in, str_in, strs_in, AttrRow};
use crate::columns::firsts;
use crate::ingestlaws::{
    attributes_of, exemplars_of, items_of, items_of_scope, items_of_scopes, points_of, Item, Point,
};
use crate::logs::{
    all_records, bodies_in, body_sers_in, cost_of, leaves_room, record_attrs, resources_demand,
    scope_records, scopes_demand, with_record, LogsState,
};
use crate::metrics::{
    data_kv, exemplar_kv, exps_kv, hists_kv, metrics_demand, numbers_kv, request_demand, summs_kv,
    MetricsState,
};
use crate::order::utf8;
use crate::otlp::{
    pairs, AnyKind, Exemplar, ExponentialHistogramDataPoint, HistogramDataPoint,
    InstrumentationScope, LogRecord, Metric, MetricData, NumberDataPoint, Pair, Resource,
    ResourceLogs, ResourceMetrics, ScopeLogs, ScopeMetrics, SummaryDataPoint, Val,
};
use crate::proto::any_bytes;
use crate::recordlaws::{
    entries_of, entries_of_scope, entries_of_scopes, other_body, text_body, Entry,
};
use vstd::prelude::*;

verus! {

// ---------------------------------------------------------------------------
// Records.

/// How many attributes some records have.
pub open spec fn attributes_in(es: Seq<Entry>) -> nat
    decreases es.len(),
{
    if es.len() == 0 {
        0
    } else {
        es[0].record.attributes@.len() + attributes_in(es.skip(1))
    }
}

/// How many scopes some resources have.
pub open spec fn scopes_in(rls: Seq<ResourceLogs>) -> nat
    decreases rls.len(),
{
    if rls.len() == 0 {
        0
    } else {
        rls[0].scope_logs@.len() + scopes_in(rls.skip(1))
    }
}

/// How many attributes some resources have.
pub open spec fn resource_attributes_in(rls: Seq<ResourceLogs>) -> nat
    decreases rls.len(),
{
    if rls.len() == 0 {
        0
    } else {
        (match rls[0].resource {
            Some(r) => r.attributes@.len(),
            None => 0,
        }) + resource_attributes_in(rls.skip(1))
    }
}

/// How many attributes some scopes are stored with, at most: a name and a
/// version besides their own.
pub open spec fn attributes_of_scopes(sls: Seq<ScopeLogs>) -> nat
    decreases sls.len(),
{
    if sls.len() == 0 {
        0
    } else {
        (match sls[0].scope {
            Some(s) => s.attributes@.len() + 2,
            None => 2,
        }) + attributes_of_scopes(sls.skip(1))
    }
}

/// How many attributes the scopes of a request have.
pub open spec fn scope_attributes_in(rls: Seq<ResourceLogs>) -> nat
    decreases rls.len(),
{
    if rls.len() == 0 {
        0
    } else {
        attributes_of_scopes(rls[0].scope_logs@) + scope_attributes_in(rls.skip(1))
    }
}

proof fn lemma_attributes_in(a: Seq<Entry>, b: Seq<Entry>)
    ensures
        attributes_in(a + b) == attributes_in(a) + attributes_in(b),
    decreases a.len(),
{
    if a.len() == 0 {
        assert(a + b =~= b);
    } else {
        lemma_attributes_in(a.skip(1), b);
        assert((a + b).skip(1) =~= a.skip(1) + b);
        assert((a + b)[0] == a[0]);
    }
}

proof fn lemma_records_asked(
    recs: Seq<LogRecord>,
    resource: Option<Resource>,
    scope: Option<InstrumentationScope>,
)
    ensures
        record_attrs(recs) == attributes_in(entries_of_scope(recs, resource, scope)),
    decreases recs.len(),
{
    if recs.len() > 0 {
        lemma_records_asked(recs.skip(1), resource, scope);
        let es = entries_of_scope(recs, resource, scope);
        assert(es.skip(1) =~= entries_of_scope(recs.skip(1), resource, scope));
        assert(es[0].record == recs[0]);
    }
}

proof fn lemma_scopes_asked(sls: Seq<ScopeLogs>, resource: Option<Resource>)
    ensures
        ({
            let d = scopes_demand(sls);
            let es = entries_of_scopes(sls, resource);
            &&& d.resources == 0
            &&& d.res_kv == 0
            &&& d.scopes == sls.len()
            &&& d.scope_kv == attributes_of_scopes(sls)
            &&& d.records == es.len()
            &&& d.log_kv == attributes_in(es)
        }),
    decreases sls.len(),
{
    if sls.len() > 0 {
        let recs = sls[0].log_records@;
        lemma_scopes_asked(sls.skip(1), resource);
        lemma_records_asked(recs, resource, sls[0].scope);
        lemma_attributes_in(
            entries_of_scope(recs, resource, sls[0].scope),
            entries_of_scopes(sls.skip(1), resource),
        );
    }
}

proof fn lemma_request_asked(rls: Seq<ResourceLogs>)
    ensures
        ({
            let d = resources_demand(rls);
            let es = entries_of(rls);
            &&& d.resources == rls.len()
            &&& d.res_kv == resource_attributes_in(rls)
            &&& d.scopes == scopes_in(rls)
            &&& d.scope_kv == scope_attributes_in(rls)
            &&& d.records == es.len()
            &&& d.log_kv == attributes_in(es)
        }),
        all_records(rls) == entries_of(rls).len(),
    decreases rls.len(),
{
    if rls.len() > 0 {
        let sls = rls[0].scope_logs@;
        lemma_request_asked(rls.skip(1));
        lemma_scopes_asked(sls, rls[0].resource);
        lemma_scope_count(sls, rls[0].resource);
        lemma_attributes_in(entries_of_scopes(sls, rls[0].resource), entries_of(rls.skip(1)));
    }
}

proof fn lemma_scope_count(sls: Seq<ScopeLogs>, resource: Option<Resource>)
    ensures
        scope_records(sls) == entries_of_scopes(sls, resource).len(),
    decreases sls.len(),
{
    if sls.len() > 0 {
        lemma_scope_count(sls.skip(1), resource);
    }
}

/// A builder has room for a request exactly if no dictionary could come to more
/// than 65,536 entries by it: were every resource and scope of it new, and every
/// severity, event name and attribute key.
pub proof fn law_room_is_where_nothing_overflows(st: LogsState, rls: Seq<ResourceLogs>)
    ensures
        all_records(rls) == entries_of(rls).len(),
        leaves_room(st, resources_demand(rls)) <==> {
            &&& st.rs.resources.len() + rls.len() <= 65536
            &&& st.rs.scopes.len() + scopes_in(rls) <= 65536
            &&& firsts(keys_in(st.rs.resource_attrs)).len() + resource_attributes_in(rls) <= 65536
            &&& firsts(keys_in(st.rs.scope_attrs)).len() + scope_attributes_in(rls) <= 65536
            &&& firsts(keys_in(st.attrs)).len() + attributes_in(entries_of(rls)) <= 65536
            &&& firsts(st.severity).len() + entries_of(rls).len() <= 65536
            &&& firsts(st.event).len() + entries_of(rls).len() <= 65536
        },
{
    lemma_request_asked(rls);
}

// ---------------------------------------------------------------------------
// Points.

/// How many attributes some exemplars have.
pub open spec fn filtered_in(es: Seq<Exemplar>) -> nat
    decreases es.len(),
{
    if es.len() == 0 {
        0
    } else {
        es[0].filtered_attributes@.len() + filtered_in(es.skip(1))
    }
}

/// How many attributes some points have, and how many their exemplars have.
pub open spec fn point_attributes_in(ps: Seq<Point>) -> (nat, nat)
    decreases ps.len(),
{
    if ps.len() == 0 {
        (0, 0)
    } else {
        let rest = point_attributes_in(ps.skip(1));
        (
            attributes_of(ps[0]).len() + rest.0,
            filtered_in(exemplars_of(ps[0])) + rest.1,
        )
    }
}

/// The same over the points of some metrics, with the attributes of the metrics
/// themselves first.
pub open spec fn metric_attributes_in(items: Seq<Item>) -> (nat, nat, nat)
    decreases items.len(),
{
    if items.len() == 0 {
        (0, 0, 0)
    } else {
        let own = point_attributes_in(points_of(items[0].metric));
        let rest = metric_attributes_in(items.skip(1));
        (items[0].metric.metadata@.len() + rest.0, own.0 + rest.1, own.1 + rest.2)
    }
}

proof fn lemma_metric_attributes(a: Seq<Item>, b: Seq<Item>)
    ensures
        metric_attributes_in(a + b).0 == metric_attributes_in(a).0 + metric_attributes_in(b).0,
        metric_attributes_in(a + b).1 == metric_attributes_in(a).1 + metric_attributes_in(b).1,
        metric_attributes_in(a + b).2 == metric_attributes_in(a).2 + metric_attributes_in(b).2,
    decreases a.len(),
{
    if a.len() == 0 {
        assert(a + b =~= b);
    } else {
        lemma_metric_attributes(a.skip(1), b);
        assert((a + b).skip(1) =~= a.skip(1) + b);
        assert((a + b)[0] == a[0]);
    }
}

proof fn lemma_filtered(es: Seq<Exemplar>)
    ensures
        exemplar_kv(es) == filtered_in(es),
    decreases es.len(),
{
    if es.len() > 0 {
        lemma_filtered(es.skip(1));
    }
}

proof fn lemma_number_asked(ps: Seq<NumberDataPoint>, points: Seq<Point>)
    requires
        points.len() == ps.len(),
        forall|j: int| 0 <= j < ps.len() ==> points[j] == Point::Number(#[trigger] ps[j]),
    ensures
        numbers_kv(ps) == point_attributes_in(points),
    decreases ps.len(),
{
    if ps.len() > 0 {
        let rest = ps.skip(1);
        let others = points.skip(1);
        assert forall|j: int| 0 <= j < rest.len() implies others[j] == Point::Number(#[trigger] rest[j]) by {
            assert(rest[j] == ps[j + 1]);
        }
        lemma_number_asked(rest, others);
        assert(points[0] == Point::Number(ps[0]));
        lemma_filtered(ps[0].exemplars@);
    }
}

proof fn lemma_hist_asked(ps: Seq<HistogramDataPoint>, points: Seq<Point>)
    requires
        points.len() == ps.len(),
        forall|j: int| 0 <= j < ps.len() ==> points[j] == Point::Hist(#[trigger] ps[j]),
    ensures
        hists_kv(ps) == point_attributes_in(points),
    decreases ps.len(),
{
    if ps.len() > 0 {
        let rest = ps.skip(1);
        let others = points.skip(1);
        assert forall|j: int| 0 <= j < rest.len() implies others[j] == Point::Hist(#[trigger] rest[j]) by {
            assert(rest[j] == ps[j + 1]);
        }
        lemma_hist_asked(rest, others);
        assert(points[0] == Point::Hist(ps[0]));
        lemma_filtered(ps[0].exemplars@);
    }
}

proof fn lemma_exp_asked(ps: Seq<ExponentialHistogramDataPoint>, points: Seq<Point>)
    requires
        points.len() == ps.len(),
        forall|j: int| 0 <= j < ps.len() ==> points[j] == Point::Exp(#[trigger] ps[j]),
    ensures
        exps_kv(ps) == point_attributes_in(points),
    decreases ps.len(),
{
    if ps.len() > 0 {
        let rest = ps.skip(1);
        let others = points.skip(1);
        assert forall|j: int| 0 <= j < rest.len() implies others[j] == Point::Exp(#[trigger] rest[j]) by {
            assert(rest[j] == ps[j + 1]);
        }
        lemma_exp_asked(rest, others);
        assert(points[0] == Point::Exp(ps[0]));
        lemma_filtered(ps[0].exemplars@);
    }
}

proof fn lemma_summ_asked(ps: Seq<SummaryDataPoint>, points: Seq<Point>)
    requires
        points.len() == ps.len(),
        forall|j: int| 0 <= j < ps.len() ==> points[j] == Point::Summ(#[trigger] ps[j]),
    ensures
        summs_kv(ps) == point_attributes_in(points),
    decreases ps.len(),
{
    if ps.len() > 0 {
        let rest = ps.skip(1);
        let others = points.skip(1);
        assert forall|j: int| 0 <= j < rest.len() implies others[j] == Point::Summ(#[trigger] rest[j]) by {
            assert(rest[j] == ps[j + 1]);
        }
        lemma_summ_asked(rest, others);
        assert(points[0] == Point::Summ(ps[0]));
    }
}

proof fn lemma_data_asked(m: Metric)
    ensures
        data_kv(m.data) == point_attributes_in(points_of(m)),
{
    let points = points_of(m);
    match m.data {
        None => {},
        Some(MetricData::Gauge(g)) => lemma_number_asked(g.data_points@, points),
        Some(MetricData::Sum(s)) => lemma_number_asked(s.data_points@, points),
        Some(MetricData::Histogram(h)) => lemma_hist_asked(h.data_points@, points),
        Some(MetricData::ExponentialHistogram(h)) => lemma_exp_asked(h.data_points@, points),
        Some(MetricData::Summary(s)) => lemma_summ_asked(s.data_points@, points),
    }
}

proof fn lemma_metrics_asked(
    ms: Seq<Metric>,
    resource: Option<Resource>,
    scope: Option<InstrumentationScope>,
)
    ensures
        ({
            let d = metrics_demand(ms);
            let n = metric_attributes_in(items_of_scope(ms, resource, scope));
            &&& d.names == ms.len()
            &&& d.meta_kv == n.0
            &&& d.dp_kv == n.1
            &&& d.ex_kv == n.2
            &&& d.resources == 0 && d.scopes == 0 && d.res_kv == 0 && d.scope_kv == 0
        }),
    decreases ms.len(),
{
    if ms.len() > 0 {
        lemma_metrics_asked(ms.skip(1), resource, scope);
        lemma_data_asked(ms[0]);
        let items = items_of_scope(ms, resource, scope);
        assert(items.skip(1) =~= items_of_scope(ms.skip(1), resource, scope));
        assert(items[0].metric == ms[0]);
    }
}

/// How many attributes some scopes are stored with, at most.
pub open spec fn attributes_of_metric_scopes(sms: Seq<ScopeMetrics>) -> nat
    decreases sms.len(),
{
    if sms.len() == 0 {
        0
    } else {
        (match sms[0].scope {
            Some(s) => s.attributes@.len() + 2,
            None => 2,
        }) + attributes_of_metric_scopes(sms.skip(1))
    }
}

/// How many scopes some resources have, and how many attributes those are stored
/// with, at most.
pub open spec fn metric_scopes_in(rms: Seq<ResourceMetrics>) -> (nat, nat)
    decreases rms.len(),
{
    if rms.len() == 0 {
        (0, 0)
    } else {
        let rest = metric_scopes_in(rms.skip(1));
        (
            rms[0].scope_metrics@.len() + rest.0,
            attributes_of_metric_scopes(rms[0].scope_metrics@) + rest.1,
        )
    }
}

/// How many attributes some resources have.
pub open spec fn metric_resource_attributes_in(rms: Seq<ResourceMetrics>) -> nat
    decreases rms.len(),
{
    if rms.len() == 0 {
        0
    } else {
        (match rms[0].resource {
            Some(r) => r.attributes@.len(),
            None => 0,
        }) + metric_resource_attributes_in(rms.skip(1))
    }
}

proof fn lemma_metric_scopes_asked(sms: Seq<ScopeMetrics>, resource: Option<Resource>)
    ensures
        ({
            let d = crate::metrics::scopes_demand(sms);
            let items = items_of_scopes(sms, resource);
            let n = metric_attributes_in(items);
            &&& d.names == items.len()
            &&& d.meta_kv == n.0
            &&& d.dp_kv == n.1
            &&& d.ex_kv == n.2
            &&& d.scopes == sms.len()
            &&& d.scope_kv == attributes_of_metric_scopes(sms)
            &&& d.resources == 0 && d.res_kv == 0
        }),
    decreases sms.len(),
{
    if sms.len() > 0 {
        let ms = sms[0].metrics@;
        lemma_metric_scopes_asked(sms.skip(1), resource);
        lemma_metrics_asked(ms, resource, sms[0].scope);
        lemma_metric_attributes(
            items_of_scope(ms, resource, sms[0].scope),
            items_of_scopes(sms.skip(1), resource),
        );
    }
}

proof fn lemma_metric_request_asked(rms: Seq<ResourceMetrics>)
    ensures
        ({
            let d = request_demand(rms);
            let n = metric_attributes_in(items_of(rms));
            &&& d.names == items_of(rms).len()
            &&& d.meta_kv == n.0
            &&& d.dp_kv == n.1
            &&& d.ex_kv == n.2
            &&& d.scopes == metric_scopes_in(rms).0
            &&& d.scope_kv == metric_scopes_in(rms).1
            &&& d.resources == rms.len()
            &&& d.res_kv == metric_resource_attributes_in(rms)
        }),
    decreases rms.len(),
{
    if rms.len() > 0 {
        let sms = rms[0].scope_metrics@;
        lemma_metric_request_asked(rms.skip(1));
        lemma_metric_scopes_asked(sms, rms[0].resource);
        lemma_metric_attributes(
            items_of_scopes(sms, rms[0].resource),
            items_of(rms.skip(1)),
        );
    }
}

/// A builder has room for a request of metrics exactly if no dictionary could
/// come to more than 65,536 entries by it.
pub proof fn law_room_for_points_is_where_nothing_overflows(
    st: MetricsState,
    rms: Seq<ResourceMetrics>,
)
    ensures
        crate::metrics::leaves_room(st, request_demand(rms)) <==> {
            let n = metric_attributes_in(items_of(rms));
            &&& st.rs.resources.len() + rms.len() <= 65536
            &&& st.rs.scopes.len() + metric_scopes_in(rms).0 <= 65536
            &&& firsts(keys_in(st.rs.resource_attrs)).len() + metric_resource_attributes_in(rms)
                <= 65536
            &&& firsts(keys_in(st.rs.scope_attrs)).len() + metric_scopes_in(rms).1 <= 65536
            &&& firsts(keys_in(st.metric_attrs)).len() + n.0 <= 65536
            &&& firsts(keys_in(st.dp_attrs)).len() + n.1 <= 65536
            &&& firsts(keys_in(st.exemplar_attrs)).len() + n.2 <= 65536
            &&& firsts(st.names).len() + items_of(rms).len() <= 65536
            &&& firsts(st.units).len() + items_of(rms).len() <= 65536
        },
{
    lemma_metric_request_asked(rms);
}

// ---------------------------------------------------------------------------
// What it costs.

proof fn lemma_firsts(s: Seq<Option<Seq<char>>>, t: Seq<char>)
    ensures
        firsts(s).contains(t) <==> s.contains(Some(t)),
    decreases s.len(),
{
    if s.len() > 0 {
        let r = s.drop_last();
        lemma_firsts(r, t);
        let (a, b) = (firsts(r), firsts(s));
        if r.contains(Some(t)) {
            assert(s[r.index_of(Some(t))] == Some(t));
        }
        if s.contains(Some(t)) && !r.contains(Some(t)) {
            let k = s.index_of(Some(t));
            if k < r.len() {
                assert(r[k] == Some(t));
            }
        }
        if a.contains(t) {
            assert(b[a.index_of(t)] == t);
        }
        if let Some(x) = s.last() {
            assert(s[s.len() - 1] == Some(x));
            if !a.contains(x) {
                assert(b[a.len() as int] == x);
                if b.contains(t) && !a.contains(t) {
                    let k = b.index_of(t);
                    if k < a.len() {
                        assert(a[k] == t);
                    }
                }
            }
        }
    }
}

/// One of the rows has this text.
pub open spec fn has_text(rows: Seq<AttrRow>, t: Seq<char>) -> bool {
    exists|i: int| 0 <= i < rows.len() && (#[trigger] rows[i]).value == Val::Str(t)
}

/// An attribute costs the bytes of its text, unless another one has that text
/// already; the bytes of a byte string; those of the message of a list or a map;
/// and nothing otherwise.
pub proof fn law_an_attribute_costs_its_bytes(rows: Seq<AttrRow>, row: AttrRow)
    ensures
        heap_of(rows.push(row)) == heap_of(rows) + match row.value {
            Val::Str(t) => if has_text(rows, t) {
                0
            } else {
                utf8(t).len()
            },
            Val::Bytes(b) => b.len(),
            Val::Array(v) => any_bytes(Val::Array(v)).len(),
            Val::Kvlist(v) => any_bytes(Val::Kvlist(v)).len(),
            _ => 0,
        },
{
    let more = rows.push(row);
    assert(strs_in(more).drop_last() =~= strs_in(rows));
    assert(byteses_in(more).drop_last() =~= byteses_in(rows));
    assert(sers_in(more).drop_last() =~= sers_in(rows));
    if let Val::Str(t) = row.value {
        lemma_firsts(strs_in(rows), t);
        if has_text(rows, t) {
            let i = choose|i: int| 0 <= i < rows.len() && (#[trigger] rows[i]).value == Val::Str(t);
            assert(strs_in(rows)[i] == Some(t));
        }
        if strs_in(rows).contains(Some(t)) {
            let i = strs_in(rows).index_of(Some(t));
            assert(strs_in(rows)[i] == str_in(rows[i].value));
            assert(rows[i].value == Val::Str(t));
        }
        let seen = firsts(strs_in(rows));
        assert(seen.push(t).drop_last() =~= seen);
    }
}

/// A record costs 64 bytes, 48 more for each of its attributes, the bytes of its
/// body, and what its attributes cost.
pub proof fn law_a_record_costs_what_it_holds(
    st: LogsState,
    rec: LogRecord,
    rid: u16,
    sid: u16,
    now: i64,
)
    requires
        with_record(st, rec, rid, sid, now).1 is None,
    ensures
        ({
            let end = with_record(st, rec, rid, sid, now).0;
            cost_of(end) + heap_of(st.attrs) == cost_of(st) + 64 + 48 * rec.attributes@.len() + (
            match text_body(rec.body) {
                Some(t) => utf8(t).len(),
                None => 0,
            }) + (match other_body(rec.body) {
                Some(b) => b.len(),
                None => 0,
            }) + heap_of(end.attrs)
        }),
{
    let end = with_record(st, rec, rid, sid, now).0;
    let row = crate::logs::row_of(rec, rid, sid, now);
    crate::otlp::lemma_pairs(rec.attributes@);
    lemma_all_appended(st.attrs, st.rows.len() as u32, pairs(rec.attributes@));
    assert(bodies_in(end.rows).drop_last() =~= bodies_in(st.rows));
    assert(body_sers_in(end.rows).drop_last() =~= body_sers_in(st.rows));
    assert(end.rows.last() == row);
    if let Some(v) = rec.body {
        assert(v.val() is Str <==> v.value matches Some(AnyKind::StringValue(_)));
        assert(v.val() is Empty <==> v.value is None);
    }
}

proof fn lemma_all_appended(rows: Seq<AttrRow>, parent: u32, ps: Seq<Pair>)
    ensures
        appended(rows, parent, ps).1 ==> appended(rows, parent, ps).0.len() == rows.len()
            + ps.len(),
    decreases ps.len(),
{
    if ps.len() > 0 {
        let row = AttrRow {
            parent,
            key: ps[0].key,
            value: crate::attrs::value_or_empty(ps[0].value),
        };
        lemma_all_appended(rows.push(row), parent, ps.skip(1));
    }
}

/// What is accumulated of metrics costs 48 bytes for each point, 32 for each
/// metric, 56 for each exemplar, eight for each element of a list and 48 for each
/// attribute, besides the texts and bytes.
pub proof fn law_points_cost_what_they_hold(a: MetricsState, b: MetricsState)
    requires
        b.metrics == a.metrics,
        b.rs == a.rs,
        b.dp_attrs == a.dp_attrs,
        b.metric_attrs == a.metric_attrs,
        b.exemplar_attrs == a.exemplar_attrs,
        a.points <= b.points,
        a.exemplars.len() <= b.exemplars.len(),
        a.list_values <= b.list_values,
    ensures
        crate::metrics::cost_of(b) == crate::metrics::cost_of(a) + 48 * (b.points - a.points) + 56 * (
        b.exemplars.len() - a.exemplars.len()) + 8 * (b.list_values - a.list_values),
{
}

} // verus!
