//! What the headroom check promises, and what a logs block's range says of its
//! rows.

use crate::attrs::{appended, keys_in, str_cap, str_in, strs_in, takes, value_or_empty, AttrRow};
use crate::columns::firsts;
use crate::interning::{
    resource_bytes, resource_pairs, scope_bytes, scope_pairs, with_resource, with_scope, Interned,
    Outcome,
};
use crate::logs::{
    all_records, dict_text, is_even, leaves_room, record_attrs, resource_demand, resources_demand,
    scope_demand, scope_records, scopes_demand, with_record, with_records, with_resource_logs,
    with_scope_logs, Demand, LogsState,
};
use crate::otlp::{
    lemma_pairs, pairs, InstrumentationScope, LogRecord, Pair, Resource, ResourceLogs, ScopeLogs,
};
use crate::schema::DICT_CAP;
use vstd::prelude::*;

verus! {

/// One more text makes at most one more distinct one.
pub proof fn lemma_firsts_push(s: Seq<Option<Seq<char>>>, t: Option<Seq<char>>)
    ensures
        firsts(s.push(t)).len() <= firsts(s).len() + 1,
        t is None ==> firsts(s.push(t)) == firsts(s),
{
    assert(s.push(t).drop_last() =~= s);
}

/// An attribute table with room for so many more attributes takes them all.
pub proof fn lemma_appended_room(rows: Seq<AttrRow>, parent: u32, ps: Seq<Pair>, n: nat)
    requires
        ps.len() <= n,
        firsts(keys_in(rows)).len() + n <= DICT_CAP,
        firsts(strs_in(rows)).len() + n <= str_cap(),
    ensures
        appended(rows, parent, ps).1,
        firsts(keys_in(appended(rows, parent, ps).0)).len() <= firsts(keys_in(rows)).len() + ps.len(),
        firsts(strs_in(appended(rows, parent, ps).0)).len() <= firsts(strs_in(rows)).len() + ps.len(),
    decreases ps.len(),
{
    if ps.len() > 0 {
        let row = AttrRow { parent, key: ps[0].key, value: value_or_empty(ps[0].value) };
        assert(takes(rows, row));
        assert(keys_in(rows.push(row)) =~= keys_in(rows).push(Some(row.key)));
        assert(strs_in(rows.push(row)) =~= strs_in(rows).push(str_in(row.value)));
        lemma_firsts_push(keys_in(rows), Some(row.key));
        lemma_firsts_push(strs_in(rows), str_in(row.value));
        lemma_appended_room(rows.push(row), parent, ps.skip(1), (n - 1) as nat);
    }
}

/// Whether interned resources and scopes leave room, strings included.
pub open spec fn interned_room(st: Interned, resources: nat, scopes: nat, res_kv: nat, scope_kv: nat) -> bool {
    &&& st.resources.len() + resources <= DICT_CAP
    &&& st.scopes.len() + scopes <= DICT_CAP
    &&& firsts(keys_in(st.resource_attrs)).len() + res_kv <= DICT_CAP
    &&& firsts(keys_in(st.scope_attrs)).len() + scope_kv <= DICT_CAP
    &&& firsts(strs_in(st.resource_attrs)).len() + res_kv <= str_cap()
    &&& firsts(strs_in(st.scope_attrs)).len() + scope_kv <= str_cap()
}

/// A resource for which there is room is interned, and takes no more room than
/// it was counted for.
pub proof fn lemma_resource_room(
    st: Interned,
    r: Option<Resource>,
    resources: nat,
    scopes: nat,
    res_kv: nat,
    scope_kv: nat,
)
    requires
        interned_room(st, resources + 1, scopes, res_kv + resource_demand(r), scope_kv),
    ensures
        with_resource(st, r).1 is Id,
        interned_room(with_resource(st, r).0, resources, scopes, res_kv, scope_kv),
{
    let ps = resource_pairs(r);
    if let Some(x) = r {
        lemma_pairs(x.attributes@);
    }
    if !st.resources.contains(resource_bytes(r)) {
        let id = st.resources.len() as u16;
        lemma_appended_room(st.resource_attrs, id as u32, ps, resource_demand(r));
    }
}

/// A scope for which there is room is interned, and takes no more room than it
/// was counted for.
pub proof fn lemma_scope_room(
    st: Interned,
    s: Option<InstrumentationScope>,
    resources: nat,
    scopes: nat,
    res_kv: nat,
    scope_kv: nat,
)
    requires
        interned_room(st, resources, scopes + 1, res_kv, scope_kv + scope_demand(s)),
    ensures
        with_scope(st, s).1 is Id,
        interned_room(with_scope(st, s).0, resources, scopes, res_kv, scope_kv),
{
    let ps = scope_pairs(s);
    if let Some(x) = s {
        lemma_pairs(x.attributes@);
    }
    if !st.scopes.contains(scope_bytes(s)) {
        let id = st.scopes.len() as u16;
        lemma_appended_room(st.scope_attrs, id as u32, ps, scope_demand(s));
    }
}

/// Whether what a builder holds leaves room for a demand, strings included.
pub open spec fn has_room(st: LogsState, d: Demand) -> bool {
    &&& interned_room(st.rs, d.resources, d.scopes, d.res_kv, d.scope_kv)
    &&& firsts(keys_in(st.attrs)).len() + d.log_kv <= DICT_CAP
    &&& firsts(strs_in(st.attrs)).len() + d.log_kv <= str_cap()
    &&& firsts(st.severity).len() + d.records <= DICT_CAP
    &&& firsts(st.event).len() + d.records <= DICT_CAP
}

proof fn lemma_records_room(
    st: LogsState,
    recs: Seq<LogRecord>,
    rid: u16,
    sid: u16,
    now: i64,
    d: Demand,
)
    requires
        has_room(
            st,
            Demand {
                records: d.records + recs.len(),
                log_kv: d.log_kv + record_attrs(recs),
                ..d
            },
        ),
    ensures
        with_records(st, recs, rid, sid, now).2 is None,
        with_records(st, recs, rid, sid, now).1 == recs.len(),
        has_room(with_records(st, recs, rid, sid, now).0, d),
        is_even(st) ==> is_even(with_records(st, recs, rid, sid, now).0),
    decreases recs.len(),
{
    if recs.len() > 0 {
        let rec = recs[0];
        let rest = recs.skip(1);
        let s1 = with_record(st, rec, rid, sid, now).0;
        lemma_pairs(rec.attributes@);
        lemma_firsts_push(st.severity, dict_text(rec.severity_text@));
        lemma_firsts_push(st.event, dict_text(rec.event_name@));
        lemma_appended_room(
            st.attrs,
            st.rows.len() as u32,
            pairs(rec.attributes@),
            rec.attributes@.len(),
        );
        lemma_records_room(s1, rest, rid, sid, now, d);
    }
}

proof fn lemma_scopes_room(st: LogsState, sls: Seq<ScopeLogs>, rid: u16, now: i64, d: Demand)
    requires
        has_room(
            st,
            ({
                let e = scopes_demand(sls);
                Demand {
                    scopes: d.scopes + e.scopes,
                    scope_kv: d.scope_kv + e.scope_kv,
                    records: d.records + e.records,
                    log_kv: d.log_kv + e.log_kv,
                    ..d
                }
            }),
        ),
    ensures
        with_scope_logs(st, sls, rid, now).2 is None,
        with_scope_logs(st, sls, rid, now).1 == scope_records(sls),
        has_room(with_scope_logs(st, sls, rid, now).0, d),
        is_even(st) ==> is_even(with_scope_logs(st, sls, rid, now).0),
    decreases sls.len(),
{
    if sls.len() > 0 {
        let rest = sls.skip(1);
        let e = scopes_demand(rest);
        let recs = sls[0].log_records@;
        lemma_scope_room(
            st.rs,
            sls[0].scope,
            d.resources,
            d.scopes + e.scopes,
            d.res_kv,
            d.scope_kv + e.scope_kv,
        );
        let (rs, o) = with_scope(st.rs, sls[0].scope);
        let s0 = LogsState { rs, ..st };
        let sid = o->Id_0;
        lemma_records_room(
            s0,
            recs,
            rid,
            sid,
            now,
            Demand {
                scopes: d.scopes + e.scopes,
                scope_kv: d.scope_kv + e.scope_kv,
                records: d.records + e.records,
                log_kv: d.log_kv + e.log_kv,
                ..d
            },
        );
        let s1 = with_records(s0, recs, rid, sid, now).0;
        lemma_scopes_room(s1, rest, rid, now, d);
    }
}

proof fn lemma_resources_room(st: LogsState, rls: Seq<ResourceLogs>, now: i64)
    requires
        has_room(st, resources_demand(rls)),
    ensures
        with_resource_logs(st, rls, now).2 is None,
        with_resource_logs(st, rls, now).1 == all_records(rls),
        is_even(st) ==> is_even(with_resource_logs(st, rls, now).0),
    decreases rls.len(),
{
    if rls.len() > 0 {
        let rest = rls.skip(1);
        let d = resources_demand(rest);
        let e = scopes_demand(rls[0].scope_logs@);
        lemma_resource_room(
            st.rs,
            rls[0].resource,
            d.resources,
            d.scopes + e.scopes,
            d.res_kv,
            d.scope_kv + e.scope_kv,
        );
        let (rs, o) = with_resource(st.rs, rls[0].resource);
        let s0 = LogsState { rs, ..st };
        let rid = o->Id_0;
        lemma_scopes_room(s0, rls[0].scope_logs@, rid, now, d);
        let s1 = with_scope_logs(s0, rls[0].scope_logs@, rid, now).0;
        lemma_resources_room(s1, rest, now);
    }
}

/// A request for which there is headroom is absorbed whole, every record of it,
/// and what is accumulated can be sealed. The distinct strings must stay within
/// what 32-bit positions tell apart.
pub proof fn law_headroom_is_a_promise(st: LogsState, rls: Seq<ResourceLogs>, now: i64)
    requires
        leaves_room(st, resources_demand(rls)),
        is_even(st),
        firsts(strs_in(st.attrs)).len() + resources_demand(rls).log_kv <= str_cap(),
        firsts(strs_in(st.rs.resource_attrs)).len() + resources_demand(rls).res_kv <= str_cap(),
        firsts(strs_in(st.rs.scope_attrs)).len() + resources_demand(rls).scope_kv <= str_cap(),
    ensures
        with_resource_logs(st, rls, now).2 is None,
        with_resource_logs(st, rls, now).1 == all_records(rls),
        is_even(with_resource_logs(st, rls, now).0),
{
    lemma_resources_room(st, rls, now);
}

// ---------------------------------------------------------------------------
// Times.

/// The range covers every row, and no row stands at the epoch or before it.
pub open spec fn is_ranged(st: LogsState) -> bool {
    forall|i: int|
        0 <= i < st.rows.len() ==> 0 < (#[trigger] st.rows[i]).time && st.min_ts <= st.rows[i].time
            <= st.max_ts
}

proof fn lemma_record_ranged(st: LogsState, rec: LogRecord, rid: u16, sid: u16, now: i64)
    requires
        is_ranged(st),
        now > 0,
    ensures
        is_ranged(with_record(st, rec, rid, sid, now).0),
{
    let end = with_record(st, rec, rid, sid, now).0;
    assert forall|i: int| 0 <= i < end.rows.len() implies 0 < (#[trigger] end.rows[i]).time
        && end.min_ts <= end.rows[i].time <= end.max_ts by {
        if i < st.rows.len() {
            assert(end.rows[i] == st.rows[i]);
        }
    }
}

proof fn lemma_records_ranged(st: LogsState, recs: Seq<LogRecord>, rid: u16, sid: u16, now: i64)
    requires
        is_ranged(st),
        now > 0,
    ensures
        is_ranged(with_records(st, recs, rid, sid, now).0),
    decreases recs.len(),
{
    if recs.len() > 0 {
        lemma_record_ranged(st, recs[0], rid, sid, now);
        let (s1, e) = with_record(st, recs[0], rid, sid, now);
        if e is None {
            lemma_records_ranged(s1, recs.skip(1), rid, sid, now);
        }
    }
}

proof fn lemma_scopes_ranged(st: LogsState, sls: Seq<ScopeLogs>, rid: u16, now: i64)
    requires
        is_ranged(st),
        now > 0,
    ensures
        is_ranged(with_scope_logs(st, sls, rid, now).0),
    decreases sls.len(),
{
    if sls.len() > 0 {
        let (rs, o) = with_scope(st.rs, sls[0].scope);
        let s0 = LogsState { rs, ..st };
        assert(is_ranged(s0));
        if let Outcome::Id(sid) = o {
            lemma_records_ranged(s0, sls[0].log_records@, rid, sid, now);
            let (s1, n, e) = with_records(s0, sls[0].log_records@, rid, sid, now);
            if e is None {
                lemma_scopes_ranged(s1, sls.skip(1), rid, now);
            }
        }
    }
}

/// However a request ends, the range of what has been accumulated covers every
/// row of it, and no record without a clock has dragged it to the epoch.
pub proof fn law_range_covers_the_rows(st: LogsState, rls: Seq<ResourceLogs>, now: i64)
    requires
        is_ranged(st),
        now > 0,
    ensures
        is_ranged(with_resource_logs(st, rls, now).0),
    decreases rls.len(),
{
    if rls.len() > 0 {
        let (rs, o) = with_resource(st.rs, rls[0].resource);
        let s0 = LogsState { rs, ..st };
        assert(is_ranged(s0));
        if let Outcome::Id(rid) = o {
            lemma_scopes_ranged(s0, rls[0].scope_logs@, rid, now);
            let (s1, n, e) = with_scope_logs(s0, rls[0].scope_logs@, rid, now);
            if e is None {
                law_range_covers_the_rows(s1, rls.skip(1), now);
            }
        }
    }
}

} // verus!
