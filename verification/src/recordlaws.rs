//! What a logs block holds of a request: each record in a row of its own, with
//! its own values, its attributes, and the resource and scope it came under.

use crate::cells::{
    entry_at, i32_at, lemma_columns, lemma_log_table_names, lemma_record_names, lemma_tables,
    log_table_names, maybe_bytes_at, maybe_fixed_at, maybe_text_at, maybe_time_at, record_names,
    time_at, u16_at, u32_at,
};
use crate::ingestlaws::{id_of, said, set_time, stored_time};
use crate::interning::{with_resource, with_scope, Outcome};
use crate::internlaws::{
    all_stand, begins, has_attrs, is_faithful, is_number_of, is_scope_number_of, lemma_appended,
    lemma_begins, lemma_has_attrs, lemma_number_on, lemma_rs_later, lemma_scope_number_on,
    lemma_stand_on, lemma_told, lemma_with_resource, lemma_with_scope, rs_later, tells_resource,
    tells_scope,
};
use crate::logs::{
    logs_sealed_of, row_of, with_record, with_records, with_resource_logs, with_scope_logs,
    LogsState,
};
use crate::otlp::{
    pairs, AnyKind, AnyValue, InstrumentationScope, LogRecord, Resource, ResourceLogs, ScopeLogs,
};
use crate::proto::any_bytes;
use crate::scan::{table_named, Named};
use crate::signal::{Sealed, Sidecars};
use crate::table::Field;
use vstd::prelude::*;

verus! {

// ---------------------------------------------------------------------------
// What a request holds.

/// A record, and the resource and the scope it came under.
pub struct Entry {
    pub record: LogRecord,
    pub resource: Option<Resource>,
    pub scope: Option<InstrumentationScope>,
}

/// The records of one scope, each with where it came from.
pub open spec fn entries_of_scope(
    recs: Seq<LogRecord>,
    resource: Option<Resource>,
    scope: Option<InstrumentationScope>,
) -> Seq<Entry> {
    recs.map_values(|r: LogRecord| Entry { record: r, resource, scope })
}

/// The records of several scopes of one resource, in their order.
pub open spec fn entries_of_scopes(sls: Seq<ScopeLogs>, resource: Option<Resource>) -> Seq<Entry>
    decreases sls.len(),
{
    if sls.len() == 0 {
        Seq::empty()
    } else {
        entries_of_scope(sls[0].log_records@, resource, sls[0].scope) + entries_of_scopes(
            sls.skip(1),
            resource,
        )
    }
}

/// The records of a request, in order.
pub open spec fn entries_of(rls: Seq<ResourceLogs>) -> Seq<Entry>
    decreases rls.len(),
{
    if rls.len() == 0 {
        Seq::empty()
    } else {
        entries_of_scopes(rls[0].scope_logs@, rls[0].resource) + entries_of(rls.skip(1))
    }
}

/// When a record was made: its own time, or when it was observed where it has
/// none, or now where it has neither.
pub open spec fn made_at(rec: LogRecord, now: i64) -> int {
    if stored_time(rec.time_unix_nano) != 0 {
        stored_time(rec.time_unix_nano)
    } else if stored_time(rec.observed_time_unix_nano) != 0 {
        stored_time(rec.observed_time_unix_nano)
    } else {
        now as int
    }
}

/// The body of a record, where it is a text.
pub open spec fn text_body(b: Option<AnyValue>) -> Option<Seq<char>> {
    match b {
        Some(v) => match v.value {
            Some(AnyKind::StringValue(s)) => Some(s@),
            _ => None,
        },
        None => None,
    }
}

/// The message of the body of a record, where it is there and no text.
pub open spec fn other_body(b: Option<AnyValue>) -> Option<Seq<u8>> {
    match b {
        Some(v) => match v.value {
            None => None,
            Some(AnyKind::StringValue(_)) => None,
            Some(_) => Some(any_bytes(v.val())),
        },
        None => None,
    }
}

// ---------------------------------------------------------------------------
// What is accumulated of it.

spec fn is_row(s: LogsState, at: int, e: Entry, now: i64) -> bool {
    let rec = e.record;
    &&& 0 <= at < s.rows.len()
    &&& at < s.severity.len()
    &&& at < s.event.len()
    &&& s.rows[at].time == made_at(rec, now)
    &&& s.rows[at].observed == set_time(rec.observed_time_unix_nano)
    &&& s.rows[at].severity_number == rec.severity_number
    &&& s.severity[at] == said(rec.severity_text@)
    &&& s.event[at] == said(rec.event_name@)
    &&& s.rows[at].body == text_body(rec.body)
    &&& s.rows[at].body_ser == other_body(rec.body)
    &&& s.rows[at].trace_id == id_of(rec.trace_id@, 16)
    &&& s.rows[at].span_id == id_of(rec.span_id@, 8)
    &&& s.rows[at].flags == rec.flags
    &&& s.rows[at].dropped == rec.dropped_attributes_count
    &&& is_number_of(s.rs, s.rows[at].resource_id as int, e.resource)
    &&& is_scope_number_of(s.rs, s.rows[at].scope_id as int, e.scope)
    &&& all_stand(s.attrs, at, pairs(rec.attributes@))
}

spec fn is_later(a: LogsState, b: LogsState) -> bool {
    &&& begins(a.rows, b.rows)
    &&& begins(a.severity, b.severity)
    &&& begins(a.event, b.event)
    &&& begins(a.attrs, b.attrs)
    &&& rs_later(a.rs, b.rs)
}

proof fn lemma_later(a: LogsState, b: LogsState, c: LogsState)
    requires
        is_later(a, b),
        is_later(b, c),
    ensures
        is_later(a, c),
{
    lemma_begins(a.rows, b.rows, c.rows);
    lemma_begins(a.severity, b.severity, c.severity);
    lemma_begins(a.event, b.event, c.event);
    lemma_begins(a.attrs, b.attrs, c.attrs);
    lemma_rs_later(a.rs, b.rs, c.rs);
}

proof fn lemma_row_on(a: LogsState, b: LogsState, at: int, e: Entry, now: i64)
    requires
        is_later(a, b),
        is_row(a, at, e, now),
    ensures
        is_row(b, at, e, now),
{
    assert(b.rows[at] == a.rows[at]);
    assert(b.severity[at] == a.severity[at]);
    assert(b.event[at] == a.event[at]);
    lemma_number_on(a.rs, b.rs, a.rows[at].resource_id as int, e.resource);
    lemma_scope_number_on(a.rs, b.rs, a.rows[at].scope_id as int, e.scope);
    lemma_stand_on(a.attrs, b.attrs, at, pairs(e.record.attributes@));
}

spec fn is_level(s: LogsState) -> bool {
    s.severity.len() == s.rows.len() && s.event.len() == s.rows.len()
}

/// Each of these records is kept, in the rows from this one on.
spec fn all_kept(s: LogsState, from: nat, es: Seq<Entry>, now: i64) -> bool {
    forall|k: int| 0 <= k < es.len() ==> is_row(s, from + k, #[trigger] es[k], now)
}

/// What is owed of absorbing some records.
spec fn is_absorbed(
    st: LogsState,
    end: (LogsState, nat, Option<Seq<char>>),
    es: Seq<Entry>,
    now: i64,
) -> bool {
    &&& is_later(st, end.0)
    &&& end.2 is None ==> {
        &&& end.0.rows.len() == st.rows.len() + es.len()
        &&& end.1 == es.len()
        &&& is_level(st) ==> is_level(end.0)
        &&& is_faithful(end.0.rs)
        &&& end.0.rows.len() <= u32::MAX && is_level(st) ==> all_kept(
            end.0,
            st.rows.len(),
            es,
            now,
        )
    }
}

proof fn lemma_absorbed_both(
    st: LogsState,
    mid: (LogsState, nat, Option<Seq<char>>),
    rest: (LogsState, nat, Option<Seq<char>>),
    end: (LogsState, nat, Option<Seq<char>>),
    a: Seq<Entry>,
    b: Seq<Entry>,
    now: i64,
)
    requires
        is_absorbed(st, mid, a, now),
        mid.2 is None,
        is_absorbed(mid.0, rest, b, now),
        end.0 == rest.0,
        end.1 == mid.1 + rest.1,
        end.2 == rest.2,
    ensures
        is_absorbed(st, end, a + b, now),
{
    lemma_later(st, mid.0, end.0);
    if end.2 is None && end.0.rows.len() <= u32::MAX && is_level(st) {
        let c = a + b;
        assert forall|k: int| 0 <= k < c.len() implies is_row(
            end.0,
            st.rows.len() + k,
            #[trigger] c[k],
            now,
        ) by {
            if k < a.len() {
                assert(c[k] == a[k]);
                lemma_row_on(mid.0, end.0, st.rows.len() + k, a[k], now);
            } else {
                assert(c[k] == b[k - a.len()]);
            }
        }
    }
}

proof fn lemma_with_record(st: LogsState, e: Entry, rid: u16, sid: u16, now: i64)
    requires
        is_faithful(st.rs),
        is_number_of(st.rs, rid as int, e.resource),
        is_scope_number_of(st.rs, sid as int, e.scope),
    ensures
        is_absorbed(
            st,
            (
                with_record(st, e.record, rid, sid, now).0,
                1,
                with_record(st, e.record, rid, sid, now).1,
            ),
            seq![e],
            now,
        ),
        with_record(st, e.record, rid, sid, now).0.rs == st.rs,
{
    let rec = e.record;
    let (s, label) = with_record(st, rec, rid, sid, now);
    let at = st.rows.len();
    let kvs = pairs(rec.attributes@);
    lemma_appended(st.attrs, at as u32, kvs);
    assert(is_later(st, s));
    if label is None && s.rows.len() <= u32::MAX && is_level(st) {
        assert(at as u32 == at);
        assert(s.rows[at as int] == row_of(rec, rid, sid, now));
        if let Some(v) = rec.body {
            assert(v.val() is Str <==> v.value matches Some(AnyKind::StringValue(_)));
            assert(v.val() is Empty <==> v.value is None);
        }
        assert(is_row(s, at as int, e, now));
        assert forall|k: int| 0 <= k < seq![e].len() implies is_row(
            s,
            at + k,
            #[trigger] seq![e][k],
            now,
        ) by {}
    }
}

proof fn lemma_with_records(
    st: LogsState,
    recs: Seq<LogRecord>,
    resource: Option<Resource>,
    scope: Option<InstrumentationScope>,
    rid: u16,
    sid: u16,
    now: i64,
)
    requires
        is_faithful(st.rs),
        is_number_of(st.rs, rid as int, resource),
        is_scope_number_of(st.rs, sid as int, scope),
    ensures
        is_absorbed(
            st,
            with_records(st, recs, rid, sid, now),
            entries_of_scope(recs, resource, scope),
            now,
        ),
    decreases recs.len(),
{
    let es = entries_of_scope(recs, resource, scope);
    if recs.len() > 0 {
        let e = Entry { record: recs[0], resource, scope };
        lemma_with_record(st, e, rid, sid, now);
        let (s1, label) = with_record(st, recs[0], rid, sid, now);
        if label is None {
            let rest = recs.skip(1);
            lemma_with_records(s1, rest, resource, scope, rid, sid, now);
            lemma_absorbed_both(
                st,
                (s1, 1, label),
                with_records(s1, rest, rid, sid, now),
                with_records(st, recs, rid, sid, now),
                seq![e],
                entries_of_scope(rest, resource, scope),
                now,
            );
            assert(seq![e] + entries_of_scope(rest, resource, scope) =~= es);
        }
    }
}

proof fn lemma_with_scopes(
    st: LogsState,
    sls: Seq<ScopeLogs>,
    resource: Option<Resource>,
    rid: u16,
    now: i64,
)
    requires
        is_faithful(st.rs),
        is_number_of(st.rs, rid as int, resource),
    ensures
        is_absorbed(
            st,
            with_scope_logs(st, sls, rid, now),
            entries_of_scopes(sls, resource),
            now,
        ),
    decreases sls.len(),
{
    if sls.len() > 0 {
        let (rs, o) = with_scope(st.rs, sls[0].scope);
        let s0 = LogsState { rs, ..st };
        lemma_with_scope(st.rs, sls[0].scope);
        assert(is_later(st, s0));
        if let Outcome::Id(sid) = o {
            let recs = sls[0].log_records@;
            let first = entries_of_scope(recs, resource, sls[0].scope);
            let rest = sls.skip(1);
            lemma_number_on(st.rs, rs, rid as int, resource);
            lemma_with_records(s0, recs, resource, sls[0].scope, rid, sid, now);
            let mid = with_records(s0, recs, rid, sid, now);
            lemma_later(st, s0, mid.0);
            assert(is_absorbed(st, mid, first, now));
            if mid.2 is None {
                lemma_number_on(rs, mid.0.rs, rid as int, resource);
                lemma_with_scopes(mid.0, rest, resource, rid, now);
                lemma_absorbed_both(
                    st,
                    mid,
                    with_scope_logs(mid.0, rest, rid, now),
                    with_scope_logs(st, sls, rid, now),
                    first,
                    entries_of_scopes(rest, resource),
                    now,
                );
            }
        }
    }
}

proof fn lemma_with_resources(st: LogsState, rls: Seq<ResourceLogs>, now: i64)
    requires
        is_faithful(st.rs),
    ensures
        is_absorbed(st, with_resource_logs(st, rls, now), entries_of(rls), now),
    decreases rls.len(),
{
    if rls.len() > 0 {
        let (rs, o) = with_resource(st.rs, rls[0].resource);
        let s0 = LogsState { rs, ..st };
        lemma_with_resource(st.rs, rls[0].resource);
        assert(is_later(st, s0));
        if let Outcome::Id(rid) = o {
            let sls = rls[0].scope_logs@;
            let first = entries_of_scopes(sls, rls[0].resource);
            let rest = rls.skip(1);
            lemma_with_scopes(s0, sls, rls[0].resource, rid, now);
            let mid = with_scope_logs(s0, sls, rid, now);
            lemma_later(st, s0, mid.0);
            assert(is_absorbed(st, mid, first, now));
            if mid.2 is None {
                lemma_with_resources(mid.0, rest, now);
                lemma_absorbed_both(
                    st,
                    mid,
                    with_resource_logs(mid.0, rest, now),
                    with_resource_logs(st, rls, now),
                    first,
                    entries_of(rest),
                    now,
                );
            }
        }
    }
}

// ---------------------------------------------------------------------------
// In the tables of the sealed block.

/// A record stands in a row of the table, by column.
pub open spec fn stores_record(tables: Seq<Named>, row: int, e: Entry, now: i64) -> bool {
    let rec = e.record;
    &&& table_named(tables, "logs"@) matches Some(t)
    &&& 0 <= row < t.rows
    &&& u32_at(t, "id"@, row, row)
    &&& time_at(t, "time_unix_nano"@, row, made_at(rec, now))
    &&& maybe_time_at(t, "observed_time_unix_nano"@, row, set_time(rec.observed_time_unix_nano))
    &&& i32_at(t, "severity_number"@, row, rec.severity_number as int)
    &&& entry_at(t, "severity_text"@, row, rec.severity_text@)
    &&& entry_at(t, "event_name"@, row, rec.event_name@)
    &&& maybe_text_at(t, "body"@, row, text_body(rec.body))
    &&& maybe_bytes_at(t, "body_ser"@, row, other_body(rec.body))
    &&& maybe_fixed_at(t, "trace_id"@, row, id_of(rec.trace_id@, 16))
    &&& maybe_fixed_at(t, "span_id"@, row, id_of(rec.span_id@, 8))
    &&& u32_at(t, "flags"@, row, rec.flags as int)
    &&& u32_at(t, "dropped_attributes_count"@, row, rec.dropped_attributes_count as int)
    &&& exists|rid: u16| #[trigger]
        u16_at(t, "resource_id"@, row, rid as int) && tells_resource(tables, rid as int, e.resource)
    &&& exists|sid: u16| #[trigger]
        u16_at(t, "scope_id"@, row, sid as int) && tells_scope(tables, sid as int, e.scope)
    &&& has_attrs(tables, "log_attrs"@, row, pairs(rec.attributes@))
}

proof fn lemma_log_tables(b: Sealed, st: LogsState, sidecars: Sidecars)
    requires
        logs_sealed_of(b, st, sidecars),
    ensures
        table_named(b.tables@, "logs"@) == Some(b.tables@[0].table),
        table_named(b.tables@, "log_attrs"@) == Some(b.tables@[1].table),
        table_named(b.tables@, "resources"@) == Some(b.tables@[2].table),
        table_named(b.tables@, "resource_attrs"@) == Some(b.tables@[3].table),
        table_named(b.tables@, "scope_attrs"@) == Some(b.tables@[4].table),
        crate::interning::resources_table_of(b.tables@[2].table, st.rs.rows),
        crate::attrs::attrs_table_of(b.tables@[3].table, st.rs.resource_attrs),
        crate::attrs::attrs_table_of(b.tables@[4].table, st.rs.scope_attrs),
{
    let t = b.tables@;
    let v = t.subrange(2, 5);
    assert(v[0] == t[2] && v[1] == t[3] && v[2] == t[4]);
    let names = log_table_names();
    lemma_log_table_names();
    assert forall|i: int| 0 <= i < names.len() implies (#[trigger] t[i]).name@ == names[i] by {
        if i == 0 {
        } else if i == 1 {
        } else if i == 2 {
        } else if i == 3 {
        } else {
            assert(i == 4);
        }
    }
    lemma_tables(t, names);
    assert(names[0] == "logs"@ && names[1] == "log_attrs"@ && names[2] == "resources"@);
    assert(names[3] == "resource_attrs"@ && names[4] == "scope_attrs"@);
}

proof fn lemma_record_cells(tables: Seq<Named>, s: LogsState, row: int, e: Entry, now: i64)
    requires
        table_named(tables, "logs"@) matches Some(t) && crate::logs::logs_table_of(t, s),
        table_named(tables, "log_attrs"@) matches Some(t) && crate::attrs::attrs_table_of(
            t,
            s.attrs,
        ),
        s.rows.len() <= u32::MAX,
        is_row(s, row, e, now),
        tells_resource(tables, s.rows[row].resource_id as int, e.resource),
        tells_scope(tables, s.rows[row].scope_id as int, e.scope),
    ensures
        stores_record(tables, row, e, now),
{
    let t = table_named(tables, "logs"@)->0;
    let names = record_names();
    let held = t.fields@.map_values(|f: Field| f.name@);
    assert(held =~= names);
    assert forall|i: int| 0 <= i < names.len() implies (#[trigger] t.fields@[i]).name@ == names[i] by {
        assert(held[i] == t.fields@[i].name@);
    }
    lemma_record_names();
    lemma_columns(t, names);
    assert(t.named(names[0]) is Some && t.named(names[1]) is Some && t.named(names[2]) is Some);
    assert(t.named(names[3]) is Some && t.named(names[4]) is Some && t.named(names[5]) is Some);
    assert(t.named(names[6]) is Some && t.named(names[7]) is Some && t.named(names[8]) is Some);
    assert(t.named(names[9]) is Some && t.named(names[10]) is Some && t.named(names[11]) is Some);
    assert(t.named(names[12]) is Some && t.named(names[13]) is Some);
    assert(crate::columns::counting(s.rows.len())[row] == row);
    lemma_has_attrs(tables, "log_attrs"@, s.attrs, row, pairs(e.record.attributes@));
    assert(u16_at(t, "resource_id"@, row, s.rows[row].resource_id as int));
    assert(u16_at(t, "scope_id"@, row, s.rows[row].scope_id as int));
}

/// A request that was absorbed whole is in the block that is sealed from it: its
/// `k`-th record stands in the row of the number of those before it, with its
/// own values in the columns of their names. As many records are acknowledged as
/// the request has.
pub proof fn law_a_request_is_recorded(
    st: LogsState,
    rls: Seq<ResourceLogs>,
    now: i64,
    b: Sealed,
    sidecars: Sidecars,
    k: int,
)
    requires
        st.severity.len() == st.rows.len(),
        st.event.len() == st.rows.len(),
        is_faithful(st.rs),
        with_resource_logs(st, rls, now).2 is None,
        with_resource_logs(st, rls, now).0.rows.len() <= u32::MAX,
        logs_sealed_of(b, with_resource_logs(st, rls, now).0, sidecars),
        0 <= k < entries_of(rls).len(),
    ensures
        stores_record(b.tables@, st.rows.len() + k, entries_of(rls)[k], now),
        with_resource_logs(st, rls, now).1 == entries_of(rls).len(),
        b.num_rows == st.rows.len() + entries_of(rls).len(),
{
    let s = with_resource_logs(st, rls, now).0;
    let es = entries_of(rls);
    lemma_with_resources(st, rls, now);
    lemma_log_tables(b, s, sidecars);
    lemma_told(b.tables@, s.rs);
    let row = st.rows.len() + k;
    assert(is_row(s, row, es[k], now));
    lemma_record_cells(b.tables@, s, row, es[k], now);
}

/// Nothing has been interned into a block that is new, so what is said of
/// absorbing a request holds of the first one, and then of each that follows.
pub proof fn law_a_new_block_can_be_recorded_to(rls: Seq<ResourceLogs>, now: i64)
    ensures
        is_faithful(LogsState::none().rs),
        is_faithful(with_resource_logs(LogsState::none(), rls, now).0.rs) || with_resource_logs(
            LogsState::none(),
            rls,
            now,
        ).2 is Some,
        LogsState::none().severity.len() == LogsState::none().rows.len(),
        LogsState::none().event.len() == LogsState::none().rows.len(),
{
    lemma_with_resources(LogsState::none(), rls, now);
}

} // verus!
