//! When something is refused for want of room, and what has become of it then.

use crate::attrs::{appended, keys_in, str_cap, strs_in, takes, value_or_empty, AttrRow};
use crate::columns::firsts;
use crate::interning::{resource_bytes, scope_bytes, with_resource, with_scope, Interned, Outcome};
use crate::logs::{with_record, with_records, LogsState};
use crate::metrics::{with_metric, MetricsState};
use crate::otlp::{pairs, InstrumentationScope, LogRecord, Metric, Pair, Resource, Val};
use vstd::prelude::*;

verus! {

/// A column has no room for a text: the text is not empty, no slot has it, and
/// the slots have as many different ones as 16 bits can number.
pub open spec fn is_full_for(slots: Seq<Option<Seq<char>>>, text: Seq<char>) -> bool {
    &&& text.len() > 0
    &&& forall|i: int| 0 <= i < slots.len() ==> #[trigger] slots[i] != Some(text)
    &&& firsts(slots).len() >= 65536
}

proof fn lemma_firsts_are_there(slots: Seq<Option<Seq<char>>>, text: Seq<char>)
    ensures
        firsts(slots).contains(text) <==> exists|i: int|
            0 <= i < slots.len() && #[trigger] slots[i] == Some(text),
    decreases slots.len(),
{
    if slots.len() > 0 {
        let t = slots.drop_last();
        lemma_firsts_are_there(t, text);
        let before = firsts(t);
        let now = firsts(slots);
        if before.contains(text) {
            assert(now[before.index_of(text)] == text);
            let i = choose|i: int| 0 <= i < t.len() && #[trigger] t[i] == Some(text);
            assert(slots[i] == Some(text));
        }
        if now.contains(text) && !before.contains(text) {
            let k = now.index_of(text);
            if k < before.len() {
                assert(before[k] == text);
            }
            assert(slots[slots.len() - 1] == Some(text));
        }
        if exists|i: int| 0 <= i < slots.len() && #[trigger] slots[i] == Some(text) {
            let i = choose|i: int| 0 <= i < slots.len() && #[trigger] slots[i] == Some(text);
            if i < t.len() {
                assert(t[i] == Some(text));
            } else if !before.contains(text) {
                assert(now[now.len() - 1] == text);
            }
        }
    }
}

/// Different texts are numbered once each, and nothing else is numbered.
pub proof fn law_a_dictionary_has_every_text_once(slots: Seq<Option<Seq<char>>>, text: Seq<char>)
    ensures
        firsts(slots).contains(text) <==> exists|i: int|
            0 <= i < slots.len() && #[trigger] slots[i] == Some(text),
        firsts(slots).no_duplicates(),
    decreases slots.len(),
{
    lemma_firsts_are_there(slots, text);
    if slots.len() > 0 {
        law_a_dictionary_has_every_text_once(slots.drop_last(), text);
    }
}

proof fn lemma_takes(slots: Seq<Option<Seq<char>>>, text: Seq<char>)
    ensures
        crate::logs::dict_takes(slots, text) <==> !is_full_for(slots, text),
{
    lemma_firsts_are_there(slots, text);
}

/// An attribute table has no room for an attribute: there are as many keys as 16
/// bits can number and its own is none of them, or its text is new among as many
/// as the table numbers.
pub open spec fn has_no_room(rows: Seq<AttrRow>, p: Pair) -> bool {
    ||| {
        &&& !firsts(keys_in(rows)).contains(p.key)
        &&& firsts(keys_in(rows)).len() >= 65536
    }
    ||| {
        &&& p.value matches Some(Val::Str(s))
        &&& !firsts(strs_in(rows)).contains(s)
        &&& firsts(strs_in(rows)).len() >= str_cap()
    }
}

/// The attributes of a parent as rows.
pub open spec fn rows_of(parent: u32, ps: Seq<Pair>) -> Seq<AttrRow> {
    ps.map_values(
        |p: Pair| AttrRow {
            parent,
            key: p.key,
            value: match p.value {
                Some(v) => v,
                None => Val::Empty,
            },
        },
    )
}

/// Attributes are added in their order, up to the first that there is no room
/// for; where there is room for each, all of them are.
pub proof fn law_attributes_are_added_up_to_the_first_refused(
    rows: Seq<AttrRow>,
    parent: u32,
    ps: Seq<Pair>,
) -> (k: int)
    ensures
        0 <= k <= ps.len(),
        appended(rows, parent, ps).0 == rows + rows_of(parent, ps.take(k)),
        appended(rows, parent, ps).1 <==> k == ps.len(),
        k < ps.len() ==> has_no_room(appended(rows, parent, ps).0, ps[k]),
        forall|j: int|
            0 <= j < k ==> !has_no_room(rows + rows_of(parent, ps.take(j)), #[trigger] ps[j]),
    decreases ps.len(),
{
    if ps.len() == 0 {
        assert(rows + rows_of(parent, ps.take(0)) =~= rows);
        0
    } else {
        let row = AttrRow { parent, key: ps[0].key, value: value_or_empty(ps[0].value) };
        assert(rows + rows_of(parent, ps.take(0)) =~= rows);
        assert(takes(rows, row) <==> !has_no_room(rows, ps[0]));
        if takes(rows, row) {
            let rest = ps.skip(1);
            let k = law_attributes_are_added_up_to_the_first_refused(rows.push(row), parent, rest);
            assert(rows.push(row) + rows_of(parent, rest.take(k)) =~= rows + rows_of(
                parent,
                ps.take(k + 1),
            ));
            assert forall|j: int| 0 <= j < k + 1 implies !has_no_room(
                rows + rows_of(parent, ps.take(j)),
                #[trigger] ps[j],
            ) by {
                if j > 0 {
                    assert(rest[j - 1] == ps[j]);
                    assert(rows.push(row) + rows_of(parent, rest.take(j - 1)) =~= rows + rows_of(
                        parent,
                        ps.take(j),
                    ));
                }
            }
            k + 1
        } else {
            0
        }
    }
}

/// A record is refused by the column of severities or of event names where that
/// has no room for its text, and there is then no row of it; or by the table of
/// attributes, where there is no room for one of them, and its row then stands
/// with the attributes before that one.
pub proof fn law_a_record_is_refused_for_want_of_room(
    st: LogsState,
    rec: LogRecord,
    rid: u16,
    sid: u16,
    now: i64,
)
    ensures
        ({
            let (s, e) = with_record(st, rec, rid, sid, now);
            if is_full_for(st.severity, rec.severity_text@) {
                e == Some("logs.severity_text"@) && s == st
            } else if is_full_for(st.event, rec.event_name@) {
                e == Some("logs.event_name"@) && s.rows == st.rows && s.attrs == st.attrs && s.min_ts
                    == st.min_ts && s.max_ts == st.max_ts && s.event == st.event
            } else {
                &&& e is None || e == Some("log_attrs.key"@)
                &&& s.rows.len() == st.rows.len() + 1
                &&& e is None <==> appended(
                    st.attrs,
                    st.rows.len() as u32,
                    pairs(rec.attributes@),
                ).1
            }
        }),
{
    lemma_takes(st.severity, rec.severity_text@);
    lemma_takes(st.event, rec.event_name@);
}

/// Where one record of several is refused, those before it stand, and they are
/// counted; those after it do not.
pub proof fn law_what_came_before_a_refusal_stands(
    st: LogsState,
    recs: Seq<LogRecord>,
    rid: u16,
    sid: u16,
    now: i64,
)
    ensures
        ({
            let (s, n, e) = with_records(st, recs, rid, sid, now);
            let before = with_records(st, recs.take(n as int), rid, sid, now);
            &&& n <= recs.len()
            &&& e is None <==> n == recs.len()
            &&& before.2 is None
            &&& e is Some ==> (s, e) == with_record(before.0, recs[n as int], rid, sid, now)
            &&& e is None ==> s == before.0
        }),
    decreases recs.len(),
{
    if recs.len() == 0 {
        assert(recs.take(0) =~= recs);
    } else {
        let (s1, e) = with_record(st, recs[0], rid, sid, now);
        if e is None {
            let rest = recs.skip(1);
            law_what_came_before_a_refusal_stands(s1, rest, rid, sid, now);
            let n = with_records(s1, rest, rid, sid, now).1;
            assert(recs.take(n as int + 1).skip(1) =~= rest.take(n as int));
            assert(recs.take(n as int + 1)[0] == recs[0]);
            assert(with_records(st, recs, rid, sid, now).1 == n + 1);
            reveal_with_fuel(with_records, 2);
        } else {
            assert(recs.take(0).len() == 0);
        }
    }
}

/// A resource is refused exactly where it is new and there are as many as 16
/// bits can number, and then nothing has changed; or where there is no room for
/// one of its attributes. So is a scope.
pub proof fn law_what_is_interned_is_refused_for_want_of_room(
    st: Interned,
    r: Option<Resource>,
    s: Option<InstrumentationScope>,
)
    ensures
        ({
            let full = !st.resources.contains(resource_bytes(r)) && st.resources.len() >= 65536;
            let (now, o) = with_resource(st, r);
            &&& full ==> now == st && o == Outcome::Full("resource_id"@)
            &&& !full ==> o is Id || o == Outcome::Full("resource_attrs.key"@)
            &&& st.resources.contains(resource_bytes(r)) ==> now == st && o is Id
        }),
        ({
            let full = !st.scopes.contains(scope_bytes(s)) && st.scopes.len() >= 65536;
            let (now, o) = with_scope(st, s);
            &&& full ==> now == st && o == Outcome::Full("scope_id"@)
            &&& !full ==> o is Id || o == Outcome::Full("scope_attrs.key"@)
            &&& st.scopes.contains(scope_bytes(s)) ==> now == st && o is Id
        }),
{
}

/// A metric is refused by the column of names or of units where that has no room
/// for its text, and there is then no descriptor and no point of it; or by the
/// table of its own attributes, and there is then no point of it.
pub proof fn law_a_metric_is_refused_for_want_of_room(st: MetricsState, m: Metric, rid: u16, sid: u16)
    ensures
        ({
            let (s, n, e) = with_metric(st, m, rid, sid);
            if is_full_for(st.names, m.name@) {
                n == 0 && e == Some("metrics.name"@) && s == st
            } else if is_full_for(st.units, m.unit@) {
                n == 0 && e == Some("metrics.unit"@) && s.metrics == st.metrics && s.points
                    == st.points
            } else if !appended(st.metric_attrs, st.metrics.len() as u32, pairs(m.metadata@)).1 {
                n == 0 && e == Some("metric_attrs.key"@) && s.metrics.len() == st.metrics.len() + 1
                    && s.points == st.points
            } else {
                m.data is None ==> n == 0 && e is None
            }
        }),
{
    lemma_takes(st.names, m.name@);
    lemma_takes(st.units, m.unit@);
}

} // verus!
