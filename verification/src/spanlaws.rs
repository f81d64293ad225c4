//! What a span is found by: its own attributes, those of its resource and scope,
//! and those of its events and links.

use crate::attrs::{attrs_table_of, AttrRow};
use crate::float::Floats;
use crate::opening::{child_names, children_are};
use crate::query::{Op, Signal, Value};
use crate::readback::{lemma_parents, parent_has};
use crate::scan::{
    children_of, children_upto, level_carries, owner_of, owner_upto, table_named, u32s_named, Block,
    Named,
};
use crate::table::{Data, Table};
use vstd::prelude::*;

verus! {

/// The event or link of this number hangs off the span in this row: of those
/// that have the number, the last one says so.
pub open spec fn hangs_off(t: Table, id: u32, span: int) -> bool {
    &&& t.named("id"@) matches Some(a)
    &&& a.data matches Data::U32(ids)
    &&& t.named("parent_id"@) matches Some(b)
    &&& b.data matches Data::U32(parents)
    &&& exists|r: int| #[trigger] is_last_numbered(ids@, t.rows as int, id, r) && parents@[r] == span
}

/// The last of the first `n` that has the number stands at `r`.
pub open spec fn is_last_numbered(ids: Seq<u32>, n: int, id: u32, r: int) -> bool {
    &&& 0 <= r < n
    &&& ids[r] == id
    &&& forall|q: int| r < q < n ==> #[trigger] ids[q] != id
}

proof fn lemma_owner_upto(ids: Seq<u32>, parents: Seq<u32>, n: nat, id: u32) -> (r: int)
    ensures
        owner_upto(ids, parents, n, id) matches Some(p) ==> is_last_numbered(ids, n as int, id, r)
            && parents[r] == p,
        owner_upto(ids, parents, n, id) is None ==> forall|q: int| 0 <= q < n ==> #[trigger] ids[q] != id,
    decreases n,
{
    if n == 0 {
        0
    } else if ids[n - 1] == id {
        n - 1
    } else {
        lemma_owner_upto(ids, parents, (n - 1) as nat, id)
    }
}

proof fn lemma_hangs_off(t: Table, id: u32, span: u32)
    ensures
        owner_of(t, id) == Some(span) <==> hangs_off(t, id, span as int),
{
    if let (Some(ids), Some(parents)) = (u32s_named(t, "id"@), u32s_named(t, "parent_id"@)) {
        let r = lemma_owner_upto(ids, parents, t.rows as nat, id);
        if hangs_off(t, id, span as int) {
            let q = choose|q: int| #[trigger]
                is_last_numbered(ids, t.rows as int, id, q) && parents[q] == span;
            assert(ids[q] == id);
            if q != r {
                assert(ids[r] == id);
            }
        }
        if owner_of(t, id) == Some(span) {
            assert(is_last_numbered(ids, t.rows as int, id, r) && parents[r] == span);
        }
    }
}

/// One of the events or links of a span has an attribute that satisfies the
/// term.
pub open spec fn part_has(
    t: Table,
    rows: Seq<AttrRow>,
    span: int,
    key: Seq<char>,
    op: Op,
    v: Value,
    floats: Floats,
) -> bool {
    exists|id: u32| #[trigger] hangs_off(t, id, span) && parent_has(rows, id, key, op, v, floats)
}

/// The number in a column of a row, of 16 bits.
pub open spec fn number_under(t: Table, name: Seq<char>, row: int, n: u16) -> bool {
    &&& t.named(name) matches Some(c)
    &&& c.data matches Data::U16(v)
    &&& v@[row] == n
}

proof fn lemma_level(tables: Seq<Named>, name: Seq<char>, a: Option<crate::scan::Attrs>, rows: Seq<
    AttrRow,
>, id: u32, key: Seq<char>, op: Op, v: Value, floats: Floats)
    requires
        crate::opening::level_is(a, table_named(tables, name)),
        table_named(tables, name) matches Some(t) && attrs_table_of(t, rows),
    ensures
        level_carries(a, id, key, op, v, floats) <==> parent_has(rows, id, key, op, v, floats),
{
    let t = table_named(tables, name)->0;
    lemma_parents(t, rows, rows.len(), key, op, v, floats, id);
}

/// A span carries a term exactly if one of its own attributes satisfies it, or
/// one of its resource's or its scope's, or one of those of its events or its
/// links.
pub proof fn law_a_span_is_found_by_its_parts(
    tables: Seq<Named>,
    blk: Block,
    own: Seq<AttrRow>,
    resource: Seq<AttrRow>,
    scope: Seq<AttrRow>,
    event: Seq<AttrRow>,
    link: Seq<AttrRow>,
    events: Table,
    links: Table,
    row: u32,
    rid: u16,
    sid: u16,
    key: Seq<char>,
    op: Op,
    v: Value,
    floats: Floats,
)
    requires
        blk.is_of(tables, Signal::Traces),
        row < blk.root.rows,
        table_named(tables, "span_attrs"@) matches Some(t) && attrs_table_of(t, own),
        table_named(tables, "resource_attrs"@) matches Some(t) && attrs_table_of(t, resource),
        table_named(tables, "scope_attrs"@) matches Some(t) && attrs_table_of(t, scope),
        table_named(tables, "span_events"@) == Some(events),
        table_named(tables, "span_event_attrs"@) matches Some(t) && attrs_table_of(t, event),
        table_named(tables, "span_links"@) == Some(links),
        table_named(tables, "span_link_attrs"@) matches Some(t) && attrs_table_of(t, link),
        number_under(*blk.root, "resource_id"@, row as int, rid),
        number_under(*blk.root, "scope_id"@, row as int, sid),
    ensures
        blk.row_carries(row as int, key, op, v, floats) <==> {
            ||| parent_has(own, row, key, op, v, floats)
            ||| parent_has(resource, rid as u32, key, op, v, floats)
            ||| parent_has(scope, sid as u32, key, op, v, floats)
            ||| part_has(events, event, row as int, key, op, v, floats)
            ||| part_has(links, link, row as int, key, op, v, floats)
        },
{
    let cs = blk.children@;
    let names = child_names(Signal::Traces);
    let i = row as int;
    reveal_with_fuel(children_are, 3);
    assert(names.last() == names[1]);
    assert(names.drop_last().last() == names[0]);
    assert(names.drop_last().drop_last() =~= Seq::empty());
    assert(cs.len() == 2);
    assert(cs.last() == cs[1]);
    assert(cs.drop_last().last() == cs[0]);
    lemma_level(tables, "span_attrs"@, blk.attrs, own, row, key, op, v, floats);
    lemma_level(
        tables,
        "resource_attrs"@,
        blk.resource_attrs,
        resource,
        rid as u32,
        key,
        op,
        v,
        floats,
    );
    lemma_level(tables, "scope_attrs"@, blk.scope_attrs, scope, sid as u32, key, op, v, floats);
    if part_has(events, event, i, key, op, v, floats) {
        let id = choose|id: u32| #[trigger]
            hangs_off(events, id, i) && parent_has(event, id, key, op, v, floats);
        lemma_hangs_off(events, id, row);
        lemma_level(tables, "span_event_attrs"@, cs[0].attrs, event, id, key, op, v, floats);
        assert(owner_of(*cs[0].rows, id) == Some(row));
        assert(blk.child_carries(2, i, key, op, v, floats));
    }
    if part_has(links, link, i, key, op, v, floats) {
        let id = choose|id: u32| #[trigger]
            hangs_off(links, id, i) && parent_has(link, id, key, op, v, floats);
        lemma_hangs_off(links, id, row);
        lemma_level(tables, "span_link_attrs"@, cs[1].attrs, link, id, key, op, v, floats);
        assert(owner_of(*cs[1].rows, id) == Some(row));
        assert(blk.child_carries(2, i, key, op, v, floats));
    }
    if blk.child_carries(2, i, key, op, v, floats) {
        let (c, id) = choose|c: int, id: u32|
            0 <= c < 2 && c < cs.len() && level_carries(cs[c].attrs, id, key, op, v, floats)
                && #[trigger] owner_of(*cs[c].rows, id) == Some(i as u32);
        if c == 0 {
            lemma_hangs_off(events, id, row);
            lemma_level(tables, "span_event_attrs"@, cs[0].attrs, event, id, key, op, v, floats);
            assert(hangs_off(events, id, i));
        } else {
            lemma_hangs_off(links, id, row);
            lemma_level(tables, "span_link_attrs"@, cs[1].attrs, link, id, key, op, v, floats);
            assert(hangs_off(links, id, i));
        }
    }
}

proof fn lemma_children(parents: Seq<u32>, n: nat, p: u32)
    requires
        n <= u32::MAX,
    ensures
        forall|r: u32|
            children_upto(parents, n, p).contains(r) <==> r < n && #[trigger] parents[r as int] == p,
        forall|i: int, j: int|
            0 <= i < j < children_upto(parents, n, p).len() ==> (#[trigger] children_upto(
                parents,
                n,
                p,
            )[i]) < (#[trigger] children_upto(parents, n, p)[j]),
        forall|i: int|
            0 <= i < children_upto(parents, n, p).len() ==> (#[trigger] children_upto(
                parents,
                n,
                p,
            )[i]) < n,
    decreases n,
{
    if n > 0 {
        lemma_children(parents, (n - 1) as nat, p);
        let before = children_upto(parents, (n - 1) as nat, p);
        let now = children_upto(parents, n, p);
        assert forall|r: u32| now.contains(r) <==> r < n && #[trigger] parents[r as int] == p by {
            if before.contains(r) {
                assert(now[before.index_of(r)] == r);
            }
            if parents[n - 1] == p {
                assert(now[now.len() - 1] == (n - 1) as u32);
                if now.contains(r) && r != n - 1 {
                    let k = now.index_of(r);
                    assert(before[k] == r);
                }
            }
        }
    }
}

/// The children a row is shown with are the rows whose parent it is, each once,
/// in their order.
pub proof fn law_children_are_shown_in_order(t: Table, span: u32, r: u32, i: int, j: int)
    requires
        t.rows <= u32::MAX,
        t.named("parent_id"@) matches Some(c) && c.data is U32,
    ensures
        ({
            let parents = t.named("parent_id"@)->0.data->U32_0@;
            let shown = children_of(t, span);
            &&& shown.contains(r) <==> r < t.rows && parents[r as int] == span
            &&& 0 <= i < j < shown.len() ==> shown[i] < shown[j]
        }),
{
    let parents = u32s_named(t, "parent_id"@)->0;
    lemma_children(parents, t.rows as nat, span);
    assert(parents[r as int] == t.named("parent_id"@)->0.data->U32_0@[r as int]);
}

} // verus!
