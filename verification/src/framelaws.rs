//! What holds of frames, walks and maps as a whole.

use crate::facets::{
    counted, listing_of, named_picks, naming_of, newest_picks, on_shelf, pick_tables, picked_upto,
    picks_upto, total_upto, Entity, FacetState, Pick, Shelf,
};
use crate::float::Floats;
use crate::frame::{
    anchor_block, anchor_from, anchor_start, clamped, duration_at, expanded, is_of_traces, key_in,
    keys_in, matched, names_upto, start_at, stepped, tables_of, trace_of, walk_all, walk_block,
    walk_reads, walk_rows, walk_start, walked, with_names, with_row, with_rows, AnchorState, Expand,
    Held, Region, Stats, WalkState,
};
use crate::identity::NO_IDENTITY;
use crate::query::Search;
use crate::scan::{fixed_named, table_named, u16s_named, u32s_named, Block, Named};
use crate::servicemap::{map_from, Edge, MapState, Node, Spans};
use crate::signal::Open;
use crate::sort::{in_order, ranked, Ranked};
use crate::source::Src;
use crate::table::{Column, Table};
use crate::tally::{keys_ascend, law_put_then_get, value_of, with_value, Call, Key};
use vstd::prelude::*;

verus! {

// ---------------------------------------------------------------------------
// Every state of a walk is a legal frame.

proof fn lemma_push_distinct<T>(s: Seq<T>, x: T)
    requires
        s.no_duplicates(),
        !s.contains(x),
    ensures
        s.push(x).no_duplicates(),
{
    let t = s.push(x);
    assert forall|i: int, j: int| 0 <= i < t.len() && 0 <= j < t.len() && i != j implies t[i] != t[j] by {
        if i < s.len() {
            assert(s.contains(s[i]));
        }
        if j < s.len() {
            assert(s.contains(s[j]));
        }
    }
}

/// Adding a trace or an entity takes a legal frame to a legal frame, drops
/// nothing that is there, and forgets no truncation.
pub proof fn law_adding_keeps_a_frame_legal(f: Region, id: Seq<u8>, key: u64)
    ensures
        f.is_legal() ==> f.with_trace(id).is_legal(),
        f.is_legal() ==> f.with_entity(key).is_legal(),
        f.truncated ==> f.with_trace(id).truncated && f.with_entity(key).truncated,
        f.traces.is_prefix_of(f.with_trace(id).traces),
        f.entities.is_prefix_of(f.with_entity(key).entities),
        id.len() == 16 && !f.with_trace(id).truncated ==> f.with_trace(id).traces.contains(id),
        key != NO_IDENTITY && !f.with_entity(key).truncated ==> f.with_entity(key).entities.contains(key),
{
    let g = f.with_trace(id);
    let h = f.with_entity(key);
    if g.traces.len() > f.traces.len() {
        assert(g.traces[f.traces.len() as int] == id);
        if f.is_legal() {
            lemma_push_distinct(f.traces, id);
            assert forall|i: int| 0 <= i < g.traces.len() implies (#[trigger] g.traces[i]).len() == 16 by {
                if i < f.traces.len() {
                    assert(g.traces[i] == f.traces[i]);
                }
            }
        }
    }
    if h.entities.len() > f.entities.len() {
        assert(h.entities[f.entities.len() as int] == key);
        if f.is_legal() {
            lemma_push_distinct(f.entities, key);
            if h.entities.contains(NO_IDENTITY) {
                let k = h.entities.index_of(NO_IDENTITY);
                assert(f.entities[k] == NO_IDENTITY);
            }
        }
    }
    assert(f.traces.is_prefix_of(g.traces));
    assert(f.entities.is_prefix_of(h.entities));
}

/// What a frame may grow into: no member lost, no truncation forgotten.
pub open spec fn grows(f: Region, g: Region) -> bool {
    &&& f.is_legal() ==> g.is_legal()
    &&& f.truncated ==> g.truncated
    &&& f.traces.is_prefix_of(g.traces)
    &&& f.entities.is_prefix_of(g.entities)
}

proof fn lemma_grows_on(f: Region, g: Region, h: Region)
    requires
        grows(f, g),
        grows(g, h),
    ensures
        grows(f, h),
{
    assert(f.traces =~= h.traces.take(f.traces.len() as int));
    assert(f.entities =~= h.entities.take(f.entities.len() as int));
}

/// A frame that went from `f` to `g` by adding entities only.
pub open spec fn gains_entities(f: Region, g: Region) -> bool {
    grows(f, g) && g.from == f.from && g.to == f.to && g.traces == f.traces
}

proof fn lemma_walk_rows(w: WalkState, t: Table, ids: Column, keys: Seq<u64>, op: Expand, n: nat)
    ensures
        gains_entities(w.frame, walk_rows(w, t, ids, keys, op, n).frame),
        op != Expand::Peers ==> walk_rows(w, t, ids, keys, op, n).frame == w.frame,
    decreases n,
{
    if n > 0 {
        lemma_walk_rows(w, t, ids, keys, op, (n - 1) as nat);
        let before = walk_rows(w, t, ids, keys, op, (n - 1) as nat);
        if let Some(k) = key_in(keys, u16s_named(t, "resource_id"@), n - 1) {
            law_adding_keeps_a_frame_legal(before.frame, Seq::empty(), k);
            lemma_grows_on(w.frame, before.frame, before.frame.with_entity(k));
        }
    }
}

spec fn scanned(w: WalkState, t: Table) -> WalkState {
    WalkState {
        stats: Stats {
            blocks_scanned: w.stats.blocks_scanned.wrapping_add(1),
            rows_scanned: w.stats.rows_scanned.wrapping_add(t.rows),
            ..w.stats
        },
        ..w
    }
}

pub proof fn lemma_walk_block(w: WalkState, tables: Seq<Named>, op: Expand)
    ensures
        gains_entities(w.frame, walk_block(w, tables, op).frame),
        op != Expand::Peers ==> walk_block(w, tables, op).frame == w.frame,
{
    if let Some(t) = table_named(tables, "spans"@) {
        if let Some(ids) = fixed_named(t, "trace_id"@) {
            lemma_walk_rows(scanned(w, t), t, ids, keys_in(tables), op, t.rows as nat);
        }
    }
}

proof fn lemma_walk_all(
    w: WalkState,
    refs: Seq<Src>,
    held: Seq<Held>,
    open: Seq<Open>,
    op: Expand,
    n: nat,
)
    ensures
        gains_entities(w.frame, walk_all(w, refs, held, open, op, n).frame),
        op != Expand::Peers ==> walk_all(w, refs, held, open, op, n).frame == w.frame,
    decreases n,
{
    if n > 0 {
        lemma_walk_all(w, refs, held, open, op, (n - 1) as nat);
        let before = walk_all(w, refs, held, open, op, (n - 1) as nat);
        let tables = tables_of(refs[n - 1], held, open);
        lemma_walk_block(before, tables, op);
        lemma_grows_on(w.frame, before.frame, walk_block(before, tables, op).frame);
    }
}

/// One step takes a legal frame to a legal frame. The span-side steps never
/// narrow the window and never change the traces; measuring traces leaves the
/// entities alone, and looking for peers leaves the window alone. Widening by a
/// margin of zero or more never narrows the window.
pub proof fn law_a_step_widens(
    f: Region,
    st: Stats,
    op: Expand,
    refs: Seq<Src>,
    held: Seq<Held>,
    open: Seq<Open>,
)
    ensures
        ({
            let g = stepped(f, st, op, refs, held, open).0;
            &&& grows(f, g)
            &&& g.traces == f.traces
            &&& (op matches Expand::Around(d) ==> d >= 0) ==> g.from <= f.from && g.to >= f.to
            &&& op != Expand::Peers ==> g.entities == f.entities
            &&& op == Expand::Peers ==> g.from == f.from && g.to == f.to
        }),
{
    if !(op is Around) {
        let start = walk_start(f, st, refs.len());
        lemma_walk_all(start, refs, held, open, op, refs.len());
    }
}

/// Every state of a walk is a legal frame, the traces stay as they were, and a
/// frame that has dropped something says so to the end.
pub proof fn law_a_walk_keeps_a_frame_legal(
    f: Region,
    st: Stats,
    ops: Seq<Expand>,
    refs: Seq<Src>,
    held: Seq<Held>,
    open: Seq<Open>,
)
    ensures
        grows(f, expanded(f, st, ops, refs, held, open).0),
        expanded(f, st, ops, refs, held, open).0.traces == f.traces,
    decreases ops.len(),
{
    if ops.len() > 0 {
        law_a_walk_keeps_a_frame_legal(f, st, ops.drop_last(), refs, held, open);
        let before = expanded(f, st, ops.drop_last(), refs, held, open);
        law_a_step_widens(before.0, before.1, ops.last(), refs, held, open);
        lemma_grows_on(
            f,
            before.0,
            stepped(before.0, before.1, ops.last(), refs, held, open).0,
        );
    }
}

/// Without traces the span-side steps change nothing and cost nothing.
pub proof fn law_no_traces_no_walk(
    f: Region,
    st: Stats,
    op: Expand,
    refs: Seq<Src>,
    held: Seq<Held>,
    open: Seq<Open>,
)
    requires
        f.traces.len() == 0,
        !(op is Around),
    ensures
        stepped(f, st, op, refs, held, open) == (f, st),
{
}

pub proof fn lemma_with_rows(f: Region, root: Table, keys: Seq<u64>, rows: Seq<u32>)
    ensures
        grows(f, with_rows(f, root, keys, rows)),
        with_rows(f, root, keys, rows).from == f.from,
        with_rows(f, root, keys, rows).to == f.to,
    decreases rows.len(),
{
    if rows.len() > 0 {
        lemma_with_rows(f, root, keys, rows.drop_last());
        let before = with_rows(f, root, keys, rows.drop_last());
        lemma_with_row(before, root, keys, rows.last() as int);
        lemma_grows_on(f, before, with_rows(f, root, keys, rows));
    }
}

pub proof fn lemma_with_row(f: Region, root: Table, keys: Seq<u64>, row: int)
    ensures
        grows(f, with_row(f, root, keys, row)),
        with_row(f, root, keys, row).from == f.from,
        with_row(f, root, keys, row).to == f.to,
        fixed_named(root, "trace_id"@) matches Some(c) ==> ({
            let id = crate::scan::fixed_values(c)[row]@;
            c.holds(row) && id.len() == 16 && !with_row(f, root, keys, row).truncated ==> with_row(
                f,
                root,
                keys,
                row,
            ).traces.contains(id)
        }),
        key_in(keys, u16s_named(root, "resource_id"@), row) matches Some(k) ==> k != NO_IDENTITY
            && !with_row(f, root, keys, row).truncated ==> with_row(
            f,
            root,
            keys,
            row,
        ).entities.contains(k),
{
    let g = match fixed_named(root, "trace_id"@) {
        Some(c) => if c.holds(row) {
            law_adding_keeps_a_frame_legal(f, crate::scan::fixed_values(c)[row]@, 0);
            f.with_trace(crate::scan::fixed_values(c)[row]@)
        } else {
            f
        },
        None => f,
    };
    assert(grows(f, g));
    if let Some(k) = key_in(keys, u16s_named(root, "resource_id"@), row) {
        law_adding_keeps_a_frame_legal(g, Seq::empty(), k);
        lemma_grows_on(f, g, g.with_entity(k));
    }
}

/// A frame that is not truncated after a block has been harvested holds the
/// trace and the entity of every row that matched.
pub proof fn law_an_untruncated_frame_is_complete(
    f: Region,
    root: Table,
    keys: Seq<u64>,
    rows: Seq<u32>,
    i: int,
)
    requires
        0 <= i < rows.len(),
        !with_rows(f, root, keys, rows).truncated,
    ensures
        fixed_named(root, "trace_id"@) matches Some(c) ==> ({
            let id = crate::scan::fixed_values(c)[rows[i] as int]@;
            c.holds(rows[i] as int) && id.len() == 16 ==> with_rows(
                f,
                root,
                keys,
                rows,
            ).traces.contains(id)
        }),
        key_in(keys, u16s_named(root, "resource_id"@), rows[i] as int) matches Some(k) ==> k
            != NO_IDENTITY ==> with_rows(f, root, keys, rows).entities.contains(k),
    decreases rows.len(),
{
    let shorter = rows.drop_last();
    let before = with_rows(f, root, keys, shorter);
    let now = with_rows(f, root, keys, rows);
    lemma_with_row(before, root, keys, rows.last() as int);
    if i < shorter.len() {
        law_an_untruncated_frame_is_complete(f, root, keys, shorter, i);
        assert(shorter[i] == rows[i]);
        assert(forall|x: Seq<u8>| before.traces.contains(x) ==> now.traces.contains(x)) by {
            assert forall|x: Seq<u8>| before.traces.contains(x) implies now.traces.contains(x) by {
                let k = before.traces.index_of(x);
                assert(now.traces[k] == x);
            }
        }
        assert(forall|x: u64| before.entities.contains(x) ==> now.entities.contains(x)) by {
            assert forall|x: u64| before.entities.contains(x) implies now.entities.contains(x) by {
                let k = before.entities.index_of(x);
                assert(now.entities[k] == x);
            }
        }
    }
}

/// A frame that an anchoring gives is legal, and its window is the search's.
pub proof fn law_an_anchored_frame_is_legal(
    a: AnchorState,
    refs: Seq<Src>,
    stored: Seq<crate::search::Stored>,
    held: Seq<Held>,
    open: Seq<Open>,
    opened: Seq<Option<Block>>,
    q: Search,
    floats: Floats,
    i: nat,
)
    ensures
        grows(a.frame, anchor_from(a, refs, stored, held, open, opened, q, floats, i).frame),
        anchor_from(a, refs, stored, held, open, opened, q, floats, i).frame.from == a.frame.from,
        anchor_from(a, refs, stored, held, open, opened, q, floats, i).frame.to == a.frame.to,
        anchor_start(q.from, q.to, refs.len()).frame.is_legal(),
    decreases refs.len() - i,
{
    if i < refs.len() && !a.frame.truncated {
        let src = refs[i as int];
        let b = crate::search::block_of(src, stored, opened);
        let rows = matched(q, src, crate::search::sides_of(src, stored), b, floats);
        let next = match b {
            Some(x) => {
                let keys = keys_in(tables_of(src, held, open));
                if let Some(v) = rows {
                    lemma_with_rows(a.frame, *x.root, keys, v);
                }
                anchor_block(a, *x.root, rows, keys)
            },
            None => a,
        };
        law_an_anchored_frame_is_legal(next, refs, stored, held, open, opened, q, floats, i + 1);
        lemma_grows_on(
            a.frame,
            next.frame,
            anchor_from(next, refs, stored, held, open, opened, q, floats, i + 1).frame,
        );
    }
}

// ---------------------------------------------------------------------------
// What the span-side steps find.

/// A row that a step looks at: the candidate is read, has spans with trace ids,
/// and the row is of one of the traces.
pub open spec fn is_walked(
    f: Region,
    op: Expand,
    src: Src,
    held: Seq<Held>,
    open: Seq<Open>,
    t: Table,
    row: int,
) -> bool {
    &&& walk_reads(src, trace_of(src, held), f, op)
    &&& table_named(tables_of(src, held, open), "spans"@) == Some(t)
    &&& 0 <= row < t.rows
    &&& fixed_named(t, "trace_id"@) matches Some(ids) && is_of_traces(ids, f.traces, row)
}

proof fn lemma_rows_reach(w: WalkState, t: Table, ids: Column, keys: Seq<u64>, n: nat, row: int)
    ensures
        ({
            let v = walk_rows(w, t, ids, keys, Expand::Traces, n);
            &&& v.lo <= w.lo && v.hi >= w.hi
            &&& 0 <= row < n && is_of_traces(ids, w.frame.traces, row) ==> v.lo <= start_at(t, row)
                && v.hi >= clamped(start_at(t, row) + duration_at(t, row))
        }),
    decreases n,
{
    if n > 0 {
        lemma_rows_reach(w, t, ids, keys, (n - 1) as nat, row);
    }
}

proof fn lemma_all_reach(
    w: WalkState,
    refs: Seq<Src>,
    held: Seq<Held>,
    open: Seq<Open>,
    n: nat,
    i: int,
    t: Table,
    row: int,
)
    ensures
        ({
            let v = walk_all(w, refs, held, open, Expand::Traces, n);
            &&& v.lo <= w.lo && v.hi >= w.hi
            &&& 0 <= i < n && is_walked(w.frame, Expand::Traces, refs[i], held, open, t, row) ==> v.lo
                <= start_at(t, row) && v.hi >= clamped(
                start_at(t, row) + duration_at(t, row),
            )
        }),
    decreases n,
{
    if n > 0 {
        lemma_all_reach(w, refs, held, open, (n - 1) as nat, i, t, row);
        let before = walk_all(w, refs, held, open, Expand::Traces, (n - 1) as nat);
        lemma_walk_all(w, refs, held, open, Expand::Traces, (n - 1) as nat);
        let tables = tables_of(refs[n - 1], held, open);
        if let Some(x) = table_named(tables, "spans"@) {
            if let Some(ids) = fixed_named(x, "trace_id"@) {
                lemma_rows_reach(scanned(before, x), x, ids, keys_in(tables), x.rows as nat, row);
            }
        }
    }
}

/// After the extent of the traces has been measured, the window covers every
/// span of them that was read, from its start to its end.
pub proof fn law_the_window_covers_its_traces(
    f: Region,
    st: Stats,
    refs: Seq<Src>,
    held: Seq<Held>,
    open: Seq<Open>,
    i: int,
    t: Table,
    row: int,
)
    requires
        0 <= i < refs.len(),
        is_walked(f, Expand::Traces, refs[i], held, open, t, row),
    ensures
        ({
            let g = walked(f, st, Expand::Traces, refs, held, open).0;
            g.from <= start_at(t, row) && g.to >= clamped(start_at(t, row) + duration_at(t, row))
        }),
{
    let ids = fixed_named(t, "trace_id"@)->0;
    assert(f.traces.contains(crate::scan::fixed_values(ids)[row]@));
    let start = walk_start(f, st, refs.len());
    lemma_all_reach(start, refs, held, open, refs.len(), i, t, row);
    lemma_walk_all(start, refs, held, open, Expand::Traces, refs.len());
}

proof fn lemma_rows_find(w: WalkState, t: Table, ids: Column, keys: Seq<u64>, n: nat, row: int, k: u64)
    requires
        0 <= row < n,
        is_of_traces(ids, w.frame.traces, row),
        key_in(keys, u16s_named(t, "resource_id"@), row) == Some(k),
        k != NO_IDENTITY,
        !walk_rows(w, t, ids, keys, Expand::Peers, n).frame.truncated,
    ensures
        walk_rows(w, t, ids, keys, Expand::Peers, n).frame.entities.contains(k),
    decreases n,
{
    let before = walk_rows(w, t, ids, keys, Expand::Peers, (n - 1) as nat);
    let now = walk_rows(w, t, ids, keys, Expand::Peers, n);
    lemma_walk_rows(w, t, ids, keys, Expand::Peers, (n - 1) as nat);
    if row == n - 1 {
        law_adding_keeps_a_frame_legal(before.frame, Seq::empty(), k);
    } else {
        if let Some(x) = key_in(keys, u16s_named(t, "resource_id"@), n - 1) {
            law_adding_keeps_a_frame_legal(before.frame, Seq::empty(), x);
        }
        lemma_rows_find(w, t, ids, keys, (n - 1) as nat, row, k);
        let at = before.frame.entities.index_of(k);
        assert(now.frame.entities[at] == k);
    }
}

proof fn lemma_all_find(
    w: WalkState,
    refs: Seq<Src>,
    held: Seq<Held>,
    open: Seq<Open>,
    n: nat,
    i: int,
    t: Table,
    row: int,
    k: u64,
)
    requires
        0 <= i < n,
        is_walked(w.frame, Expand::Peers, refs[i], held, open, t, row),
        key_in(
            keys_in(tables_of(refs[i], held, open)),
            u16s_named(t, "resource_id"@),
            row,
        ) == Some(k),
        k != NO_IDENTITY,
        !walk_all(w, refs, held, open, Expand::Peers, n).frame.truncated,
    ensures
        walk_all(w, refs, held, open, Expand::Peers, n).frame.entities.contains(k),
    decreases n,
{
    let before = walk_all(w, refs, held, open, Expand::Peers, (n - 1) as nat);
    let now = walk_all(w, refs, held, open, Expand::Peers, n);
    let tables = tables_of(refs[n - 1], held, open);
    lemma_walk_all(w, refs, held, open, Expand::Peers, (n - 1) as nat);
    lemma_walk_block(before, tables, Expand::Peers);
    if i == n - 1 {
        let ids = fixed_named(t, "trace_id"@)->0;
        lemma_rows_find(scanned(before, t), t, ids, keys_in(tables), t.rows as nat, row, k);
    } else {
        lemma_all_find(w, refs, held, open, (n - 1) as nat, i, t, row, k);
        let at = before.frame.entities.index_of(k);
        assert(now.frame.entities[at] == k);
    }
}

/// Where the frame is not truncated after looking for peers, it holds every
/// identified entity that took part in one of its traces, as far as the blocks
/// that were read say.
pub proof fn law_peers_are_complete(
    f: Region,
    st: Stats,
    refs: Seq<Src>,
    held: Seq<Held>,
    open: Seq<Open>,
    i: int,
    t: Table,
    row: int,
    k: u64,
)
    requires
        0 <= i < refs.len(),
        is_walked(f, Expand::Peers, refs[i], held, open, t, row),
        key_in(
            keys_in(tables_of(refs[i], held, open)),
            u16s_named(t, "resource_id"@),
            row,
        ) == Some(k),
        k != NO_IDENTITY,
        !walked(f, st, Expand::Peers, refs, held, open).0.truncated,
    ensures
        walked(f, st, Expand::Peers, refs, held, open).0.entities.contains(k),
{
    let ids = fixed_named(t, "trace_id"@)->0;
    assert(f.traces.contains(crate::scan::fixed_values(ids)[row]@));
    lemma_all_find(walk_start(f, st, refs.len()), refs, held, open, refs.len(), i, t, row, k);
}

// ---------------------------------------------------------------------------
// Names.

proof fn lemma_names_upto(
    names: Map<u64, Seq<char>>,
    a: Table,
    parents: Seq<u32>,
    texts: Column,
    keys: Seq<u64>,
    n: nat,
    k: u64,
)
    ensures
        names.contains_key(k) ==> {
            &&& names_upto(names, a, parents, texts, keys, n).contains_key(k)
            &&& names_upto(names, a, parents, texts, keys, n)[k] == names[k]
        },
        !names.contains_key(NO_IDENTITY) ==> !names_upto(
            names,
            a,
            parents,
            texts,
            keys,
            n,
        ).contains_key(NO_IDENTITY),
    decreases n,
{
    if n > 0 {
        lemma_names_upto(names, a, parents, texts, keys, (n - 1) as nat, k);
    }
}

/// The first name an entity is given stays, so walking newest first shows the
/// name a service has now. What has no identity is never named.
pub proof fn law_the_first_name_stays(
    names: Map<u64, Seq<char>>,
    tables: Seq<Named>,
    keys: Seq<u64>,
    k: u64,
)
    ensures
        names.contains_key(k) ==> with_names(names, tables, keys).contains_key(k) && with_names(
            names,
            tables,
            keys,
        )[k] == names[k],
        !names.contains_key(NO_IDENTITY) ==> !with_names(names, tables, keys).contains_key(
            NO_IDENTITY,
        ),
{
    if let Some(a) = table_named(tables, "resource_attrs"@) {
        if let (Some(parents), Some(texts)) = (u32s_named(a, "parent_id"@), a.named("str"@)) {
            lemma_names_upto(names, a, parents, texts, keys, a.rows as nat, k);
        }
    }
}

// ---------------------------------------------------------------------------
// The service map.

/// No edge of a map leads back to where it starts.
pub open spec fn has_no_loops(edges: Seq<(Call, Edge)>) -> bool {
    forall|i: int| 0 <= i < edges.len() ==> (#[trigger] edges[i]).0.from != edges[i].0.to
}

/// Keys in order, and no self-calls.
pub open spec fn is_tidy(s: MapState) -> bool {
    keys_ascend(s.nodes) && keys_ascend(s.edges) && has_no_loops(s.edges)
}

proof fn lemma_no_loops(s: Seq<(Call, Edge)>, c: Call, e: Edge)
    requires
        has_no_loops(s),
        c.from != c.to,
    ensures
        has_no_loops(with_value(s, c, e)),
    decreases s.len(),
{
    let w = with_value(s, c, e);
    use_with_value(s, c, e);
    assert forall|i: int| 0 <= i < w.len() implies (#[trigger] w[i]).0.from != w[i].0.to by {
        if w[i].0 != c {
            let k = choose|k: int| 0 <= k < s.len() && (#[trigger] s[k]) == w[i];
            assert(s[k].0.from != s[k].0.to);
        }
    }
}

/// Every entry after a value is put is the new one or one that was there.
proof fn use_with_value<K: Key, V>(s: Seq<(K, V)>, k: K, v: V)
    ensures
        forall|i: int|
            0 <= i < with_value(s, k, v).len() ==> {
                ||| (#[trigger] with_value(s, k, v)[i]).0 == k
                ||| exists|j: int| 0 <= j < s.len() && (#[trigger] s[j]) == with_value(s, k, v)[i]
            },
    decreases s.len(),
{
    let w = with_value(s, k, v);
    if s.len() == 0 || k.ahead(s[0].0) {
        assert forall|i: int| 0 <= i < w.len() implies {
            ||| (#[trigger] w[i]).0 == k
            ||| exists|j: int| 0 <= j < s.len() && (#[trigger] s[j]) == w[i]
        } by {
            if i > 0 {
                assert(w[i] == s[i - 1]);
            }
        }
    } else if s[0].0 == k {
        assert forall|i: int| 0 <= i < w.len() implies {
            ||| (#[trigger] w[i]).0 == k
            ||| exists|j: int| 0 <= j < s.len() && (#[trigger] s[j]) == w[i]
        } by {
            if i > 0 {
                assert(w[i] == s[i]);
            }
        }
    } else {
        let t = s.skip(1);
        use_with_value(t, k, v);
        let u = with_value(t, k, v);
        assert forall|i: int| 0 <= i < w.len() implies {
            ||| (#[trigger] w[i]).0 == k
            ||| exists|j: int| 0 <= j < s.len() && (#[trigger] s[j]) == w[i]
        } by {
            if i == 0 {
                assert(w[0] == s[0]);
            } else {
                assert(w[i] == u[i - 1]);
                if u[i - 1].0 != k {
                    let j = choose|j: int| 0 <= j < t.len() && (#[trigger] t[j]) == u[i - 1];
                    assert(s[j + 1] == t[j]);
                }
            }
        }
    }
}

pub proof fn lemma_span_tidy(s: MapState, t: Spans, row: int)
    requires
        is_tidy(s),
    ensures
        is_tidy(s.with_span(t, row)),
{
    let key = t.key(row);
    let n = Node::found(value_of(s.nodes, key)).with(t.is_bad(row), t.duration(row));
    law_put_then_get(s.nodes, key, n, key);
    if let Some(caller) = t.caller(row) {
        if caller != key {
            let call = Call { from: caller, to: key };
            let e = Edge::found(value_of(s.edges, call)).with(t.is_bad(row), t.duration(row));
            law_put_then_get(s.edges, call, e, call);
            lemma_no_loops(s.edges, call, e);
        }
    }
}

proof fn lemma_spans_tidy(s: MapState, t: Spans, from: i64, to: i64, n: nat)
    requires
        is_tidy(s),
    ensures
        is_tidy(s.with_spans(t, from, to, n)),
    decreases n,
{
    if n > 0 {
        lemma_spans_tidy(s, t, from, to, (n - 1) as nat);
        lemma_span_tidy(s.with_spans(t, from, to, (n - 1) as nat), t, n - 1);
    }
}

/// The nodes and edges of a map come in key order, whatever order the spans
/// came in, and no service calls itself.
pub proof fn law_a_map_is_tidy(
    s: MapState,
    refs: Seq<Src>,
    held: Seq<Held>,
    open: Seq<Open>,
    from: i64,
    to: i64,
    max_spans: usize,
    i: nat,
)
    requires
        is_tidy(s),
    ensures
        is_tidy(map_from(s, refs, held, open, from, to, max_spans, i)),
        is_tidy(MapState::start(refs.len())),
    decreases refs.len() - i,
{
    if i < refs.len() && s.stats.rows_scanned < max_spans {
        let tables = tables_of(refs[i as int], held, open);
        let next = s.with_block(tables, from, to);
        if let Some(t) = table_named(tables, "spans"@) {
            if let (Some(ids), Some(parents), Some(rids)) = (
                fixed_named(t, "span_id"@),
                fixed_named(t, "parent_span_id"@),
                u16s_named(t, "resource_id"@),
            ) {
                let keys = keys_in(tables);
                let base = MapState {
                    names: with_names(s.names, tables, keys),
                    stats: crate::search::Stats {
                        blocks_scanned: s.stats.blocks_scanned.wrapping_add(1),
                        rows_scanned: s.stats.rows_scanned.wrapping_add(t.rows),
                        ..s.stats
                    },
                    ..s
                };
                lemma_spans_tidy(
                    base,
                    Spans { table: t, ids, parents, rids, keys },
                    from,
                    to,
                    t.rows as nat,
                );
            }
        }
        law_a_map_is_tidy(next, refs, held, open, from, to, max_spans, i + 1);
    }
}

// ---------------------------------------------------------------------------
// Listings.

proof fn lemma_counted(seen: Seq<(u64, u64)>, keys: Seq<u64>, n: nat, k: u64)
    requires
        keys_ascend(seen),
        n <= keys.len(),
    ensures
        keys_ascend(counted(seen, keys, n)),
        value_of(counted(seen, keys, n), k) == if k != NO_IDENTITY && keys.take(n as int).contains(k) {
            Some(crate::facets::count_of(value_of(seen, k)).wrapping_add(1))
        } else {
            value_of(seen, k)
        },
    decreases n,
{
    if n > 0 {
        lemma_counted(seen, keys, (n - 1) as nat, k);
        let before = counted(seen, keys, (n - 1) as nat);
        let x = keys[n - 1];
        let shorter = keys.take(n - 1);
        let longer = keys.take(n as int);
        assert(longer[n - 1] == x);
        if shorter.contains(k) {
            let p = shorter.index_of(k);
            assert(longer[p] == k);
        }
        if longer.contains(k) && k != x {
            let p = longer.index_of(k);
            assert(shorter[p] == k);
        }
        if x != NO_IDENTITY && !shorter.contains(x) {
            law_put_then_get(
                before,
                x,
                crate::facets::count_of(value_of(before, x)).wrapping_add(1),
                k,
            );
            if k == x {
                lemma_counted(seen, keys, (n - 1) as nat, x);
            }
        }
    } else {
        assert(keys.take(0) =~= Seq::<u64>::empty());
    }
}

/// A block adds one to the count of each identified entity it holds, however
/// many of its resources are that entity, and nothing to any other.
pub proof fn law_a_block_counts_once(seen: Seq<(u64, u64)>, keys: Seq<u64>, k: u64)
    requires
        keys_ascend(seen),
    ensures
        keys_ascend(counted(seen, keys, keys.len())),
        value_of(counted(seen, keys, keys.len()), k) == if k != NO_IDENTITY && keys.contains(k) {
            Some(crate::facets::count_of(value_of(seen, k)).wrapping_add(1))
        } else {
            value_of(seen, k)
        },
{
    lemma_counted(seen, keys, keys.len(), k);
    assert(keys.take(keys.len() as int) =~= keys);
}

/// The entities of a listing come by name and then by key, every one once.
pub proof fn law_a_listing_is_in_order(v: Seq<Entity>)
    ensures
        in_order(ranked(v)),
        ranked(v).to_multiset() == v.to_multiset(),
{
    crate::sort::lemma_ranked(v);
}

// ---------------------------------------------------------------------------
// The name a service has now.

/// The name one block gives an entity.
pub open spec fn name_said(tables: Seq<Named>, k: u64) -> Option<Seq<char>> {
    let names = with_names(Map::empty(), tables, keys_in(tables));
    if names.contains_key(k) {
        Some(names[k])
    } else {
        None
    }
}

proof fn lemma_names_alone(
    names: Map<u64, Seq<char>>,
    a: Table,
    parents: Seq<u32>,
    texts: Column,
    keys: Seq<u64>,
    n: nat,
    k: u64,
)
    requires
        !names.contains_key(k),
    ensures
        ({
            let with = names_upto(names, a, parents, texts, keys, n);
            let alone = names_upto(Map::empty(), a, parents, texts, keys, n);
            &&& with.contains_key(k) <==> alone.contains_key(k)
            &&& alone.contains_key(k) ==> with[k] == alone[k] && keys.contains(k)
        }),
    decreases n,
{
    if n > 0 {
        lemma_names_alone(names, a, parents, texts, keys, (n - 1) as nat, k);
        let p = parents[n - 1] as int;
        if p < keys.len() {
            assert(keys.contains(keys[p]));
        }
    }
}

proof fn lemma_said(names: Map<u64, Seq<char>>, tables: Seq<Named>, k: u64)
    ensures
        ({
            let with = with_names(names, tables, keys_in(tables));
            &&& names.contains_key(k) ==> with.contains_key(k) && with[k] == names[k]
            &&& !names.contains_key(k) ==> (with.contains_key(k) <==> name_said(tables, k) is Some)
            &&& !names.contains_key(k) && with.contains_key(k) ==> name_said(tables, k) == Some(
                with[k],
            )
            &&& name_said(tables, k) is Some ==> keys_in(tables).contains(k)
        }),
{
    let keys = keys_in(tables);
    law_the_first_name_stays(names, tables, keys, k);
    if let Some(a) = table_named(tables, "resource_attrs"@) {
        if let (Some(parents), Some(texts)) = (u32s_named(a, "parent_id"@), a.named("str"@)) {
            lemma_names_alone(Map::empty(), a, parents, texts, keys, a.rows as nat, k);
            if !names.contains_key(k) {
                lemma_names_alone(names, a, parents, texts, keys, a.rows as nat, k);
            }
        }
    }
}

/// The first of some candidates to name an entity, among the first `n`.
pub open spec fn first_said(
    picks: Seq<Pick>,
    shelves: Seq<Shelf>,
    open: Seq<Vec<Open>>,
    k: u64,
    n: nat,
) -> Option<Seq<char>>
    decreases n,
{
    if n == 0 {
        None
    } else {
        match first_said(picks, shelves, open, k, (n - 1) as nat) {
            Some(name) => Some(name),
            None => name_said(pick_tables(picks[n - 1], shelves, open), k),
        }
    }
}

/// What a map says under a key.
pub open spec fn said_under(names: Map<u64, Seq<char>>, k: u64) -> Option<Seq<char>> {
    if names.contains_key(k) {
        Some(names[k])
    } else {
        None
    }
}

proof fn lemma_listing_names(
    s: FacetState,
    picks: Seq<Pick>,
    shelves: Seq<Shelf>,
    open: Seq<Vec<Open>>,
    k: u64,
    n: nat,
)
    requires
        s.names == Map::<u64, Seq<char>>::empty(),
    ensures
        said_under(s.with_picks(picks, shelves, open, n).names, k) == first_said(
            picks,
            shelves,
            open,
            k,
            n,
        ),
    decreases n,
{
    if n > 0 {
        lemma_listing_names(s, picks, shelves, open, k, (n - 1) as nat);
        let before = s.with_picks(picks, shelves, open, (n - 1) as nat);
        lemma_said(before.names, pick_tables(picks[n - 1], shelves, open), k);
    }
}

proof fn lemma_frame_names(
    picks: Seq<Pick>,
    shelves: Seq<Shelf>,
    open: Seq<Vec<Open>>,
    entities: Seq<u64>,
    k: u64,
    n: nat,
)
    requires
        entities.contains(k),
    ensures
        said_under(named_picks(picks, shelves, open, entities, n), k) == first_said(
            picks,
            shelves,
            open,
            k,
            n,
        ),
    decreases n,
{
    if n > 0 {
        lemma_frame_names(picks, shelves, open, entities, k, (n - 1) as nat);
        let before = named_picks(picks, shelves, open, entities, (n - 1) as nat);
        let tables = pick_tables(picks[n - 1], shelves, open);
        lemma_said(before, tables, k);
        if name_said(tables, k) is Some {
            let keys = keys_in(tables);
            let i = keys.index_of(k);
            assert(keys[i] == k);
        }
    }
}

proof fn lemma_first_said(
    picks: Seq<Pick>,
    shelves: Seq<Shelf>,
    open: Seq<Vec<Open>>,
    k: u64,
    j: int,
    n: nat,
)
    requires
        0 <= j < n <= picks.len(),
        name_said(pick_tables(picks[j], shelves, open), k) is Some,
        forall|i: int|
            0 <= i < j ==> name_said(pick_tables(#[trigger] picks[i], shelves, open), k) is None,
    ensures
        first_said(picks, shelves, open, k, j as nat) is None,
        first_said(picks, shelves, open, k, n) == name_said(
            pick_tables(picks[j], shelves, open),
            k,
        ),
    decreases n,
{
    if n > j + 1 {
        lemma_first_said(picks, shelves, open, k, j, (n - 1) as nat);
    } else {
        lemma_none_said(picks, shelves, open, k, j as nat);
    }
}

proof fn lemma_none_said(picks: Seq<Pick>, shelves: Seq<Shelf>, open: Seq<Vec<Open>>, k: u64, n: nat)
    requires
        n <= picks.len(),
        forall|i: int|
            0 <= i < n ==> name_said(pick_tables(#[trigger] picks[i], shelves, open), k) is None,
    ensures
        first_said(picks, shelves, open, k, n) is None,
    decreases n,
{
    if n > 0 {
        lemma_none_said(picks, shelves, open, k, (n - 1) as nat);
    }
}

/// An entity is shown under the name that the newest block naming it gives it,
/// of whichever signal that block is: in a listing, and as a label of a frame.
/// Where no block names it, it has no name in either.
pub proof fn law_the_newest_name_is_shown(
    shelves: Seq<Shelf>,
    open: Seq<Vec<Open>>,
    from: i64,
    to: i64,
    entities: Seq<u64>,
    k: u64,
)
    requires
        entities.contains(k),
    ensures
        ({
            let picks = newest_picks(shelves, open, from, to);
            let shown = said_under(listing_of(shelves, open, from, to).names, k);
            &&& said_under(naming_of(shelves, open, from, to, entities), k) == shown
            &&& shown is None ==> forall|i: int|
                0 <= i < picks.len() ==> name_said(
                    pick_tables(#[trigger] picks[i], shelves, open),
                    k,
                ) is None
            &&& shown is Some ==> exists|j: int|
                0 <= j < picks.len() && name_said(pick_tables(#[trigger] picks[j], shelves, open), k)
                    == shown && is_newest_to_name(picks, shelves, open, k, j)
        }),
{
    let picks = newest_picks(shelves, open, from, to);
    let start = FacetState::none().with_total(total_upto(shelves, open, shelves.len()));
    lemma_listing_names(start, picks, shelves, open, k, picks.len());
    lemma_frame_names(picks, shelves, open, entities, k, picks.len());
    crate::sort::lemma_ranked(picks_upto(shelves, open, from, to, shelves.len()));
    if exists|i: int|
        0 <= i < picks.len() && name_said(pick_tables(#[trigger] picks[i], shelves, open), k) is Some {
        let i = choose|i: int|
            0 <= i < picks.len() && name_said(pick_tables(#[trigger] picks[i], shelves, open), k) is Some;
        let j = lemma_least_said(picks, shelves, open, k, i);
        lemma_first_said(picks, shelves, open, k, j, picks.len());
        assert(is_newest_to_name(picks, shelves, open, k, j)) by {
            assert forall|i: int|
                0 <= i < picks.len() && name_said(
                    pick_tables(#[trigger] picks[i], shelves, open),
                    k,
                ) is Some implies picks[i].src.max_ts <= picks[j].src.max_ts by {
                if i > j {
                    assert(!picks[i].ahead(picks[j]));
                }
            }
        }
        assert(name_said(pick_tables(picks[j], shelves, open), k) is Some);
    } else {
        lemma_none_said(picks, shelves, open, k, picks.len());
    }
}

/// No other candidate that names the entity has a newer row.
pub open spec fn is_newest_to_name(
    picks: Seq<Pick>,
    shelves: Seq<Shelf>,
    open: Seq<Vec<Open>>,
    k: u64,
    j: int,
) -> bool {
    forall|i: int|
        0 <= i < picks.len() && name_said(pick_tables(#[trigger] picks[i], shelves, open), k) is Some
            ==> picks[i].src.max_ts <= picks[j].src.max_ts
}

proof fn lemma_least_said(
    picks: Seq<Pick>,
    shelves: Seq<Shelf>,
    open: Seq<Vec<Open>>,
    k: u64,
    i: int,
) -> (j: int)
    requires
        0 <= i < picks.len(),
        name_said(pick_tables(picks[i], shelves, open), k) is Some,
    ensures
        0 <= j <= i,
        name_said(pick_tables(picks[j], shelves, open), k) is Some,
        forall|x: int|
            0 <= x < j ==> name_said(pick_tables(#[trigger] picks[x], shelves, open), k) is None,
    decreases i,
{
    if exists|x: int|
        0 <= x < i && name_said(pick_tables(#[trigger] picks[x], shelves, open), k) is Some {
        let x = choose|x: int|
            0 <= x < i && name_said(pick_tables(#[trigger] picks[x], shelves, open), k) is Some;
        lemma_least_said(picks, shelves, open, k, x)
    } else {
        i
    }
}

/// A window's candidates of every shelf are read, and no others.
pub proof fn law_every_shelf_is_read(
    shelves: Seq<Shelf>,
    open: Seq<Vec<Open>>,
    from: i64,
    to: i64,
    p: Pick,
)
    requires
        shelves.len() <= usize::MAX,
    ensures
        newest_picks(shelves, open, from, to).contains(p) <==> p.shelf < shelves.len() && on_shelf(
            shelves,
            open,
            p.shelf as int,
        ).contains(p.src) && p.src.meets(from, to),
{
    lemma_picks(shelves, open, from, to, shelves.len(), p);
    crate::sort::lemma_ranked_contains(picks_upto(shelves, open, from, to, shelves.len()), p);
}

proof fn lemma_picks(
    shelves: Seq<Shelf>,
    open: Seq<Vec<Open>>,
    from: i64,
    to: i64,
    n: nat,
    p: Pick,
)
    requires
        n <= shelves.len() <= usize::MAX,
    ensures
        picks_upto(shelves, open, from, to, n).contains(p) <==> p.shelf < n && on_shelf(
            shelves,
            open,
            p.shelf as int,
        ).contains(p.src) && p.src.meets(from, to),
    decreases n,
{
    if n > 0 {
        lemma_picks(shelves, open, from, to, (n - 1) as nat, p);
        let before = picks_upto(shelves, open, from, to, (n - 1) as nat);
        let all = on_shelf(shelves, open, n - 1);
        let more = picked_upto(all, (n - 1) as usize, from, to, all.len());
        lemma_picked(all, (n - 1) as usize, from, to, all.len(), p);
        let now = picks_upto(shelves, open, from, to, n);
        if before.contains(p) {
            assert(now[before.index_of(p)] == p);
        }
        if more.contains(p) {
            assert(now[before.len() + more.index_of(p)] == p);
        }
        if now.contains(p) {
            let k = now.index_of(p);
            if k < before.len() {
                assert(before[k] == p);
            } else {
                assert(more[k - before.len()] == p);
            }
        }
        if all.contains(p.src) {
            assert(all[all.index_of(p.src)] == p.src);
        }
    }
}

proof fn lemma_picked(all: Seq<Src>, shelf: usize, from: i64, to: i64, n: nat, p: Pick)
    requires
        n <= all.len(),
    ensures
        picked_upto(all, shelf, from, to, n).contains(p) <==> p.shelf == shelf && p.src.meets(from, to)
            && exists|i: int| 0 <= i < n && #[trigger] all[i] == p.src,
    decreases n,
{
    if n > 0 {
        lemma_picked(all, shelf, from, to, (n - 1) as nat, p);
        let before = picked_upto(all, shelf, from, to, (n - 1) as nat);
        let now = picked_upto(all, shelf, from, to, n);
        if before.contains(p) {
            assert(now[before.index_of(p)] == p);
        }
        if all[n - 1].meets(from, to) {
            assert(now[before.len() as int] == (Pick { shelf, src: all[n - 1] }));
            if now.contains(p) {
                let k = now.index_of(p);
                if k < before.len() {
                    assert(before[k] == p);
                } else {
                    assert(all[n - 1] == p.src);
                }
            }
        }
    }
}

} // verus!
