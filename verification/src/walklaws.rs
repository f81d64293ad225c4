//! What the steps of a walk find in a store, whatever its blocks hold.

use crate::block::BlockRef;
use crate::bloom::{file_of, filter_of, keys_of, law_no_false_negatives, maybe};
use crate::frame::{
    clamped, could_hold, duration_at, expanded, is_of_traces, key_in, keys_in, placed, start_at,
    stepped, tables_of, trace_of, walk_all, walk_reads, walk_rows, walk_start, walked, Expand, Held,
    Region, Stats, WalkState,
};
use crate::framelaws::{
    is_walked, law_a_step_widens, law_peers_are_complete, law_the_window_covers_its_traces,
    lemma_walk_block,
};
use crate::scan::{fixed_named, fixed_values, table_named, u16s_named, u64s_named, Named};
use crate::signal::Open;
use crate::source::{all_sources, disk_sources, open_sources, Origin, Src};
use crate::table::{Column, Data, Table};
use vstd::prelude::*;

verus! {

// ---------------------------------------------------------------------------
// What there is to find.

/// The trace that a span is of.
pub open spec fn trace_at(t: Table, row: int, id: Seq<u8>) -> bool {
    &&& t.named("trace_id"@) matches Some(c)
    &&& c.holds(row)
    &&& c.data matches Data::Fixed(v)
    &&& v@[row]@ == id
}

/// When a span starts.
pub open spec fn starts_at(t: Table, row: int, at: i64) -> bool {
    &&& t.named("start_time_unix_nano"@) matches Some(c)
    &&& c.data matches Data::Time(v)
    &&& v@[row] == at
}

/// How long a span lasts.
pub open spec fn lasts(t: Table, row: int, d: u64) -> bool {
    &&& t.named("duration_nano"@) matches Some(c)
    &&& c.data matches Data::U64(v)
    &&& v@[row] == d
}

/// The candidate has a span in this row of its span table, `t`.
pub open spec fn has_span(
    src: Src,
    held: Seq<Held>,
    open: Seq<Open>,
    t: Table,
    row: int,
) -> bool {
    table_named(tables_of(src, held, open), "spans"@) == Some(t) && 0 <= row < t.rows
}

/// The candidate has no trace filter, or has the one built over the trace ids of
/// its spans.
pub open spec fn filter_is_true(src: Src, held: Seq<Held>, t: Table) -> bool {
    trace_of(src, held) matches Some(f) ==> {
        &&& t.named("trace_id"@) matches Some(c)
        &&& c.data matches Data::Fixed(v)
        &&& v@.len() == t.rows
        &&& v@.len() <= u32::MAX
        &&& forall|k: int| 0 <= k < v@.len() ==> (#[trigger] v@[k])@.len() == 16
        &&& f == file_of(filter_of(keys_of(c)))
    }
}

/// Every published block is a candidate, and so is every snapshot that has not
/// been published under its node and sequence; each with its own time range and
/// its own tables.
pub proof fn law_every_block_is_a_candidate(disk: Seq<BlockRef>, open: Seq<Open>, k: int)
    ensures
        0 <= k < disk.len() ==> exists|i: int|
            0 <= i < all_sources(disk, open).len() && (#[trigger] all_sources(disk, open)[i]).origin
                == Origin::Disk(k as usize) && all_sources(disk, open)[i].min_ts == disk[k].min_ts
                && all_sources(disk, open)[i].max_ts == disk[k].max_ts,
        0 <= k < open.len() && (forall|j: int|
            0 <= j < disk.len() ==> !((#[trigger] disk[j]).node == open[k].node && disk[j].seq
                == open[k].seq)) ==> exists|i: int|
            0 <= i < all_sources(disk, open).len() && (#[trigger] all_sources(disk, open)[i]).origin
                == Origin::Open(k as usize) && all_sources(disk, open)[i].min_ts
                == open[k].sealed.min_ts && all_sources(disk, open)[i].max_ts
                == open[k].sealed.max_ts,
{
    let all = all_sources(disk, open);
    if 0 <= k < disk.len() {
        assert(all[k] == disk_sources(disk, disk.len())[k]);
    }
    if 0 <= k < open.len() && (forall|j: int|
        0 <= j < disk.len() ==> !((#[trigger] disk[j]).node == open[k].node && disk[j].seq
            == open[k].seq)) {
        lemma_listed(disk, open, open.len(), k);
        let at = open_sources(disk, open, open.len()).index_of(Src::of_open(open[k], k));
        assert(all[disk.len() + at] == Src::of_open(open[k], k));
    }
}

proof fn lemma_listed(disk: Seq<BlockRef>, open: Seq<Open>, n: nat, k: int)
    requires
        0 <= k < n,
        !crate::source::published(disk, open[k].node, open[k].seq),
    ensures
        open_sources(disk, open, n).contains(Src::of_open(open[k], k)),
    decreases n,
{
    let now = open_sources(disk, open, n);
    if k == n - 1 {
        assert(now[now.len() - 1] == Src::of_open(open[k], k));
    } else {
        lemma_listed(disk, open, (n - 1) as nat, k);
        let before = open_sources(disk, open, (n - 1) as nat);
        assert(now[before.index_of(Src::of_open(open[k], k))] == Src::of_open(open[k], k));
    }
}

proof fn lemma_one_step(
    f: Region,
    st: Stats,
    op: Expand,
    refs: Seq<Src>,
    held: Seq<Held>,
    open: Seq<Open>,
)
    ensures
        expanded(f, st, seq![op], refs, held, open) == stepped(f, st, op, refs, held, open),
{
    assert(seq![op].drop_last() =~= Seq::<Expand>::empty());
    reveal_with_fuel(expanded, 2);
}

// ---------------------------------------------------------------------------
// The extent of the traces.

/// Measuring the extent of a frame's traces leaves the window covering every
/// span of them that any candidate has, whenever that candidate's rows lie: from
/// its start to its end, or to the end of time where that is earlier.
pub proof fn law_a_trace_is_measured_wherever_it_lies(
    f: Region,
    st: Stats,
    disk: Seq<BlockRef>,
    held: Seq<Held>,
    open: Seq<Open>,
    src: Src,
    t: Table,
    row: int,
    id: Seq<u8>,
    start: i64,
    d: u64,
)
    requires
        all_sources(disk, open).contains(src),
        has_span(src, held, open, t, row),
        filter_is_true(src, held, t),
        trace_at(t, row, id),
        f.traces.contains(id),
        starts_at(t, row, start),
        lasts(t, row, d),
    ensures
        ({
            let g = expanded(f, st, seq![Expand::Traces], all_sources(disk, open), held, open).0;
            &&& g.from <= start
            &&& g.to >= start + d || g.to == i64::MAX
            &&& g.from <= f.from
            &&& g.to >= f.to
        }),
{
    let refs = all_sources(disk, open);
    let i = refs.index_of(src);
    lemma_one_step(f, st, Expand::Traces, refs, held, open);
    lemma_could_hold(f, src, held, t, row, id);
    assert(is_walked(f, Expand::Traces, refs[i], held, open, t, row));
    law_the_window_covers_its_traces(f, st, refs, held, open, i, t, row);
    lemma_widens(f, st, refs, held, open);
}

proof fn lemma_widens(f: Region, st: Stats, refs: Seq<Src>, held: Seq<Held>, open: Seq<Open>)
    ensures
        walked(f, st, Expand::Traces, refs, held, open).0.from <= f.from,
        walked(f, st, Expand::Traces, refs, held, open).0.to >= f.to,
{
    law_a_step_widens(f, st, Expand::Traces, refs, held, open);
}

/// When a span starts, or zero where the table does not say.
pub open spec fn start_or_zero(t: Table, row: int) -> int {
    match t.named("start_time_unix_nano"@) {
        Some(c) => match c.data {
            Data::Time(v) => v@[row] as int,
            _ => 0,
        },
        None => 0,
    }
}

/// How long a span lasts, or zero where the table does not say.
pub open spec fn length_or_zero(t: Table, row: int) -> int {
    match t.named("duration_nano"@) {
        Some(c) => match c.data {
            Data::U64(v) => v@[row] as int,
            _ => 0,
        },
        None => 0,
    }
}

/// A span of one of the traces, in one of the candidates.
pub open spec fn is_span_of(
    f: Region,
    refs: Seq<Src>,
    held: Seq<Held>,
    open: Seq<Open>,
    i: int,
    t: Table,
    row: int,
) -> bool {
    &&& 0 <= i < refs.len()
    &&& has_span(refs[i], held, open, t, row)
    &&& exists|id: Seq<u8>| #[trigger] f.traces.contains(id) && trace_at(t, row, id)
}

proof fn lemma_of_traces(f: Region, t: Table, ids: Column, row: int)
    requires
        fixed_named(t, "trace_id"@) == Some(ids),
        is_of_traces(ids, f.traces, row),
    ensures
        exists|id: Seq<u8>| #[trigger] f.traces.contains(id) && trace_at(t, row, id),
{
    let id = fixed_values(ids)[row]@;
    assert(f.traces.contains(id) && trace_at(t, row, id));
}

proof fn lemma_rows_extent(
    w: WalkState,
    t: Table,
    ids: Column,
    keys: Seq<u64>,
    n: nat,
) -> (r: (int, int))
    ensures
        ({
            let v = walk_rows(w, t, ids, keys, Expand::Traces, n);
            &&& v.lo == w.lo || (0 <= r.0 < n && is_of_traces(ids, w.frame.traces, r.0) && v.lo
                == start_at(t, r.0))
            &&& v.hi == w.hi || (0 <= r.1 < n && is_of_traces(ids, w.frame.traces, r.1) && v.hi
                == clamped(start_at(t, r.1) + duration_at(t, r.1)))
            &&& v.frame == w.frame
        }),
    decreases n,
{
    if n == 0 {
        (0, 0)
    } else {
        let r = lemma_rows_extent(w, t, ids, keys, (n - 1) as nat);
        let before = walk_rows(w, t, ids, keys, Expand::Traces, (n - 1) as nat);
        let now = walk_rows(w, t, ids, keys, Expand::Traces, n);
        (
            if now.lo == before.lo {
                r.0
            } else {
                n - 1
            },
            if now.hi == before.hi {
                r.1
            } else {
                n - 1
            },
        )
    }
}

/// Where a bound was found: a candidate, its span table, and a row.
pub struct Place {
    pub i: int,
    pub t: Table,
    pub row: int,
}

proof fn lemma_all_extent(
    w: WalkState,
    refs: Seq<Src>,
    held: Seq<Held>,
    open: Seq<Open>,
    n: nat,
) -> (r: (Place, Place))
    requires
        n <= refs.len(),
    ensures
        ({
            let v = walk_all(w, refs, held, open, Expand::Traces, n);
            &&& v.lo == w.lo || (is_span_of(w.frame, refs, held, open, r.0.i, r.0.t, r.0.row) && v.lo
                == start_or_zero(r.0.t, r.0.row))
            &&& v.hi == w.hi || (is_span_of(w.frame, refs, held, open, r.1.i, r.1.t, r.1.row) && v.hi
                == clamped(start_or_zero(r.1.t, r.1.row) + length_or_zero(r.1.t, r.1.row)))
            &&& v.frame == w.frame
        }),
    decreases n,
{
    if n == 0 {
        let p = arbitrary::<Place>();
        (p, p)
    } else {
        let r = lemma_all_extent(w, refs, held, open, (n - 1) as nat);
        let before = walk_all(w, refs, held, open, Expand::Traces, (n - 1) as nat);
        let src = refs[n - 1];
        let tables = tables_of(src, held, open);
        match table_named(tables, "spans"@) {
            Some(t) => match fixed_named(t, "trace_id"@) {
                Some(ids) => {
                    let from = WalkState {
                        stats: Stats {
                            blocks_scanned: before.stats.blocks_scanned.wrapping_add(1),
                            rows_scanned: before.stats.rows_scanned.wrapping_add(t.rows),
                            ..before.stats
                        },
                        ..before
                    };
                    let at = lemma_rows_extent(from, t, ids, keys_in(tables), t.rows as nat);
                    let after = walk_rows(
                        from,
                        t,
                        ids,
                        keys_in(tables),
                        Expand::Traces,
                        t.rows as nat,
                    );
                    let now = walk_all(w, refs, held, open, Expand::Traces, n);
                    assert(now == after || now == before);
                    if after.lo != before.lo {
                        lemma_of_traces(w.frame, t, ids, at.0);
                    }
                    if after.hi != before.hi {
                        lemma_of_traces(w.frame, t, ids, at.1);
                    }
                    (
                        if now.lo == before.lo {
                            r.0
                        } else {
                            Place { i: n - 1, t, row: at.0 }
                        },
                        if now.hi == before.hi {
                            r.1
                        } else {
                            Place { i: n - 1, t, row: at.1 }
                        },
                    )
                },
                None => r,
            },
            None => r,
        }
    }
}

/// Measuring the extent of a frame's traces moves the window no further than to
/// the start of one of their spans, and to the end of one. The entities and the
/// traces stay, and nothing is truncated by it.
pub proof fn law_the_window_reaches_no_further(
    f: Region,
    st: Stats,
    refs: Seq<Src>,
    held: Seq<Held>,
    open: Seq<Open>,
)
    ensures
        ({
            let g = expanded(f, st, seq![Expand::Traces], refs, held, open).0;
            &&& g.from == f.from || exists|i: int, t: Table, row: int| #[trigger]
                is_span_of(f, refs, held, open, i, t, row) && g.from == start_or_zero(t, row)
            &&& g.to == f.to || exists|i: int, t: Table, row: int| #[trigger]
                is_span_of(f, refs, held, open, i, t, row) && (g.to == start_or_zero(t, row)
                    + length_or_zero(t, row) || (g.to == i64::MAX && start_or_zero(t, row)
                    + length_or_zero(t, row) > i64::MAX))
            &&& g.entities == f.entities
            &&& g.traces == f.traces
            &&& g.truncated == f.truncated
        }),
{
    lemma_one_step(f, st, Expand::Traces, refs, held, open);
    if f.traces.len() > 0 {
        let w = walk_start(f, st, refs.len());
        let r = lemma_all_extent(w, refs, held, open, refs.len());
    }
}

// ---------------------------------------------------------------------------
// Whose a span is.

/// The resource of a span is the one of this identity: of the rows of the
/// resource table that have the span's resource id, the last one says so.
pub open spec fn belongs_to(tables: Seq<Named>, t: Table, row: int, k: u64) -> bool {
    &&& t.named("resource_id"@) matches Some(c)
    &&& c.data matches Data::U16(rids)
    &&& table_named(tables, "resources"@) matches Some(r)
    &&& r.named("id"@) matches Some(a)
    &&& a.data matches Data::U16(ids)
    &&& r.named("key"@) matches Some(b)
    &&& b.data matches Data::U64(keys)
    &&& rids@[row] < r.rows
    &&& exists|p: int| #[trigger] is_last_of(ids@, r.rows as int, rids@[row], p) && keys@[p] == k
}

/// The last of the first `n` that is `id` stands at `p`.
pub open spec fn is_last_of(ids: Seq<u16>, n: int, id: u16, p: int) -> bool {
    &&& 0 <= p < n
    &&& ids[p] == id
    &&& forall|q: int| p < q < n ==> #[trigger] ids[q] != id
}

pub proof fn lemma_placed(ids: Seq<u16>, keys: Seq<u64>, slots: nat, n: nat, id: u16, p: int)
    requires
        is_last_of(ids, n as int, id, p),
        id < slots,
    ensures
        placed(ids, keys, slots, n).len() == slots,
        placed(ids, keys, slots, n)[id as int] == keys[p],
    decreases n,
{
    if p == n - 1 {
        lemma_slots(ids, keys, slots, (n - 1) as nat);
    } else {
        assert(is_last_of(ids, n - 1, id, p));
        lemma_placed(ids, keys, slots, (n - 1) as nat, id, p);
        assert(ids[n - 1] != id);
    }
}

pub proof fn lemma_slots(ids: Seq<u16>, keys: Seq<u64>, slots: nat, n: nat)
    ensures
        placed(ids, keys, slots, n).len() == slots,
    decreases n,
{
    if n > 0 {
        lemma_slots(ids, keys, slots, (n - 1) as nat);
    }
}

/// What a span belongs to is what it is counted under.
pub proof fn lemma_belongs(tables: Seq<Named>, t: Table, row: int, k: u64)
    requires
        belongs_to(tables, t, row, k),
    ensures
        key_in(keys_in(tables), u16s_named(t, "resource_id"@), row) == Some(k),
{
    let rids = u16s_named(t, "resource_id"@)->0;
    let r = table_named(tables, "resources"@)->0;
    let ids = u16s_named(r, "id"@)->0;
    let keys = u64s_named(r, "key"@)->0;
    let p = choose|p: int| #[trigger] is_last_of(ids, r.rows as int, rids[row], p) && keys[p] == k;
    lemma_placed(ids, keys, r.rows as nat, r.rows as nat, rids[row], p);
}

/// Looking for peers finds the identity of every span of the frame's traces, in
/// every candidate whose time range meets the window, or says that it had to
/// drop something. The window and the traces stay.
pub proof fn law_peers_are_found(
    f: Region,
    st: Stats,
    disk: Seq<BlockRef>,
    held: Seq<Held>,
    open: Seq<Open>,
    src: Src,
    t: Table,
    row: int,
    id: Seq<u8>,
    k: u64,
)
    requires
        all_sources(disk, open).contains(src),
        src.min_ts <= f.to,
        f.from <= src.max_ts,
        has_span(src, held, open, t, row),
        filter_is_true(src, held, t),
        trace_at(t, row, id),
        f.traces.contains(id),
        belongs_to(tables_of(src, held, open), t, row, k),
        k != 0,
    ensures
        ({
            let g = expanded(f, st, seq![Expand::Peers], all_sources(disk, open), held, open).0;
            &&& g.entities.contains(k) || g.truncated
            &&& g.from == f.from
            &&& g.to == f.to
            &&& g.traces == f.traces
        }),
{
    let refs = all_sources(disk, open);
    let i = refs.index_of(src);
    lemma_one_step(f, st, Expand::Peers, refs, held, open);
    law_a_step_widens(f, st, Expand::Peers, refs, held, open);
    lemma_belongs(tables_of(src, held, open), t, row, k);
    lemma_could_hold(f, src, held, t, row, id);
    assert(is_walked(f, Expand::Peers, refs[i], held, open, t, row));
    if !walked(f, st, Expand::Peers, refs, held, open).0.truncated {
        law_peers_are_complete(f, st, refs, held, open, i, t, row, k);
    }
}

proof fn lemma_could_hold(f: Region, src: Src, held: Seq<Held>, t: Table, row: int, id: Seq<u8>)
    requires
        0 <= row < t.rows,
        filter_is_true(src, held, t),
        trace_at(t, row, id),
        f.traces.contains(id),
    ensures
        could_hold(trace_of(src, held), f.traces),
{
    if let Some(file) = trace_of(src, held) {
        let c = t.named("trace_id"@)->0;
        let v = c.data->Fixed_0@;
        law_no_false_negatives(c, v, row);
        let k = f.traces.index_of(id);
        assert(maybe(file, f.traces[k]));
    }
}

/// What a span is counted under, literally: the slot of its resource id.
pub proof fn lemma_counted_under(tables: Seq<Named>, t: Table, row: int, k: u64)
    requires
        key_in(keys_in(tables), u16s_named(t, "resource_id"@), row) == Some(k),
        k != 0,
    ensures
        belongs_to(tables, t, row, k),
{
    let rids = u16s_named(t, "resource_id"@)->0;
    let r = table_named(tables, "resources"@)->0;
    let ids = u16s_named(r, "id"@)->0;
    let keys = u64s_named(r, "key"@)->0;
    lemma_slots(ids, keys, r.rows as nat, r.rows as nat);
    let p = lemma_filled(ids, keys, r.rows as nat, r.rows as nat, rids[row]);
    assert(is_last_of(ids, r.rows as int, rids[row], p) && keys[p] == k);
}

pub proof fn lemma_filled(ids: Seq<u16>, keys: Seq<u64>, slots: nat, n: nat, id: u16) -> (p: int)
    requires
        id < slots,
        placed(ids, keys, slots, n)[id as int] != 0,
    ensures
        is_last_of(ids, n as int, id, p),
        placed(ids, keys, slots, n)[id as int] == keys[p],
    decreases n,
{
    lemma_slots(ids, keys, slots, n);
    if n == 0 {
        0
    } else {
        lemma_slots(ids, keys, slots, (n - 1) as nat);
        if ids[n - 1] == id {
            n - 1
        } else {
            lemma_filled(ids, keys, slots, (n - 1) as nat, id)
        }
    }
}

/// A span of one of the traces, in a candidate that meets the window, is of the
/// entity.
pub open spec fn is_peer(
    f: Region,
    refs: Seq<Src>,
    held: Seq<Held>,
    open: Seq<Open>,
    k: u64,
    i: int,
    t: Table,
    row: int,
) -> bool {
    &&& is_span_of(f, refs, held, open, i, t, row)
    &&& refs[i].min_ts <= f.to
    &&& f.from <= refs[i].max_ts
    &&& belongs_to(tables_of(refs[i], held, open), t, row, k)
}

proof fn lemma_rows_peers(w: WalkState, t: Table, ids: Column, keys: Seq<u64>, n: nat, k: u64) -> (r:
    int)
    ensures
        ({
            let v = walk_rows(w, t, ids, keys, Expand::Peers, n);
            v.frame.entities.contains(k) ==> w.frame.entities.contains(k) || (0 <= r < n
                && is_of_traces(ids, w.frame.traces, r) && key_in(
                keys,
                u16s_named(t, "resource_id"@),
                r,
            ) == Some(k) && k != 0)
        }),
    decreases n,
{
    if n == 0 {
        0
    } else {
        let r = lemma_rows_peers(w, t, ids, keys, (n - 1) as nat, k);
        let before = walk_rows(w, t, ids, keys, Expand::Peers, (n - 1) as nat);
        let now = walk_rows(w, t, ids, keys, Expand::Peers, n);
        if before.frame.entities.contains(k) || !now.frame.entities.contains(k) {
            r
        } else {
            let x = key_in(keys, u16s_named(t, "resource_id"@), n - 1)->0;
            let at = now.frame.entities.index_of(k);
            assert(now.frame.entities == before.frame.entities.push(x));
            if at < before.frame.entities.len() {
                assert(before.frame.entities[at] == k);
            }
            n - 1
        }
    }
}

proof fn lemma_all_peers(
    w: WalkState,
    refs: Seq<Src>,
    held: Seq<Held>,
    open: Seq<Open>,
    n: nat,
    k: u64,
) -> (r: Place)
    requires
        n <= refs.len(),
    ensures
        ({
            let v = walk_all(w, refs, held, open, Expand::Peers, n);
            &&& v.frame.entities.contains(k) ==> w.frame.entities.contains(k) || is_peer(
                w.frame,
                refs,
                held,
                open,
                k,
                r.i,
                r.t,
                r.row,
            )
            &&& v.frame.traces == w.frame.traces
            &&& v.frame.from == w.frame.from
            &&& v.frame.to == w.frame.to
        }),
    decreases n,
{
    if n == 0 {
        arbitrary::<Place>()
    } else {
        let r = lemma_all_peers(w, refs, held, open, (n - 1) as nat, k);
        let before = walk_all(w, refs, held, open, Expand::Peers, (n - 1) as nat);
        let now = walk_all(w, refs, held, open, Expand::Peers, n);
        let src = refs[n - 1];
        let tables = tables_of(src, held, open);
        lemma_walk_block(before, tables, Expand::Peers);
        match table_named(tables, "spans"@) {
            Some(t) => match fixed_named(t, "trace_id"@) {
                Some(ids) => {
                    let from = WalkState {
                        stats: Stats {
                            blocks_scanned: before.stats.blocks_scanned.wrapping_add(1),
                            rows_scanned: before.stats.rows_scanned.wrapping_add(t.rows),
                            ..before.stats
                        },
                        ..before
                    };
                    let at = lemma_rows_peers(from, t, ids, keys_in(tables), t.rows as nat, k);
                    if before.frame.entities.contains(k) || !now.frame.entities.contains(k) {
                        r
                    } else {
                        lemma_of_traces(w.frame, t, ids, at);
                        lemma_counted_under(tables, t, at, k);
                        Place { i: n - 1, t, row: at }
                    }
                },
                None => r,
            },
            None => r,
        }
    }
}

/// Looking for peers adds nothing but identities of spans of the frame's traces,
/// out of candidates whose time range meets the window.
pub proof fn law_only_peers_are_added(
    f: Region,
    st: Stats,
    refs: Seq<Src>,
    held: Seq<Held>,
    open: Seq<Open>,
    k: u64,
)
    requires
        expanded(f, st, seq![Expand::Peers], refs, held, open).0.entities.contains(k),
        !f.entities.contains(k),
    ensures
        exists|i: int, t: Table, row: int| #[trigger]
            is_peer(f, refs, held, open, k, i, t, row),
{
    lemma_one_step(f, st, Expand::Peers, refs, held, open);
    let w = walk_start(f, st, refs.len());
    let r = lemma_all_peers(w, refs, held, open, refs.len(), k);
    assert(is_peer(f, refs, held, open, k, r.i, r.t, r.row));
}

// ---------------------------------------------------------------------------
// A margin, and several steps.

/// A margin moves both ends of the window out by itself, as far as time goes,
/// and nothing else.
pub proof fn law_a_margin_is_added_on_both_sides(
    f: Region,
    st: Stats,
    d: i64,
    refs: Seq<Src>,
    held: Seq<Held>,
    open: Seq<Open>,
)
    ensures
        ({
            let r = expanded(f, st, seq![Expand::Around(d)], refs, held, open);
            let g = r.0;
            &&& i64::MIN <= f.from - d <= i64::MAX ==> g.from == f.from - d
            &&& f.from - d < i64::MIN ==> g.from == i64::MIN
            &&& f.from - d > i64::MAX ==> g.from == i64::MAX
            &&& i64::MIN <= f.to + d <= i64::MAX ==> g.to == f.to + d
            &&& f.to + d < i64::MIN ==> g.to == i64::MIN
            &&& f.to + d > i64::MAX ==> g.to == i64::MAX
            &&& g.entities == f.entities
            &&& g.traces == f.traces
            &&& g.truncated == f.truncated
            &&& r.1 == st
        }),
{
    lemma_one_step(f, st, Expand::Around(d), refs, held, open);
}

/// Steps are taken one after the other: some steps and then some more are all of
/// them, and no steps change nothing.
pub proof fn law_steps_follow_each_other(
    f: Region,
    st: Stats,
    a: Seq<Expand>,
    b: Seq<Expand>,
    refs: Seq<Src>,
    held: Seq<Held>,
    open: Seq<Open>,
)
    ensures
        expanded(f, st, Seq::empty(), refs, held, open) == (f, st),
        expanded(f, st, a + b, refs, held, open) == ({
            let mid = expanded(f, st, a, refs, held, open);
            expanded(mid.0, mid.1, b, refs, held, open)
        }),
    decreases b.len(),
{
    if b.len() == 0 {
        assert(a + b =~= a);
    } else {
        law_steps_follow_each_other(f, st, a, b.drop_last(), refs, held, open);
        assert((a + b).drop_last() =~= a + b.drop_last());
        assert((a + b).last() == b.last());
    }
}

// ---------------------------------------------------------------------------
// What a walk costs.

/// The span table of a candidate, where it says which traces its spans are of.
pub open spec fn traced_spans(src: Src, held: Seq<Held>, open: Seq<Open>) -> Option<Table> {
    match table_named(tables_of(src, held, open), "spans"@) {
        Some(t) => if t.named("trace_id"@) matches Some(c) && c.data is Fixed {
            Some(t)
        } else {
            None
        },
        None => None,
    }
}

/// How many of the first `n` spans of a table are of one of the traces.
pub open spec fn spans_among(t: Table, traces: Seq<Seq<u8>>, n: nat) -> nat
    decreases n,
{
    if n == 0 {
        0
    } else {
        spans_among(t, traces, (n - 1) as nat) + if exists|id: Seq<u8>| #[trigger]
            traces.contains(id) && trace_at(t, n - 1, id) {
            1nat
        } else {
            0
        }
    }
}

/// How many of the first `n` candidates have such a table, how many spans they
/// have, and how many of those are of one of the traces.
pub open spec fn cost_of(
    refs: Seq<Src>,
    held: Seq<Held>,
    open: Seq<Open>,
    traces: Seq<Seq<u8>>,
    n: nat,
) -> (nat, nat, nat)
    decreases n,
{
    if n == 0 {
        (0, 0, 0)
    } else {
        let (blocks, rows, hits) = cost_of(refs, held, open, traces, (n - 1) as nat);
        match traced_spans(refs[n - 1], held, open) {
            Some(t) => (
                blocks + 1,
                rows + t.rows as nat,
                hits + spans_among(t, traces, t.rows as nat),
            ),
            None => (blocks, rows, hits),
        }
    }
}

proof fn lemma_spans_among(t: Table, traces: Seq<Seq<u8>>, n: nat)
    ensures
        spans_among(t, traces, n) <= n,
    decreases n,
{
    if n > 0 {
        lemma_spans_among(t, traces, (n - 1) as nat);
    }
}

proof fn lemma_rows_cost(w: WalkState, t: Table, ids: Column, keys: Seq<u64>, op: Expand, n: nat)
    requires
        fixed_named(t, "trace_id"@) == Some(ids),
        w.stats.rows_matched + spans_among(t, w.frame.traces, n) <= usize::MAX,
    ensures
        ({
            let v = walk_rows(w, t, ids, keys, op, n);
            v.stats == (Stats {
                rows_matched: (w.stats.rows_matched + spans_among(
                    t,
                    w.frame.traces,
                    n,
                )) as usize,
                ..w.stats
            })
        }),
    decreases n,
{
    if n > 0 {
        lemma_rows_cost(w, t, ids, keys, op, (n - 1) as nat);
        let traces = w.frame.traces;
        if is_of_traces(ids, traces, n - 1) {
            lemma_of_traces(w.frame, t, ids, n - 1);
        }
        if exists|id: Seq<u8>| #[trigger] traces.contains(id) && trace_at(t, n - 1, id) {
            let id = choose|id: Seq<u8>| #[trigger] traces.contains(id) && trace_at(t, n - 1, id);
            assert(is_of_traces(ids, traces, n - 1));
        }
    }
}

proof fn lemma_cost(w: WalkState, refs: Seq<Src>, held: Seq<Held>, open: Seq<Open>, op: Expand, n: nat)
    requires
        n <= refs.len(),
        forall|i: int| 0 <= i < refs.len() ==> trace_of(#[trigger] refs[i], held) is None,
        op == Expand::Peers ==> forall|i: int|
            0 <= i < refs.len() ==> (#[trigger] refs[i]).min_ts <= w.frame.to && w.frame.from
                <= refs[i].max_ts,
        w.stats.blocks_scanned + cost_of(refs, held, open, w.frame.traces, n).0 <= usize::MAX,
        w.stats.rows_scanned + cost_of(refs, held, open, w.frame.traces, n).1 <= usize::MAX,
        w.stats.rows_matched + cost_of(refs, held, open, w.frame.traces, n).2 <= usize::MAX,
    ensures
        ({
            let v = walk_all(w, refs, held, open, op, n);
            let (blocks, rows, hits) = cost_of(refs, held, open, w.frame.traces, n);
            &&& v.stats == (Stats {
                blocks_scanned: (w.stats.blocks_scanned + blocks) as usize,
                rows_scanned: (w.stats.rows_scanned + rows) as usize,
                rows_matched: (w.stats.rows_matched + hits) as usize,
                ..w.stats
            })
            &&& v.frame.traces == w.frame.traces
        }),
    decreases n,
{
    if n > 0 {
        let src = refs[n - 1];
        let tables = tables_of(src, held, open);
        let traces = w.frame.traces;
        if let Some(t) = traced_spans(src, held, open) {
            lemma_spans_among(t, traces, t.rows as nat);
        }
        lemma_cost(w, refs, held, open, op, (n - 1) as nat);
        let before = walk_all(w, refs, held, open, op, (n - 1) as nat);
        lemma_walk_block(before, tables, op);
        assert(walk_reads(src, trace_of(src, held), w.frame, op));
        if let Some(t) = traced_spans(src, held, open) {
            let ids = fixed_named(t, "trace_id"@)->0;
            let from = WalkState {
                stats: Stats {
                    blocks_scanned: before.stats.blocks_scanned.wrapping_add(1),
                    rows_scanned: before.stats.rows_scanned.wrapping_add(t.rows),
                    ..before.stats
                },
                ..before
            };
            lemma_rows_cost(from, t, ids, keys_in(tables), op, t.rows as nat);
        }
    }
}

/// A walk over candidates without trace filters counts every candidate, those
/// whose spans say their trace, the spans of those, and the ones among them that
/// are of the frame's traces.
pub proof fn law_a_walk_counts_what_it_reads(
    f: Region,
    st: Stats,
    op: Expand,
    refs: Seq<Src>,
    held: Seq<Held>,
    open: Seq<Open>,
)
    requires
        op == Expand::Traces || op == Expand::Peers,
        f.traces.len() > 0,
        forall|i: int| 0 <= i < refs.len() ==> trace_of(#[trigger] refs[i], held) is None,
        op == Expand::Peers ==> forall|i: int|
            0 <= i < refs.len() ==> (#[trigger] refs[i]).min_ts <= f.to && f.from <= refs[i].max_ts,
        st.blocks_total + refs.len() <= usize::MAX,
        st.blocks_scanned + cost_of(refs, held, open, f.traces, refs.len()).0 <= usize::MAX,
        st.rows_scanned + cost_of(refs, held, open, f.traces, refs.len()).1 <= usize::MAX,
        st.rows_matched + cost_of(refs, held, open, f.traces, refs.len()).2 <= usize::MAX,
    ensures
        ({
            let (blocks, rows, hits) = cost_of(refs, held, open, f.traces, refs.len());
            expanded(f, st, seq![op], refs, held, open).1 == (Stats {
                blocks_total: (st.blocks_total + refs.len()) as usize,
                blocks_scanned: (st.blocks_scanned + blocks) as usize,
                rows_scanned: (st.rows_scanned + rows) as usize,
                rows_matched: (st.rows_matched + hits) as usize,
            })
        }),
{
    lemma_one_step(f, st, op, refs, held, open);
    lemma_cost(walk_start(f, st, refs.len()), refs, held, open, op, refs.len());
}

// ---------------------------------------------------------------------------
// What a frame has room for.

/// A frame takes a trace that it does not have while it has fewer than a
/// thousand, at its end; then it says that it is truncated. What is not sixteen
/// bytes is no trace. Nothing else of the frame changes.
pub proof fn law_a_frame_takes_a_thousand_traces(f: Region, id: Seq<u8>)
    ensures
        ({
            let g = f.with_trace(id);
            let is_new = id.len() == 16 && !f.traces.contains(id);
            &&& !is_new ==> g == f
            &&& is_new && f.traces.len() < 1000 ==> g.traces == f.traces.push(id) && g.truncated
                == f.truncated
            &&& is_new && f.traces.len() >= 1000 ==> g.traces == f.traces && g.truncated
            &&& g.from == f.from && g.to == f.to && g.entities == f.entities
        }),
{
}

/// A frame takes an entity that it does not have while it has fewer than two
/// hundred and fifty-six, at its end; then it says that it is truncated. What
/// has no identity is no entity. Nothing else of the frame changes.
pub proof fn law_a_frame_takes_so_many_entities(f: Region, key: u64)
    ensures
        ({
            let g = f.with_entity(key);
            let is_new = key != 0 && !f.entities.contains(key);
            &&& !is_new ==> g == f
            &&& is_new && f.entities.len() < 256 ==> g.entities == f.entities.push(key)
                && g.truncated == f.truncated
            &&& is_new && f.entities.len() >= 256 ==> g.entities == f.entities && g.truncated
            &&& g.from == f.from && g.to == f.to && g.traces == f.traces
        }),
{
}

/// A walk passes a block over exactly where the block has a filter that says no
/// to every trace of the frame.
pub proof fn law_a_block_is_passed_over_by_its_filter(side: Option<Seq<u8>>, traces: Seq<Seq<u8>>)
    ensures
        side is None ==> could_hold(side, traces),
        side matches Some(file) ==> (!could_hold(side, traces) <==> forall|i: int|
            0 <= i < traces.len() ==> !maybe(file, #[trigger] traces[i])),
{
}

} // verus!
