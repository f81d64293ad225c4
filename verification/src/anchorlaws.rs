//! What holds of the frame around what a search matched.

use crate::block::BlockRef;
use crate::float::Floats;
use crate::frame::{
    anchor_block, anchor_from, anchor_start, anchored, key_in, keys_in,
    law_a_window_reads_what_meets_it, matched, newest, tables_of, with_row, with_rows, AnchorState,
    Held, Region,
};
use crate::framelaws::{law_an_anchored_frame_is_legal, lemma_with_row};
use crate::identity::NO_IDENTITY;
use crate::query::Search;
use crate::scan::{fixed_named, fixed_values, u16s_named, Block};
use crate::search::{block_of, covers, sides_of, Stored};
use crate::signal::Open;
use crate::source::{all_sources, Src};
use crate::table::Table;
use vstd::prelude::*;

verus! {

/// Whether a row says a trace: its id is there and of the right length.
pub open spec fn says_trace(root: Table, row: int, id: Seq<u8>) -> bool {
    fixed_named(root, "trace_id"@) matches Some(c) && c.holds(row) && fixed_values(c)[row]@ == id
        && id.len() == 16
}

/// Whether a row says an entity: its resource has the key, and the key means
/// one.
pub open spec fn says_entity(root: Table, keys: Seq<u64>, row: int, key: u64) -> bool {
    key_in(keys, u16s_named(root, "resource_id"@), row) == Some(key) && key != NO_IDENTITY
}

/// Whether one of some rows says a trace.
pub open spec fn rows_say_trace(root: Table, rows: Seq<u32>, id: Seq<u8>) -> bool {
    exists|i: int| 0 <= i < rows.len() && says_trace(root, #[trigger] rows[i] as int, id)
}

/// Whether one of some rows says an entity.
pub open spec fn rows_say_entity(root: Table, keys: Seq<u64>, rows: Seq<u32>, key: u64) -> bool {
    exists|i: int| 0 <= i < rows.len() && says_entity(root, keys, #[trigger] rows[i] as int, key)
}

/// Whether a row of a candidate that a search matches says a trace.
pub open spec fn gives_trace(
    q: Search,
    src: Src,
    stored: Seq<Stored>,
    opened: Seq<Option<Block>>,
    floats: Floats,
    id: Seq<u8>,
) -> bool {
    block_of(src, stored, opened) matches Some(x) && matched(
        q,
        src,
        sides_of(src, stored),
        Some(x),
        floats,
    ) matches Some(rows) && rows_say_trace(*x.root, rows, id)
}

/// Whether a row of a candidate that a search matches says an entity.
pub open spec fn gives_entity(
    q: Search,
    src: Src,
    stored: Seq<Stored>,
    held: Seq<Held>,
    open: Seq<Open>,
    opened: Seq<Option<Block>>,
    floats: Floats,
    key: u64,
) -> bool {
    block_of(src, stored, opened) matches Some(x) && matched(
        q,
        src,
        sides_of(src, stored),
        Some(x),
        floats,
    ) matches Some(rows) && rows_say_entity(
        *x.root,
        keys_in(tables_of(src, held, open)),
        rows,
        key,
    )
}

proof fn lemma_kept<T>(s: Seq<T>, t: Seq<T>, x: T)
    requires
        s.is_prefix_of(t),
        s.contains(x),
    ensures
        t.contains(x),
{
    let k = s.index_of(x);
    assert(t[k] == x);
}

proof fn lemma_row(f: Region, root: Table, keys: Seq<u64>, row: int, id: Seq<u8>, key: u64)
    requires
        !with_row(f, root, keys, row).truncated,
    ensures
        !f.truncated,
        with_row(f, root, keys, row).traces.contains(id) <==> f.traces.contains(id) || says_trace(
            root,
            row,
            id,
        ),
        with_row(f, root, keys, row).entities.contains(key) <==> f.entities.contains(key)
            || says_entity(root, keys, row, key),
{
    let g = with_row(f, root, keys, row);
    lemma_with_row(f, root, keys, row);
    if f.traces.contains(id) {
        lemma_kept(f.traces, g.traces, id);
    }
    if f.entities.contains(key) {
        lemma_kept(f.entities, g.entities, key);
    }
    if g.traces.contains(id) && !f.traces.contains(id) {
        let k = g.traces.index_of(id);
        if k < f.traces.len() {
            assert(f.traces[k] == id);
        }
    }
    if g.entities.contains(key) && !f.entities.contains(key) {
        let k = g.entities.index_of(key);
        if k < f.entities.len() {
            assert(f.entities[k] == key);
        }
    }
}

proof fn lemma_rows(f: Region, root: Table, keys: Seq<u64>, rows: Seq<u32>, id: Seq<u8>, key: u64)
    requires
        !with_rows(f, root, keys, rows).truncated,
    ensures
        !f.truncated,
        with_rows(f, root, keys, rows).traces.contains(id) <==> f.traces.contains(id)
            || rows_say_trace(root, rows, id),
        with_rows(f, root, keys, rows).entities.contains(key) <==> f.entities.contains(key)
            || rows_say_entity(root, keys, rows, key),
    decreases rows.len(),
{
    if rows.len() > 0 {
        let shorter = rows.drop_last();
        let last = rows.last();
        let before = with_rows(f, root, keys, shorter);
        lemma_row(before, root, keys, last as int, id, key);
        lemma_rows(f, root, keys, shorter, id, key);
        assert(rows[rows.len() - 1] == last);
        if rows_say_trace(root, shorter, id) {
            let i = choose|i: int|
                0 <= i < shorter.len() && says_trace(root, #[trigger] shorter[i] as int, id);
            assert(rows[i] == shorter[i]);
        }
        if rows_say_entity(root, keys, shorter, key) {
            let i = choose|i: int|
                0 <= i < shorter.len() && says_entity(root, keys, #[trigger] shorter[i] as int, key);
            assert(rows[i] == shorter[i]);
        }
        if rows_say_trace(root, rows, id) && !says_trace(root, last as int, id) {
            let i = choose|i: int|
                0 <= i < rows.len() && says_trace(root, #[trigger] rows[i] as int, id);
            assert(shorter[i] == rows[i]);
        }
        if rows_say_entity(root, keys, rows, key) && !says_entity(root, keys, last as int, key) {
            let i = choose|i: int|
                0 <= i < rows.len() && says_entity(root, keys, #[trigger] rows[i] as int, key);
            assert(shorter[i] == rows[i]);
        }
    }
}

/// What the candidates from `i` on give, an anchoring that has dropped nothing
/// has taken in, and nothing else.
proof fn lemma_from(
    a: AnchorState,
    refs: Seq<Src>,
    stored: Seq<Stored>,
    held: Seq<Held>,
    open: Seq<Open>,
    opened: Seq<Option<Block>>,
    q: Search,
    floats: Floats,
    i: nat,
    id: Seq<u8>,
    key: u64,
)
    requires
        !anchor_from(a, refs, stored, held, open, opened, q, floats, i).frame.truncated,
    ensures
        ({
            let f = anchor_from(a, refs, stored, held, open, opened, q, floats, i).frame;
            &&& !a.frame.truncated
            &&& f.traces.contains(id) <==> a.frame.traces.contains(id) || exists|j: int|
                i <= j < refs.len() && gives_trace(q, #[trigger] refs[j], stored, opened, floats, id)
            &&& f.entities.contains(key) <==> a.frame.entities.contains(key) || exists|j: int|
                i <= j < refs.len() && gives_entity(
                    q,
                    #[trigger] refs[j],
                    stored,
                    held,
                    open,
                    opened,
                    floats,
                    key,
                )
        }),
    decreases refs.len() - i,
{
    if i < refs.len() && !a.frame.truncated {
        let src = refs[i as int];
        let b = block_of(src, stored, opened);
        let rows = matched(q, src, sides_of(src, stored), b, floats);
        let keys = keys_in(tables_of(src, held, open));
        let next = match b {
            Some(x) => anchor_block(a, *x.root, rows, keys),
            None => a,
        };
        lemma_from(next, refs, stored, held, open, opened, q, floats, i + 1, id, key);
        if let Some(x) = b {
            if let Some(v) = rows {
                lemma_rows(a.frame, *x.root, keys, v, id, key);
            }
        }
        let f = anchor_from(a, refs, stored, held, open, opened, q, floats, i).frame;
        assert(next.frame.traces.contains(id) <==> a.frame.traces.contains(id) || gives_trace(
            q,
            src,
            stored,
            opened,
            floats,
            id,
        ));
        assert(next.frame.entities.contains(key) <==> a.frame.entities.contains(key)
            || gives_entity(q, src, stored, held, open, opened, floats, key));
    }
}

/// The frame around what a search matched has the search's window and names
/// nothing twice. Unless something was dropped, its traces are those of the
/// matching rows of all the candidates that meet the window, and its entities
/// are theirs: each of them, and nothing else.
pub proof fn law_an_anchored_frame_is_exact(
    disk: Seq<BlockRef>,
    stored: Seq<Stored>,
    held: Seq<Held>,
    open: Seq<Open>,
    opened: Seq<Option<Block>>,
    q: Search,
    floats: Floats,
    id: Seq<u8>,
    key: u64,
)
    ensures
        ({
            let all = all_sources(disk, open);
            let f = anchored(disk, stored, held, open, opened, q, floats).frame;
            &&& f.from == q.from && f.to == q.to
            &&& f.is_legal()
            &&& !f.truncated ==> (f.traces.contains(id) <==> exists|src: Src|
                all.contains(src) && src.meets(q.from, q.to) && #[trigger] gives_trace(
                    q,
                    src,
                    stored,
                    opened,
                    floats,
                    id,
                ))
            &&& !f.truncated ==> (f.entities.contains(key) <==> exists|src: Src|
                all.contains(src) && src.meets(q.from, q.to) && #[trigger] gives_entity(
                    q,
                    src,
                    stored,
                    held,
                    open,
                    opened,
                    floats,
                    key,
                ))
        }),
{
    let all = all_sources(disk, open);
    let refs = newest(all, q.from, q.to);
    let a = anchor_start(q.from, q.to, all.len());
    let f = anchored(disk, stored, held, open, opened, q, floats).frame;
    law_an_anchored_frame_is_legal(a, refs, stored, held, open, opened, q, floats, 0);
    assert(a.frame.is_legal());
    if !f.truncated {
        lemma_from(a, refs, stored, held, open, opened, q, floats, 0, id, key);
        assert forall|src: Src| refs.contains(src) <==> all.contains(src) && src.meets(
            q.from,
            q.to,
        ) by {
            law_a_window_reads_what_meets_it(all, q.from, q.to, src);
        }
        if f.traces.contains(id) {
            let j = choose|j: int|
                0 <= j < refs.len() && gives_trace(q, #[trigger] refs[j], stored, opened, floats, id);
            assert(refs.contains(refs[j]));
        }
        if f.entities.contains(key) {
            let j = choose|j: int|
                0 <= j < refs.len() && gives_entity(
                    q,
                    #[trigger] refs[j],
                    stored,
                    held,
                    open,
                    opened,
                    floats,
                    key,
                );
            assert(refs.contains(refs[j]));
        }
        assert forall|src: Src|
            all.contains(src) && src.meets(q.from, q.to) && #[trigger] gives_trace(
                q,
                src,
                stored,
                opened,
                floats,
                id,
            ) implies f.traces.contains(id) by {
            assert(refs.contains(src));
            let j = refs.index_of(src);
            assert(refs[j] == src);
        }
        assert forall|src: Src|
            all.contains(src) && src.meets(q.from, q.to) && #[trigger] gives_entity(
                q,
                src,
                stored,
                held,
                open,
                opened,
                floats,
                key,
            ) implies f.entities.contains(key) by {
            assert(refs.contains(src));
            let j = refs.index_of(src);
            assert(refs[j] == src);
        }
    }
}

/// Two searches for the same rows: they may differ in how many are wanted and
/// where the page starts.
pub open spec fn same_rows(q: Search, p: Search) -> bool {
    p.from == q.from && p.to == q.to && p.terms == q.terms
}

proof fn lemma_same_from(
    a: AnchorState,
    refs: Seq<Src>,
    stored: Seq<Stored>,
    held: Seq<Held>,
    open: Seq<Open>,
    opened: Seq<Option<Block>>,
    q: Search,
    p: Search,
    floats: Floats,
    i: nat,
)
    requires
        same_rows(q, p),
    ensures
        anchor_from(a, refs, stored, held, open, opened, p, floats, i) == anchor_from(
            a,
            refs,
            stored,
            held,
            open,
            opened,
            q,
            floats,
            i,
        ),
    decreases refs.len() - i,
{
    if i < refs.len() && !a.frame.truncated {
        let src = refs[i as int];
        let b = block_of(src, stored, opened);
        let sides = sides_of(src, stored);
        let rows = matched(q, src, sides, b, floats);
        if let Some(x) = b {
            assert(covers(p, src) == covers(q, src));
            let left = |r: u32| x.selects(r as int, p, covers(p, src), floats);
            let right = |r: u32| x.selects(r as int, q, covers(q, src), floats);
            assert(left =~= right);
            assert(x.selected(p, src, floats) == x.selected(q, src, floats));
        }
        assert(matched(p, src, sides, b, floats) == rows);
        let next = match b {
            Some(x) => anchor_block(a, *x.root, rows, keys_in(tables_of(src, held, open))),
            None => a,
        };
        lemma_same_from(next, refs, stored, held, open, opened, q, p, floats, i + 1);
    }
}

/// Neither the limit of a search nor where its page starts shows in the frame
/// around what it matched.
pub proof fn law_a_page_does_not_show_in_a_frame(
    disk: Seq<BlockRef>,
    stored: Seq<Stored>,
    held: Seq<Held>,
    open: Seq<Open>,
    opened: Seq<Option<Block>>,
    q: Search,
    p: Search,
    floats: Floats,
)
    requires
        same_rows(q, p),
    ensures
        anchored(disk, stored, held, open, opened, p, floats) == anchored(
            disk,
            stored,
            held,
            open,
            opened,
            q,
            floats,
        ),
{
    let all = all_sources(disk, open);
    lemma_same_from(
        anchor_start(q.from, q.to, all.len()),
        newest(all, q.from, q.to),
        stored,
        held,
        open,
        opened,
        q,
        p,
        floats,
        0,
    );
}

} // verus!
