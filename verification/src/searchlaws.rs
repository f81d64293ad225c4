//! What a search answers, in terms of the rows there are.

use crate::anchorlaws::{
    gives_entity, gives_trace, law_an_anchored_frame_is_exact, says_entity, says_trace,
};
use crate::block::BlockRef;
use crate::float::Floats;
use crate::frame::{anchored, keys_in, tables_of, Held};
use crate::pagelaws::{
    is_key_of_match, is_match, keeps_range, key_of, keys_of, law_every_match_is_a_key,
    lemma_ordered, lemma_page, matches_of, outcome_of, Store,
};
use crate::probe::{ruled_out, Sides};
use crate::query::{Cursor, Search, Signal};
use crate::scan::Block;
use crate::search::{
    absorbed, answer_of, block_of, covers, sides_of, Answer, Hit, SearchRun, Stats, Stored,
};
use crate::select::all_rows;
use crate::signal::Open;
use crate::source::{all_sources, Src};
use crate::table::Data;
use crate::walklaws::{belongs_to, lemma_belongs, trace_at};
use vstd::prelude::*;

verus! {

/// The time of a row: when a record was made, or when a span started.
pub open spec fn happens_at(b: Block, row: int, at: i64) -> bool {
    let name = if b.signal == Signal::Logs {
        "time_unix_nano"@
    } else {
        "start_time_unix_nano"@
    };
    &&& b.root.named(name) matches Some(c)
    &&& c.data matches Data::Time(v)
    &&& v@[row] == at
}

/// Rows are delivered newest first; of one time, by node, block and row, the
/// higher first.
pub open spec fn is_delivered_before(a: Cursor, b: Cursor) -> bool {
    if a.ts != b.ts {
        a.ts > b.ts
    } else if a.node != b.node {
        a.node > b.node
    } else if a.seq != b.seq {
        a.seq > b.seq
    } else {
        a.row > b.row
    }
}

/// The row is one that was asked for: it lies in the window, its ends included,
/// satisfies every term, and comes after the row that the last page ended with.
pub open spec fn is_asked_for(
    s: Store,
    q: Search,
    floats: Floats,
    src: Src,
    row: u32,
    c: Cursor,
) -> bool {
    &&& s.all().contains(src)
    &&& s.block(src) matches Some(b)
    &&& row < b.root.rows
    &&& c.node == src.node
    &&& c.seq == src.seq
    &&& c.row == row
    &&& happens_at(b, row as int, c.ts)
    &&& q.from <= c.ts
    &&& c.ts <= q.to
    &&& forall|k: int|
        0 <= k < q.terms@.len() ==> b.satisfies(row as int, #[trigger] q.terms@[k], floats)
    &&& q.after matches Some(a) ==> is_delivered_before(a, c)
}

/// Whatever a search answers was asked for.
pub proof fn law_every_hit_was_asked_for(s: Store, q: Search, floats: Floats, c: Cursor)
    requires
        s.wf(),
        matches_of(s, q, floats).contains(c),
    ensures
        exists|src: Src, row: u32| #[trigger] is_asked_for(s, q, floats, src, row, c),
{
    law_every_match_is_a_key(s, q, floats, c);
    assert(is_key_of_match(s, q, floats, c));
    let (src, row) = choose|src: Src, row: u32|
        #[trigger] is_match(s, q, floats, src, row) && c == key_of(s, src, row);
    let b = s.block(src)->0;
    let k = s.all().index_of(src);
    assert(s.all()[k] == src);
    assert(src.min_ts <= b.times()->0[row as int] <= src.max_ts);
    assert(is_asked_for(s, q, floats, src, row, c));
}

/// Whatever was asked for, of a candidate without sidecars to prune it by, is
/// answered.
pub proof fn law_what_was_asked_for_is_a_hit(
    s: Store,
    q: Search,
    floats: Floats,
    src: Src,
    row: u32,
    c: Cursor,
)
    requires
        s.wf(),
        is_asked_for(s, q, floats, src, row, c),
        sides_of(src, s.stored).trace is None,
        sides_of(src, s.stored).attrs is None,
        sides_of(src, s.stored).ranges is None,
    ensures
        matches_of(s, q, floats).contains(c),
{
    let b = s.block(src)->0;
    let k = s.all().index_of(src);
    assert(s.all()[k] == src);
    assert(b.times() matches Some(t) && t[row as int] == c.ts);
    assert(src.min_ts <= b.times()->0[row as int] <= src.max_ts);
    assert(is_match(s, q, floats, src, row));
    assert(c == key_of(s, src, row));
    law_every_match_is_a_key(s, q, floats, c);
}

/// A page is the first rows of what a search answers, as many as its limit or
/// all there are, each delivered before the next.
pub proof fn law_a_page_is_the_first_rows(s: Store, q: Search, floats: Floats, i: int, j: int)
    requires
        s.wf(),
    ensures
        ({
            let all = matches_of(s, q, floats);
            let page = outcome_of(s, q, floats).0;
            &&& page.len() == if all.len() < q.limit {
                all.len() as int
            } else {
                q.limit as int
            }
            &&& 0 <= i < page.len() ==> page[i].at == all[i]
            &&& 0 <= i < j < all.len() ==> is_delivered_before(all[i], all[j])
        }),
{
    let page = outcome_of(s, q, floats).0;
    lemma_ordered(s, q, floats);
    lemma_page(s, q, floats);
    if 0 <= i < page.len() {
        assert(keys_of(page)[i] == page[i].at);
    }
    assert(keys_of(page).len() == page.len());
}

// ---------------------------------------------------------------------------
// The frame around what a search matched.

proof fn lemma_filtered(s: Seq<u32>, keep: spec_fn(u32) -> bool, x: u32)
    ensures
        s.filter(keep).contains(x) <==> s.contains(x) && keep(x),
    decreases s.len(),
{
    reveal(Seq::filter);
    if s.len() > 0 {
        let t = s.drop_last();
        lemma_filtered(t, keep, x);
        let (f, g) = (s.filter(keep), t.filter(keep));
        if t.contains(x) {
            assert(s[t.index_of(x)] == x);
        }
        if s.contains(x) && !t.contains(x) {
            let k = s.index_of(x);
            if k < t.len() {
                assert(t[k] == x);
            }
        }
        if g.contains(x) {
            assert(f[g.index_of(x)] == x);
        }
        if keep(s.last()) {
            assert(f[f.len() - 1] == s.last());
            if f.contains(x) && !g.contains(x) {
                let k = f.index_of(x);
                if k < g.len() {
                    assert(g[k] == x);
                }
            }
        }
    }
}

proof fn lemma_selected(b: Block, q: Search, src: Src, floats: Floats, row: u32)
    ensures
        b.selected(q, src, floats).contains(row) <==> row < b.root.rows && b.selects(
            row as int,
            q,
            covers(q, src),
            floats,
        ),
{
    let all = all_rows(b.root.rows as nat);
    let keep = |i: u32| b.selects(i as int, q, covers(q, src), floats);
    lemma_filtered(all, keep, row);
    if row < b.root.rows {
        assert(all[row as int] == row);
    }
    if all.contains(row) {
        let k = all.index_of(row);
        assert(all[k] == row);
    }
}

/// The row of a candidate lies in the window, its ends included, and satisfies
/// every term.
pub open spec fn is_in_question(
    disk: Seq<BlockRef>,
    stored: Seq<Stored>,
    open: Seq<Open>,
    opened: Seq<Option<Block>>,
    q: Search,
    floats: Floats,
    src: Src,
    b: Block,
    row: u32,
    at: i64,
) -> bool {
    &&& all_sources(disk, open).contains(src)
    &&& block_of(src, stored, opened) == Some(b)
    &&& row < b.root.rows
    &&& b.root.rows <= u32::MAX
    &&& happens_at(b, row as int, at)
    &&& src.min_ts <= at
    &&& at <= src.max_ts
    &&& q.from <= at
    &&& at <= q.to
    &&& forall|k: int|
        0 <= k < q.terms@.len() ==> b.satisfies(row as int, #[trigger] q.terms@[k], floats)
}

/// The frame around a search has the trace of every row that the search matches,
/// in a candidate without sidecars to prune it by, and the identity of its
/// resource; or it says that it had to drop something.
pub proof fn law_a_matching_row_is_in_the_frame(
    disk: Seq<BlockRef>,
    stored: Seq<Stored>,
    held: Seq<Held>,
    open: Seq<Open>,
    opened: Seq<Option<Block>>,
    q: Search,
    floats: Floats,
    src: Src,
    b: Block,
    row: u32,
    at: i64,
    id: Seq<u8>,
    key: u64,
)
    requires
        is_in_question(disk, stored, open, opened, q, floats, src, b, row, at),
        sides_of(src, stored).trace is None,
        sides_of(src, stored).attrs is None,
        sides_of(src, stored).ranges is None,
    ensures
        ({
            let f = anchored(disk, stored, held, open, opened, q, floats).frame;
            &&& f.from == q.from
            &&& f.to == q.to
            &&& trace_at(*b.root, row as int, id) && id.len() == 16 ==> f.traces.contains(id)
                || f.truncated
            &&& belongs_to(tables_of(src, held, open), *b.root, row as int, key) && key != 0
                ==> f.entities.contains(key) || f.truncated
        }),
{
    let f = anchored(disk, stored, held, open, opened, q, floats).frame;
    law_an_anchored_frame_is_exact(disk, stored, held, open, opened, q, floats, id, key);
    lemma_selected(b, q, src, floats, row);
    assert(b.times() matches Some(t) && t[row as int] == at);
    let rows = b.selected(q, src, floats);
    let k = rows.index_of(row);
    assert(rows[k] == row);
    if !f.truncated {
        if trace_at(*b.root, row as int, id) && id.len() == 16 {
            assert(says_trace(*b.root, rows[k] as int, id));
            assert(gives_trace(q, src, stored, opened, floats, id));
        }
        if belongs_to(tables_of(src, held, open), *b.root, row as int, key) && key != 0 {
            lemma_belongs(tables_of(src, held, open), *b.root, row as int, key);
            assert(says_entity(*b.root, keys_in(tables_of(src, held, open)), rows[k] as int, key));
            assert(gives_entity(q, src, stored, held, open, opened, floats, key));
        }
    }
}

/// Where nothing was dropped, every trace of the frame around a search is that
/// of a row in the window that satisfies every term, in a candidate that keeps
/// the range it claims.
pub proof fn law_the_frame_has_only_matching_rows(
    disk: Seq<BlockRef>,
    stored: Seq<Stored>,
    held: Seq<Held>,
    open: Seq<Open>,
    opened: Seq<Option<Block>>,
    q: Search,
    floats: Floats,
    id: Seq<u8>,
)
    requires
        !anchored(disk, stored, held, open, opened, q, floats).frame.truncated,
        anchored(disk, stored, held, open, opened, q, floats).frame.traces.contains(id),
        forall|src: Src|
            all_sources(disk, open).contains(src) ==> (#[trigger] block_of(
                src,
                stored,
                opened,
            ) matches Some(b) ==> keeps_range(src, b) && b.root.rows <= u32::MAX),
    ensures
        exists|src: Src, b: Block, row: u32, at: i64|
            #[trigger] is_in_question(
                disk,
                stored,
                open,
                opened,
                q,
                floats,
                src,
                b,
                row,
                at,
            ) && trace_at(*b.root, row as int, id),
{
    law_an_anchored_frame_is_exact(disk, stored, held, open, opened, q, floats, id, 0);
    let src = choose|src: Src|
        all_sources(disk, open).contains(src) && src.meets(q.from, q.to) && #[trigger] gives_trace(
            q,
            src,
            stored,
            opened,
            floats,
            id,
        );
    let b = block_of(src, stored, opened)->0;
    let rows = b.selected(q, src, floats);
    let k = choose|k: int|
        0 <= k < rows.len() && says_trace(*b.root, #[trigger] rows[k] as int, id);
    let row = rows[k];
    lemma_selected(b, q, src, floats, row);
    assert(rows.contains(row));
    let at = b.times()->0[row as int];
    assert(src.min_ts <= b.times()->0[row as int] <= src.max_ts);
    assert(is_in_question(disk, stored, open, opened, q, floats, src, b, row, at));
}

// ---------------------------------------------------------------------------
// What a search says it cost.

/// How many of some candidates were opened.
pub open spec fn opened_in(answers: Seq<Answer>) -> nat
    decreases answers.len(),
{
    if answers.len() == 0 {
        0
    } else {
        opened_in(answers.skip(1)) + if answers[0].rows is Some {
            1nat
        } else {
            0
        }
    }
}

/// How many rows the opened ones have.
pub open spec fn rows_in(answers: Seq<Answer>) -> nat
    decreases answers.len(),
{
    if answers.len() == 0 {
        0
    } else {
        rows_in(answers.skip(1)) + match answers[0].rows {
            Some(n) => n as nat,
            None => 0,
        }
    }
}

/// How many of their rows matched.
pub open spec fn hits_in(answers: Seq<Answer>) -> nat
    decreases answers.len(),
{
    if answers.len() == 0 {
        0
    } else {
        hits_in(answers.skip(1)) + answers[0].hits.len()
    }
}

proof fn lemma_one_more(answers: Seq<Answer>)
    requires
        answers.len() > 0,
    ensures
        opened_in(answers) == opened_in(answers.drop_last()) + if answers.last().rows is Some {
            1nat
        } else {
            0
        },
        rows_in(answers) == rows_in(answers.drop_last()) + match answers.last().rows {
            Some(n) => n as nat,
            None => 0,
        },
        hits_in(answers) == hits_in(answers.drop_last()) + answers.last().hits.len(),
    decreases answers.len(),
{
    let t = answers.drop_last();
    if answers.len() == 1 {
        assert(answers.skip(1) =~= Seq::empty());
        assert(t =~= Seq::empty());
        reveal_with_fuel(opened_in, 2);
        reveal_with_fuel(rows_in, 2);
        reveal_with_fuel(hits_in, 2);
    } else {
        lemma_one_more(answers.skip(1));
        assert(answers.skip(1).drop_last() =~= t.skip(1));
        assert(answers.skip(1).last() == answers.last());
        assert(t[0] == answers[0]);
    }
}

/// A search counts the candidates it opened, the rows they have and the rows
/// that matched, on this page or not, and nothing else. (Counts that a word can
/// hold.)
pub proof fn law_a_search_counts_what_it_reads(
    page: Seq<Hit>,
    stats: Stats,
    answers: Seq<Answer>,
    limit: nat,
)
    requires
        stats.blocks_scanned + opened_in(answers) <= usize::MAX,
        stats.rows_scanned + rows_in(answers) <= usize::MAX,
        stats.rows_matched + hits_in(answers) <= usize::MAX,
    ensures
        ({
            let s = absorbed(page, stats, answers, limit).1;
            &&& s.blocks_scanned == stats.blocks_scanned + opened_in(answers)
            &&& s.rows_scanned == stats.rows_scanned + rows_in(answers)
            &&& s.rows_matched == stats.rows_matched + hits_in(answers)
            &&& s.blocks_total == stats.blocks_total
            &&& s.dropped_series == stats.dropped_series
        }),
    decreases answers.len(),
{
    if answers.len() > 0 {
        lemma_one_more(answers);
        law_a_search_counts_what_it_reads(page, stats, answers.drop_last(), limit);
    }
}

/// A candidate is opened exactly if its tables are there and no sidecar rules it
/// out; all its rows then count, and otherwise none matches.
pub proof fn law_a_candidate_is_opened_or_not(
    q: Search,
    src: Src,
    block: usize,
    sides: Sides,
    b: Option<Block>,
    floats: Floats,
)
    ensures
        ({
            let a = answer_of(q, src, block, sides, b, floats);
            &&& a.rows is Some <==> b is Some && !ruled_out(q, sides, floats)
            &&& a.rows is Some ==> a.rows == Some(b->0.root.rows)
            &&& a.rows is None ==> a.hits.len() == 0
        }),
{
}

/// There is a next page exactly if this one is full, and it starts after the
/// last row of this one.
pub proof fn law_a_full_page_has_a_next(page: Seq<Hit>, limit: nat)
    ensures
        SearchRun::next_cursor(page, limit) is Some <==> page.len() == limit && limit > 0,
        SearchRun::next_cursor(page, limit) is Some ==> SearchRun::next_cursor(page, limit) == Some(
            page[limit - 1].at,
        ),
{
}

} // verus!
