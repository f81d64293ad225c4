//! What holds of the pages of a search taken together.

use crate::block::BlockRef;
use crate::float::Floats;
use crate::paging::{
    counted_from, distinct, gathered, law_hits_are_the_selected_rows, law_page_is_the_newest,
    law_the_last_page_counts_everything, lemma_ranked_distinct, truthful,
};
use crate::probe::ruled_out;
use crate::query::{Cursor, Search};
use crate::scan::Block;
use crate::search::{
    all_answers, all_wf, block_of, covers, cursor_of, hits_of, is_after, is_here, lemma_block_hits,
    lemma_sources_here, planned, run_from, sides_of, wanted, wanted_upto, Answer, Hit, SearchRun,
    Stats, Stored,
};
use crate::select::all_rows;
use crate::signal::Open;
use crate::sort::{first, lemma_ranked, lemma_ranked_contains, ranked, Ranked};
use crate::source::{all_sources, Src};
use vstd::prelude::*;
use vstd::seq_lib::*;

verus! {

/// What a search runs over: the published blocks and the snapshots, and what
/// can be read of each.
pub struct Store<'a> {
    pub disk: Seq<BlockRef>,
    pub stored: Seq<Stored<'a>>,
    pub open: Seq<Open>,
    pub opened: Seq<Option<Block<'a>>>,
}

impl<'a> Store<'a> {
    /// The candidates there are.
    pub open spec fn all(self) -> Seq<Src> {
        all_sources(self.disk, self.open)
    }

    pub open spec fn block(self, src: Src) -> Option<Block<'a>> {
        block_of(src, self.stored, self.opened)
    }

    /// The store can be searched: every candidate is at hand, no two have one
    /// identity, and every row of one lies in the range it claims.
    pub open spec fn wf(self) -> bool {
        &&& self.disk.len() == self.stored.len() <= usize::MAX
        &&& self.open.len() == self.opened.len() <= usize::MAX
        &&& self.all().len() <= usize::MAX
        &&& all_wf(self.stored, self.opened)
        &&& forall|i: int, j: int|
            0 <= i < j < self.all().len() ==> !same_identity(
                #[trigger] self.all()[i],
                #[trigger] self.all()[j],
            )
        &&& forall|i: int|
            0 <= i < self.all().len() ==> (self.block(#[trigger] self.all()[i]) matches Some(b)
                ==> keeps_range(self.all()[i], b))
    }
}

/// Whether two candidates have one identity.
pub open spec fn same_identity(a: Src, b: Src) -> bool {
    a.node == b.node && a.seq == b.seq
}

/// Whether every row of a block lies in the range the candidate claims.
pub open spec fn keeps_range(src: Src, b: Block) -> bool {
    b.times() matches Some(t) ==> forall|i: int|
        0 <= i < b.root.rows ==> src.min_ts <= #[trigger] t[i] <= src.max_ts
}

/// The sort keys of some hits.
pub open spec fn keys_of(hits: Seq<Hit>) -> Seq<Cursor> {
    hits.map_values(|h: Hit| h.at)
}

/// Whether keys stand in the order rows are delivered in, each once.
pub open spec fn strictly_ordered(s: Seq<Cursor>) -> bool {
    forall|i: int, j: int| 0 <= i < j < s.len() ==> (#[trigger] s[i]).precedes(#[trigger] s[j])
}

/// What each candidate of a search contributes.
pub open spec fn answers_of(s: Store, q: Search, floats: Floats) -> Seq<Answer> {
    all_answers(planned(s.disk, s.open, q), s.stored, s.opened, q, floats)
}

/// The sort keys of all the hits of a search, in order.
pub open spec fn matches_of(s: Store, q: Search, floats: Floats) -> Seq<Cursor> {
    keys_of(ranked(gathered(answers_of(s, q, floats), planned(s.disk, s.open, q).len())))
}

/// What a search comes to: its page and its counts.
pub open spec fn outcome_of(s: Store, q: Search, floats: Floats) -> (Seq<Hit>, Stats) {
    run_from(
        planned(s.disk, s.open, q),
        answers_of(s, q, floats),
        0,
        Seq::empty(),
        Stats { blocks_total: s.all().len() as usize, ..Stats::none() },
        q.limit as nat,
    )
}

/// Where the page after this one starts.
pub open spec fn next_of(s: Store, q: Search, floats: Floats) -> Option<Cursor> {
    SearchRun::next_cursor(outcome_of(s, q, floats).0, q.limit as nat)
}

/// The search for what comes after a row.
pub open spec fn after(q: Search, c: Cursor) -> Search {
    Search { after: Some(c), ..q }
}

/// The sort keys of the first `n` pages, each page asked for with what the one
/// before it gave as its next.
pub open spec fn pages(s: Store, q: Search, floats: Floats, n: nat) -> Seq<Cursor>
    decreases n,
{
    if n == 0 {
        Seq::empty()
    } else {
        let page = keys_of(outcome_of(s, q, floats).0);
        match next_of(s, q, floats) {
            Some(c) => page + pages(s, after(q, c), floats, (n - 1) as nat),
            None => page,
        }
    }
}

/// Whether a row of a candidate lies in the window of a search and satisfies its
/// terms.
pub open spec fn is_match(s: Store, q: Search, floats: Floats, src: Src, row: u32) -> bool {
    &&& s.all().contains(src)
    &&& src.meets(q.from, q.to)
    &&& s.block(src) matches Some(b) && !ruled_out(q, sides_of(src, s.stored), floats) && b.times() is Some
        && row < b.root.rows && b.selects(row as int, q, covers(q, src), floats)
}

/// The sort key of a row.
pub open spec fn key_of(s: Store, src: Src, row: u32) -> Cursor {
    cursor_of(src, s.block(src).unwrap().times().unwrap()[row as int], row)
}

// ---------------------------------------------------------------------------
// Which keys there are.

proof fn lemma_wanted_contains(all: Seq<Src>, q: Search, n: nat, x: Src)
    requires
        n <= all.len(),
    ensures
        wanted_upto(all, q, n).contains(x) <==> wanted(x, q) && exists|k: int|
            0 <= k < n && #[trigger] all[k] == x,
    decreases n,
{
    if n > 0 {
        lemma_wanted_contains(all, q, (n - 1) as nat, x);
        let before = wanted_upto(all, q, (n - 1) as nat);
        let now = wanted_upto(all, q, n);
        if before.contains(x) {
            assert(now[before.index_of(x)] == x);
        }
        if wanted(all[n - 1], q) {
            assert(now[before.len() as int] == all[n - 1]);
            if now.contains(x) {
                let k = now.index_of(x);
                if k < before.len() {
                    assert(before[k] == x);
                } else {
                    assert(all[n - 1] == x);
                }
            }
        }
    }
}

proof fn lemma_planned_contains(s: Store, q: Search, x: Src)
    ensures
        planned(s.disk, s.open, q).contains(x) <==> s.all().contains(x) && wanted(x, q),
{
    let all = s.all();
    lemma_wanted_contains(all, q, all.len(), x);
    lemma_ranked_contains(wanted_upto(all, q, all.len()), x);
    if s.all().contains(x) {
        let k = all.index_of(x);
        assert(all[k] == x);
    }
}

proof fn lemma_wanted_len(all: Seq<Src>, q: Search, n: nat)
    ensures
        wanted_upto(all, q, n).len() <= n,
    decreases n,
{
    if n > 0 {
        lemma_wanted_len(all, q, (n - 1) as nat);
    }
}

proof fn lemma_wanted_apart(all: Seq<Src>, q: Search, n: nat)
    requires
        n <= all.len(),
        forall|i: int, j: int|
            0 <= i < j < all.len() ==> !same_identity(#[trigger] all[i], #[trigger] all[j]),
    ensures
        wanted_upto(all, q, n).no_duplicates(),
    decreases n,
{
    if n > 0 {
        lemma_wanted_apart(all, q, (n - 1) as nat);
        let before = wanted_upto(all, q, (n - 1) as nat);
        lemma_wanted_contains(all, q, (n - 1) as nat, all[n - 1]);
        assert(!before.contains(all[n - 1])) by {
            if before.contains(all[n - 1]) {
                let k = choose|k: int| 0 <= k < n - 1 && #[trigger] all[k] == all[n - 1];
                assert(!same_identity(all[k], all[n - 1]));
            }
        }
        let now = wanted_upto(all, q, n);
        assert forall|i: int, j: int| 0 <= i < now.len() && 0 <= j < now.len() && i != j implies now[i]
            != now[j] by {
            if i < before.len() {
                assert(before.contains(before[i]));
            }
            if j < before.len() {
                assert(before.contains(before[j]));
            }
        }
    }
}

/// No two candidates of a search have one identity.
proof fn lemma_planned_apart(s: Store, q: Search, i: int, j: int)
    requires
        s.wf(),
        0 <= i < j < planned(s.disk, s.open, q).len(),
    ensures
        !same_identity(planned(s.disk, s.open, q)[i], planned(s.disk, s.open, q)[j]),
{
    let all = s.all();
    let w = wanted_upto(all, q, all.len());
    let r = planned(s.disk, s.open, q);
    lemma_wanted_apart(all, q, all.len());
    lemma_ranked(w);
    w.lemma_multiset_has_no_duplicates();
    r.lemma_multiset_has_no_duplicates_conv();
    assert(r[i] != r[j]);
    lemma_planned_contains(s, q, r[i]);
    lemma_planned_contains(s, q, r[j]);
    assert(r.contains(r[i]) && r.contains(r[j]));
    let a = all.index_of(r[i]);
    let b = all.index_of(r[j]);
    assert(all[a] == r[i] && all[b] == r[j]);
    if a < b {
        assert(!same_identity(all[a], all[b]));
    } else {
        assert(!same_identity(all[b], all[a]));
    }
}

proof fn lemma_planned_len(s: Store, q: Search)
    ensures
        planned(s.disk, s.open, q).len() <= s.all().len(),
{
    lemma_wanted_len(s.all(), q, s.all().len());
    lemma_ranked(wanted_upto(s.all(), q, s.all().len()));
}

/// The block of a candidate can be scanned, and keeps the range it claims.
proof fn lemma_block(s: Store, src: Src)
    requires
        s.wf(),
        s.all().contains(src),
    ensures
        s.block(src) matches Some(b) ==> b.wf() && keeps_range(src, b),
{
    lemma_sources_here(s.disk, s.open);
    let k = s.all().index_of(src);
    assert(s.all()[k] == src);
    assert(is_here(s.all()[k], s.disk.len(), s.open.len()));
    if let Some(b) = s.block(src) {
        match src.origin {
            crate::source::Origin::Disk(i) => {
                assert(s.stored[i as int].block == Some(b));
            },
            crate::source::Origin::Open(i) => {
                assert(s.opened[i as int] == Some(b));
            },
        }
    }
}

/// The hits of one candidate, by their keys.
proof fn lemma_answer(s: Store, q: Search, floats: Floats, i: int, c: Cursor)
    requires
        s.wf(),
        0 <= i < planned(s.disk, s.open, q).len(),
    ensures
        ({
            let src = planned(s.disk, s.open, q)[i];
            let hits = answers_of(s, q, floats)[i].hits;
            &&& (exists|k: int| 0 <= k < hits.len() && (#[trigger] hits[k]).at == c) <==> exists|row: u32|
                #[trigger] is_match(s, q, floats, src, row) && c == key_of(s, src, row) && is_after(
                    c,
                    q.after,
                )
            &&& forall|k: int|
                0 <= k < hits.len() ==> src.min_ts <= (#[trigger] hits[k]).at.ts <= src.max_ts
            &&& forall|k: int|
                0 <= k < hits.len() ==> (#[trigger] hits[k]).at.node == src.node && hits[k].at.seq
                    == src.seq
        }),
{
    let refs = planned(s.disk, s.open, q);
    let src = refs[i];
    let hits = answers_of(s, q, floats)[i].hits;
    assert(refs.contains(src));
    lemma_planned_contains(s, q, src);
    lemma_planned_len(s, q);
    lemma_block(s, src);
    let block = i as usize;
    if let Some(b) = s.block(src) {
        if !ruled_out(q, sides_of(src, s.stored), floats) {
            assert(hits == b.hits(q, src, block, floats));
            lemma_block_hits(b, q, src, block, floats);
            if b.times() is Some {
                let times = b.times().unwrap();
                assert forall|k: int| 0 <= k < hits.len() implies is_match(
                    s,
                    q,
                    floats,
                    src,
                    (#[trigger] hits[k]).at.row,
                ) && hits[k].at == key_of(s, src, hits[k].at.row) && is_after(hits[k].at, q.after) by {
                    let row = hits[k].at.row;
                    law_hits_are_the_selected_rows(b, q, src, block, floats, row);
                    assert(hits[k] == (Hit { at: cursor_of(src, times[row as int], row), block }));
                    assert(hits.contains(hits[k]));
                }
                assert forall|row: u32|
                    #[trigger] is_match(s, q, floats, src, row) && c == key_of(s, src, row)
                        && is_after(c, q.after) implies exists|k: int|
                    0 <= k < hits.len() && (#[trigger] hits[k]).at == c by {
                    law_hits_are_the_selected_rows(b, q, src, block, floats, row);
                    let h = Hit { at: cursor_of(src, times[row as int], row), block };
                    assert(hits.contains(h));
                    assert(hits[hits.index_of(h)].at == c);
                }
                assert forall|k: int| 0 <= k < hits.len() implies src.min_ts <= (
                #[trigger] hits[k]).at.ts <= src.max_ts by {
                    assert(times[hits[k].at.row as int] == hits[k].at.ts);
                }
            }
        }
    }
}

proof fn lemma_gathered(answers: Seq<Answer>, n: nat, c: Cursor)
    requires
        n <= answers.len(),
    ensures
        keys_of(gathered(answers, n)).contains(c) <==> exists|i: int, k: int|
            0 <= i < n && 0 <= k < answers[i].hits.len() && (#[trigger] answers[i].hits[k]).at == c,
    decreases n,
{
    if n > 0 {
        lemma_gathered(answers, (n - 1) as nat, c);
        let before = gathered(answers, (n - 1) as nat);
        let hits = answers[n - 1].hits;
        let now = gathered(answers, n);
        if keys_of(before).contains(c) {
            let k = keys_of(before).index_of(c);
            assert(keys_of(now)[k] == c);
        }
        if exists|k: int| 0 <= k < hits.len() && (#[trigger] answers[n - 1].hits[k]).at == c {
            let k = choose|k: int|
                0 <= k < hits.len() && (#[trigger] answers[n - 1].hits[k]).at == c;
            assert(keys_of(now)[before.len() + k] == c);
        }
        if keys_of(now).contains(c) {
            let k = keys_of(now).index_of(c);
            if k < before.len() {
                assert(keys_of(before)[k] == c);
            } else {
                assert(answers[n - 1].hits[k - before.len()].at == c);
            }
        }
    }
}

proof fn lemma_keys_contain(g: Seq<Hit>, c: Cursor)
    ensures
        keys_of(ranked(g)).contains(c) <==> keys_of(g).contains(c),
{
    let r = ranked(g);
    if keys_of(r).contains(c) {
        let k = keys_of(r).index_of(c);
        assert(r.contains(r[k]));
        lemma_ranked_contains(g, r[k]);
        assert(keys_of(g)[g.index_of(r[k])] == c);
    }
    if keys_of(g).contains(c) {
        let k = keys_of(g).index_of(c);
        assert(g.contains(g[k]));
        lemma_ranked_contains(g, g[k]);
        assert(keys_of(r)[r.index_of(g[k])] == c);
    }
}

/// Whether a key is that of a matching row behind the cursor.
pub open spec fn is_key_of_match(s: Store, q: Search, floats: Floats, c: Cursor) -> bool {
    is_after(c, q.after) && exists|src: Src, row: u32|
        #[trigger] is_match(s, q, floats, src, row) && c == key_of(s, src, row)
}

/// The keys of a search are those of the matching rows of all the candidates,
/// as far as they lie behind the cursor: leaving out the candidates that have
/// been delivered loses nothing.
pub proof fn law_every_match_is_a_key(s: Store, q: Search, floats: Floats, c: Cursor)
    requires
        s.wf(),
    ensures
        matches_of(s, q, floats).contains(c) <==> is_key_of_match(s, q, floats, c),
{
    let refs = planned(s.disk, s.open, q);
    let answers = answers_of(s, q, floats);
    lemma_keys_contain(gathered(answers, refs.len()), c);
    lemma_gathered(answers, refs.len(), c);
    if matches_of(s, q, floats).contains(c) {
        let (i, k) = choose|i: int, k: int|
            0 <= i < refs.len() && 0 <= k < answers[i].hits.len() && (
            #[trigger] answers[i].hits[k]).at == c;
        lemma_answer(s, q, floats, i, c);
        let row = choose|row: u32|
            #[trigger] is_match(s, q, floats, refs[i], row) && c == key_of(s, refs[i], row)
                && is_after(c, q.after);
        assert(is_match(s, q, floats, refs[i], row));
    }
    if is_key_of_match(s, q, floats, c) {
        let (src, row) = choose|src: Src, row: u32|
            #[trigger] is_match(s, q, floats, src, row) && c == key_of(s, src, row);
        lemma_block(s, src);
        let b = s.block(src).unwrap();
        assert(src.min_ts <= b.times().unwrap()[row as int] <= src.max_ts);
        assert(wanted(src, q));
        lemma_planned_contains(s, q, src);
        let i = refs.index_of(src);
        assert(refs[i] == src);
        lemma_answer(s, q, floats, i, c);
        let hits = answers[i].hits;
        let k = choose|k: int| 0 <= k < hits.len() && (#[trigger] hits[k]).at == c;
        assert(answers[i].hits[k].at == c);
    }
}

// ---------------------------------------------------------------------------
// Each key is there once, in its place.

proof fn lemma_filter_distinct(s: Seq<u32>, p: spec_fn(u32) -> bool)
    requires
        s.no_duplicates(),
    ensures
        s.filter(p).no_duplicates(),
        forall|i: int| 0 <= i < s.filter(p).len() ==> s.contains(#[trigger] s.filter(p)[i]),
    decreases s.len(),
{
    reveal(Seq::filter);
    if s.len() > 0 {
        let t = s.drop_last();
        assert(t.no_duplicates());
        lemma_filter_distinct(t, p);
        let before = t.filter(p);
        let now = s.filter(p);
        assert forall|i: int| 0 <= i < now.len() implies s.contains(#[trigger] now[i]) by {
            if i < before.len() {
                assert(now[i] == before[i]);
                assert(s[t.index_of(before[i])] == before[i]);
            } else {
                assert(s[s.len() - 1] == now[i]);
            }
        }
        assert forall|i: int, j: int| 0 <= i < now.len() && 0 <= j < now.len() && i != j implies now[i]
            != now[j] by {
            if i < before.len() {
                assert(t.contains(before[i]));
                assert(s[t.index_of(before[i])] != s[s.len() - 1]);
            }
            if j < before.len() {
                assert(t.contains(before[j]));
                assert(s[t.index_of(before[j])] != s[s.len() - 1]);
            }
        }
    }
}

proof fn lemma_hits_distinct(rows: Seq<u32>, times: Seq<i64>, src: Src, block: usize, c: Option<Cursor>)
    requires
        rows.no_duplicates(),
    ensures
        distinct(hits_of(rows, times, src, block, c)),
        forall|i: int|
            0 <= i < hits_of(rows, times, src, block, c).len() ==> rows.contains(
                (#[trigger] hits_of(rows, times, src, block, c)[i]).at.row,
            ),
    decreases rows.len(),
{
    if rows.len() > 0 {
        let t = rows.drop_last();
        assert(t.no_duplicates());
        lemma_hits_distinct(t, times, src, block, c);
        let before = hits_of(t, times, src, block, c);
        let now = hits_of(rows, times, src, block, c);
        assert forall|i: int| 0 <= i < now.len() implies rows.contains((#[trigger] now[i]).at.row) by {
            if i < before.len() {
                assert(now[i] == before[i]);
                assert(rows[t.index_of(before[i].at.row)] == before[i].at.row);
            } else {
                assert(rows[rows.len() - 1] == now[i].at.row);
            }
        }
        assert forall|i: int, j: int| 0 <= i < j < now.len() implies (#[trigger] now[i]).at != (
        #[trigger] now[j]).at by {
            assert(now[i] == before[i]);
            if j < before.len() {
                assert(now[j] == before[j]);
            } else {
                assert(t.contains(before[i].at.row));
                assert(rows[t.index_of(before[i].at.row)] != rows[rows.len() - 1]);
            }
        }
    }
}

proof fn lemma_answer_distinct(s: Store, q: Search, floats: Floats, i: int)
    requires
        s.wf(),
        0 <= i < planned(s.disk, s.open, q).len(),
    ensures
        distinct(answers_of(s, q, floats)[i].hits),
{
    let src = planned(s.disk, s.open, q)[i];
    assert(planned(s.disk, s.open, q).contains(src));
    lemma_planned_contains(s, q, src);
    lemma_block(s, src);
    if let Some(b) = s.block(src) {
        if let Some(times) = b.times() {
            let n = b.root.rows as nat;
            let rows = all_rows(n);
            assert forall|i: int, j: int| 0 <= i < n && 0 <= j < n && i != j implies rows[i] != rows[j] by {
                assert(rows[i] == i && rows[j] == j);
            }
            lemma_filter_distinct(
                rows,
                |r: u32| b.selects(r as int, q, covers(q, src), floats),
            );
            lemma_hits_distinct(b.selected(q, src, floats), times, src, i as usize, q.after);
        }
    }
}

proof fn lemma_gathered_distinct(s: Store, q: Search, floats: Floats, n: nat)
    requires
        s.wf(),
        n <= planned(s.disk, s.open, q).len(),
    ensures
        distinct(gathered(answers_of(s, q, floats), n)),
    decreases n,
{
    if n > 0 {
        lemma_gathered_distinct(s, q, floats, (n - 1) as nat);
        lemma_answer_distinct(s, q, floats, n - 1);
        let refs = planned(s.disk, s.open, q);
        let answers = answers_of(s, q, floats);
        let before = gathered(answers, (n - 1) as nat);
        let hits = answers[n - 1].hits;
        let now = gathered(answers, n);
        assert forall|i: int, j: int| 0 <= i < j < now.len() implies (#[trigger] now[i]).at != (
        #[trigger] now[j]).at by {
            if j < before.len() {
                assert(now[i] == before[i] && now[j] == before[j]);
            } else if i >= before.len() {
                assert(now[i] == hits[i - before.len()] && now[j] == hits[j - before.len()]);
            } else {
                let c = before[i].at;
                assert(keys_of(before)[i] == c);
                lemma_gathered(answers, (n - 1) as nat, c);
                let (a, k) = choose|a: int, k: int|
                    0 <= a < n - 1 && 0 <= k < answers[a].hits.len() && (
                    #[trigger] answers[a].hits[k]).at == c;
                lemma_answer(s, q, floats, a, c);
                lemma_answer(s, q, floats, n - 1, c);
                lemma_planned_apart(s, q, a, n - 1);
                assert(hits[j - before.len()].at.node == refs[n - 1].node);
                assert(answers[a].hits[k].at.node == refs[a].node);
            }
        }
    }
}

/// The keys of a search stand in the order rows are delivered in, each once.
pub proof fn lemma_ordered(s: Store, q: Search, floats: Floats)
    requires
        s.wf(),
    ensures
        strictly_ordered(matches_of(s, q, floats)),
{
    let g = gathered(answers_of(s, q, floats), planned(s.disk, s.open, q).len());
    let r = ranked(g);
    lemma_gathered_distinct(s, q, floats, planned(s.disk, s.open, q).len());
    lemma_ranked(g);
    lemma_ranked_distinct(g);
    let keys = keys_of(r);
    assert forall|i: int, j: int| 0 <= i < j < keys.len() implies (#[trigger] keys[i]).precedes(
        #[trigger] keys[j],
    ) by {
        assert(!r[j].ahead(r[i]));
        assert(r[i].at != r[j].at);
    }
}

/// Two runs of keys in order that hold the same keys are the same.
proof fn lemma_same_keys(a: Seq<Cursor>, b: Seq<Cursor>)
    requires
        strictly_ordered(a),
        strictly_ordered(b),
        forall|c: Cursor| a.contains(c) <==> b.contains(c),
    ensures
        a == b,
    decreases a.len(),
{
    if a.len() == 0 {
        if b.len() > 0 {
            assert(b.contains(b[0]));
        }
        assert(a =~= b);
    } else {
        assert(a.contains(a.last()));
        assert(b.contains(a.last()));
        assert(b.contains(b.last()));
        assert(a.contains(b.last()));
        let i = b.index_of(a.last());
        let j = a.index_of(b.last());
        if a.last() != b.last() {
            assert(b[i].precedes(b[b.len() - 1]));
            assert(a[j].precedes(a[a.len() - 1]));
        }
        let x = a.drop_last();
        let y = b.drop_last();
        assert forall|c: Cursor| x.contains(c) <==> y.contains(c) by {
            if x.contains(c) {
                let k = x.index_of(c);
                assert(a[k] == c && a[k].precedes(a[a.len() - 1]));
                assert(a.contains(c) && b.contains(c));
                let m = b.index_of(c);
                assert(b[m] == c);
                assert(m != b.len() - 1);
                assert(y[m] == c);
            }
            if y.contains(c) {
                let k = y.index_of(c);
                assert(b[k] == c && b[k].precedes(b[b.len() - 1]));
                assert(b.contains(c) && a.contains(c));
                let m = a.index_of(c);
                assert(a[m] == c);
                assert(m != a.len() - 1);
                assert(x[m] == c);
            }
        }
        assert(strictly_ordered(x)) by {
            assert forall|i: int, j: int| 0 <= i < j < x.len() implies (#[trigger] x[i]).precedes(
                #[trigger] x[j],
            ) by {
                assert(a[i].precedes(a[j]));
            }
        }
        assert(strictly_ordered(y)) by {
            assert forall|i: int, j: int| 0 <= i < j < y.len() implies (#[trigger] y[i]).precedes(
                #[trigger] y[j],
            ) by {
                assert(b[i].precedes(b[j]));
            }
        }
        lemma_same_keys(x, y);
        assert(a =~= x.push(a.last()));
        assert(b =~= y.push(b.last()));
    }
}

// ---------------------------------------------------------------------------
// One page after the other.

/// What is left after the row at position `m` is everything behind it.
proof fn lemma_rest(s: Store, q: Search, floats: Floats, m: int)
    requires
        s.wf(),
        0 <= m < matches_of(s, q, floats).len(),
    ensures
        matches_of(s, after(q, matches_of(s, q, floats)[m]), floats) == matches_of(
            s,
            q,
            floats,
        ).skip(m + 1),
{
    let all = matches_of(s, q, floats);
    let c = all[m];
    let p = after(q, c);
    let rest = all.skip(m + 1);
    let got = matches_of(s, p, floats);
    lemma_ordered(s, q, floats);
    lemma_ordered(s, p, floats);
    assert forall|i: int, j: int| 0 <= i < j < rest.len() implies (#[trigger] rest[i]).precedes(
        #[trigger] rest[j],
    ) by {
        assert(all[i + m + 1].precedes(all[j + m + 1]));
    }
    law_every_match_is_a_key(s, q, floats, c);
    assert(all.contains(c));
    assert forall|src: Src, row: u32| #[trigger] is_match(s, p, floats, src, row) == is_match(
        s,
        q,
        floats,
        src,
        row,
    ) by {
        assert(covers(p, src) == covers(q, src));
    }
    assert forall|k: Cursor| got.contains(k) <==> rest.contains(k) by {
        law_every_match_is_a_key(s, q, floats, k);
        law_every_match_is_a_key(s, p, floats, k);
        assert(is_key_of_match(s, p, floats, k) <==> is_key_of_match(s, q, floats, k) && c.precedes(
            k,
        )) by {
            if is_key_of_match(s, p, floats, k) {
                let (src, row) = choose|src: Src, row: u32|
                    #[trigger] is_match(s, p, floats, src, row) && k == key_of(s, src, row);
                assert(is_match(s, q, floats, src, row));
            }
            if is_key_of_match(s, q, floats, k) {
                let (src, row) = choose|src: Src, row: u32|
                    #[trigger] is_match(s, q, floats, src, row) && k == key_of(s, src, row);
                assert(is_match(s, p, floats, src, row));
            }
        }
        if got.contains(k) {
            let i = all.index_of(k);
            assert(all[i] == k);
            if i < m {
                assert(all[i].precedes(all[m]));
            }
            assert(rest[i - m - 1] == k);
        }
        if rest.contains(k) {
            let i = rest.index_of(k);
            assert(all[i + m + 1] == k);
            assert(all.contains(k));
            assert(all[m].precedes(all[i + m + 1]));
        }
    }
    lemma_same_keys(got, rest);
}

pub proof fn lemma_page(s: Store, q: Search, floats: Floats)
    requires
        s.wf(),
    ensures
        keys_of(outcome_of(s, q, floats).0) == first(matches_of(s, q, floats), q.limit as nat),
        outcome_of(s, q, floats).0 == first(
            ranked(gathered(answers_of(s, q, floats), planned(s.disk, s.open, q).len())),
            q.limit as nat,
        ),
{
    let refs = planned(s.disk, s.open, q);
    let answers = answers_of(s, q, floats);
    let start = Stats { blocks_total: s.all().len() as usize, ..Stats::none() };
    lemma_ranked(wanted_upto(s.all(), q, s.all().len()));
    assert(truthful(refs, answers)) by {
        assert forall|i: int, k: int| 0 <= i < refs.len() && 0 <= k < answers[i].hits.len() implies (
        #[trigger] answers[i].hits[k]).at.ts <= refs[i].max_ts by {
            lemma_answer(s, q, floats, i, answers[i].hits[k].at);
        }
    }
    law_page_is_the_newest(refs, answers, start, q.limit as nat);
    assert(keys_of(outcome_of(s, q, floats).0) =~= first(
        matches_of(s, q, floats),
        q.limit as nat,
    ));
}

/// The pages of a search, each asked for with what the one before it gave as
/// its next, come to all the matching rows there are: every one of them once,
/// and newest first.
pub proof fn law_the_pages_are_everything(s: Store, q: Search, floats: Floats, n: nat)
    requires
        s.wf(),
        q.limit >= 1,
        matches_of(s, q, floats).len() < n * q.limit,
    ensures
        pages(s, q, floats, n) == matches_of(s, q, floats),
        strictly_ordered(pages(s, q, floats, n)),
        forall|c: Cursor|
            pages(s, q, floats, n).contains(c) <==> #[trigger] is_key_of_match(s, q, floats, c),
    decreases n,
{
    let all = matches_of(s, q, floats);
    let limit = q.limit as int;
    lemma_ordered(s, q, floats);
    lemma_page(s, q, floats);
    assert forall|c: Cursor| all.contains(c) <==> #[trigger] is_key_of_match(s, q, floats, c) by {
        law_every_match_is_a_key(s, q, floats, c);
    }
    assert(n > 0) by (nonlinear_arith)
        requires
            all.len() < n * q.limit,
    ;
    let page = keys_of(outcome_of(s, q, floats).0);
    if all.len() >= limit {
        let c = all[limit - 1];
        assert(page =~= all.take(limit));
        assert(page.last() == c);
        assert(next_of(s, q, floats) == Some(c));
        lemma_rest(s, q, floats, limit - 1);
        assert(all.len() - limit < (n - 1) * limit) by (nonlinear_arith)
            requires
                all.len() < n * limit,
        ;
        law_the_pages_are_everything(s, after(q, c), floats, (n - 1) as nat);
        assert(pages(s, q, floats, n) =~= all);
    } else {
        assert(page == all);
    }
}

proof fn lemma_counted(stats: Stats, answers: Seq<Answer>, i: nat)
    requires
        i <= answers.len(),
        stats.rows_matched == gathered(answers, i).len(),
        gathered(answers, answers.len()).len() <= usize::MAX,
    ensures
        counted_from(stats, answers, i).rows_matched == gathered(answers, answers.len()).len(),
    decreases answers.len() - i,
{
    if i < answers.len() {
        lemma_gathered_grows(answers, i + 1, answers.len());
        lemma_counted(stats.with(answers[i as int]), answers, i + 1);
    }
}

proof fn lemma_gathered_grows(answers: Seq<Answer>, i: nat, n: nat)
    requires
        i <= n <= answers.len(),
    ensures
        gathered(answers, i).len() <= gathered(answers, n).len(),
    decreases n,
{
    if i < n {
        lemma_gathered_grows(answers, i, (n - 1) as nat);
    }
}

/// A page has a next one exactly if it is full, and the next one starts after
/// its last row. The last page counts as matched the rows it has.
pub proof fn law_the_last_page_counts_its_rows(s: Store, q: Search, floats: Floats)
    requires
        s.wf(),
        q.limit >= 1,
    ensures
        ({
            let (page, stats) = outcome_of(s, q, floats);
            &&& page.len() <= q.limit
            &&& next_of(s, q, floats) == if page.len() == q.limit {
                Some(page.last().at)
            } else {
                None
            }
            &&& next_of(s, q, floats) is None ==> stats.rows_matched == page.len()
        }),
{
    let refs = planned(s.disk, s.open, q);
    let answers = answers_of(s, q, floats);
    let start = Stats { blocks_total: s.all().len() as usize, ..Stats::none() };
    lemma_page(s, q, floats);
    let g = gathered(answers, refs.len());
    lemma_ranked(g);
    if next_of(s, q, floats) is None {
        law_the_last_page_counts_everything(refs, answers, start, q.limit as nat);
        lemma_counted(start, answers, 0);
    }
}

} // verus!
