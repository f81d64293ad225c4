//! A record search over blocks: newest rows first, a page at a time.

use crate::block::BlockRef;
use crate::float::Floats;
use crate::json::{Doc, Json};
use crate::probe::{ruled_out, Prepared, Sides};
use crate::query::{Cursor, Search};
use crate::scan::Block;
use crate::select::all_rows;
use crate::signal::Open;
use crate::sort::{
    first, in_order, insert_ranked, inserted, lemma_inserted, ranked, sort_ranked, Ranked,
};
use crate::source::{all_sources, sources, Origin, Src};
use vstd::prelude::*;

verus! {

/// The widest a single search will fan out across blocks.
pub const MAX_FANOUT: usize = 16;

/// A row that matched, by its sort key and the candidate it came from.
#[derive(Debug, Clone, Copy, PartialEq, Eq, Structural)]
pub struct Hit {
    pub at: Cursor,
    pub block: usize,
}

impl Ranked for Hit {
    /// In the order rows are delivered in.
    open spec fn ahead(self, other: Hit) -> bool {
        self.at.precedes(other.at)
    }

    proof fn lemma_order(a: Hit, b: Hit, c: Hit) {
    }

    fn is_ahead(&self, other: &Hit) -> (r: bool) {
        self.at.before(&other.at)
    }
}

/// The sort key of one row, which is also the cursor a caller pages on.
pub open spec fn cursor_of(src: Src, ts: i64, row: u32) -> Cursor {
    Cursor { ts, node: src.node, seq: src.seq, row }
}

/// The sort key of one row, which is also the cursor a caller pages on.
pub fn cursor(src: &Src, ts: i64, row: u32) -> (c: Cursor)
    ensures
        c == cursor_of(*src, ts, row),
{
    Cursor { ts, node: src.node, seq: src.seq, row }
}

/// Whether a row comes after the page that ended at `after`.
pub open spec fn is_after(c: Cursor, after: Option<Cursor>) -> bool {
    match after {
        Some(a) => a.precedes(c),
        None => true,
    }
}

/// The hits among some rows: those behind the cursor, in row order.
pub open spec fn hits_of(
    rows: Seq<u32>,
    times: Seq<i64>,
    src: Src,
    block: usize,
    after: Option<Cursor>,
) -> Seq<Hit>
    decreases rows.len(),
{
    if rows.len() == 0 {
        Seq::empty()
    } else {
        let before = hits_of(rows.drop_last(), times, src, block, after);
        let c = cursor_of(src, times[rows.last() as int], rows.last());
        if is_after(c, after) {
            before.push(Hit { at: c, block })
        } else {
            before
        }
    }
}

/// Whether the window covers a candidate's whole range, so that its rows' own
/// times need not be looked at.
pub open spec fn covers(q: Search, src: Src) -> bool {
    q.from <= src.min_ts && q.to >= src.max_ts
}

impl<'a> Block<'a> {
    /// The rows of the block that a query selects, ascending.
    pub open spec fn selected(&self, q: Search, src: Src, floats: Floats) -> Seq<u32> {
        all_rows(self.root.rows as nat).filter(
            |i: u32| self.selects(i as int, q, covers(q, src), floats),
        )
    }

    /// The hits of the block, as candidate number `block`.
    pub open spec fn hits(&self, q: Search, src: Src, block: usize, floats: Floats) -> Seq<Hit> {
        match self.times() {
            Some(times) => hits_of(self.selected(q, src, floats), times, src, block, q.after),
            None => Seq::empty(),
        }
    }
}

/// What one candidate contributed: how many rows it has, if it was opened, and
/// its matches.
pub struct Scanned {
    pub rows: Option<usize>,
    pub hits: Vec<Hit>,
}

/// What one candidate contributes.
#[verifier::ext_equal]
pub struct Answer {
    pub rows: Option<usize>,
    pub hits: Seq<Hit>,
}

impl Scanned {
    pub open spec fn answer(&self) -> Answer {
        Answer { rows: self.rows, hits: self.hits@ }
    }
}

/// What a candidate contributes: nothing where its sidecars rule it out or its
/// root table is gone.
pub open spec fn answer_of(
    q: Search,
    src: Src,
    block: usize,
    sides: Sides,
    b: Option<Block>,
    floats: Floats,
) -> Answer {
    match b {
        Some(x) => if ruled_out(q, sides, floats) {
            Answer { rows: None, hits: Seq::empty() }
        } else {
            Answer { rows: Some(x.root.rows), hits: x.hits(q, src, block, floats) }
        },
        None => Answer { rows: None, hits: Seq::empty() },
    }
}

/// Everything the per-block half of a search reads, and nothing it writes.
pub struct Scan<'q> {
    pub prepared: Prepared<'q>,
}

impl<'q> Scan<'q> {
    pub open spec fn wf(&self, floats: Floats) -> bool {
        self.prepared.wf(floats) && floats.wf()
    }

    /// The per-block half of a query, prepared once. Everything here is derived
    /// from `q` alone, so one value serves every block of a search.
    pub fn new(q: &'q Search, floats: &Floats) -> (r: Scan<'q>)
        requires
            floats.wf(),
        ensures
            r.wf(*floats),
            r.prepared.q == q,
    {
        Scan { prepared: Prepared::new(q, floats) }
    }

    /// The rows of one open block that match.
    fn rows(&self, i: usize, src: &Src, b: &Block, floats: &Floats) -> (hits: Vec<Hit>)
        requires
            self.wf(*floats),
            b.wf(),
        ensures
            hits@ == b.hits(*self.prepared.q, *src, i, *floats),
    {
        let q = self.prepared.q;
        let mut out: Vec<Hit> = Vec::new();
        let times = match b.time() {
            Some(t) => t,
            None => {
                return out;
            },
        };
        let covered = q.from <= src.min_ts && q.to >= src.max_ts;
        let sel = b.select(q, covered, floats);
        let ghost rows = b.selected(*q, *src, *floats);
        assert(sel@ == rows);
        proof {
            crate::select::lemma_filter_members(
                all_rows(b.root.rows as nat),
                |i: u32| b.selects(i as int, *q, covered, *floats),
                b.root.rows as nat,
            );
        }
        let mut k: usize = 0;
        assert(rows.take(0) =~= Seq::<u32>::empty());
        while k < sel.len()
            invariant
                k <= sel@.len(),
                sel@ == rows,
                q == self.prepared.q,
                forall|n: int| 0 <= n < rows.len() ==> (#[trigger] rows[n]) < times@.len(),
                out@ == hits_of(rows.take(k as int), times@, *src, i, q.after),
            decreases sel@.len() - k,
        {
            assert(rows.take(k + 1).drop_last() =~= rows.take(k as int));
            assert(rows[k as int] < times@.len());
            let row: u32 = sel[k];
            let c = cursor(src, times[row as usize], row);
            let keep = match &q.after {
                Some(a) => a.before(&c),
                None => true,
            };
            if keep {
                out.push(Hit { at: c, block: i });
            }
            k = k + 1;
        }
        assert(rows.take(k as int) =~= rows);
        out
    }

    /// One candidate: prune it, or find the rows of it that match.
    pub fn block(&self, i: usize, src: &Src, sides: &Sides, b: Option<&Block>, floats: &Floats) -> (r:
        Scanned)
        requires
            self.wf(*floats),
            b matches Some(x) ==> x.wf(),
        ensures
            r.answer() == answer_of(
                *self.prepared.q,
                *src,
                i,
                *sides,
                match b {
                    Some(x) => Some(*x),
                    None => None,
                },
                *floats,
            ),
    {
        if self.prepared.rules_out(sides, floats) {
            let r = Scanned { rows: None, hits: Vec::new() };
            assert(r.hits@ =~= Seq::<Hit>::empty());
            return r;
        }
        match b {
            Some(x) => Scanned { rows: Some(x.root.rows), hits: self.rows(i, src, x, floats) },
            None => {
                let r = Scanned { rows: None, hits: Vec::new() };
                assert(r.hits@ =~= Seq::<Hit>::empty());
                r
            },
        }
    }
}

// ---------------------------------------------------------------------------
// Which candidates, in which order.

/// Whether a candidate can hold a row of the page: its range meets the window,
/// and it does not lie wholly on a page already delivered.
pub open spec fn wanted(src: Src, q: Search) -> bool {
    src.meets(q.from, q.to) && (q.after matches Some(c) ==> src.min_ts <= c.ts)
}

/// The candidates among the first `n` that can hold a row of the page.
pub open spec fn wanted_upto(all: Seq<Src>, q: Search, n: nat) -> Seq<Src>
    decreases n,
{
    if n == 0 {
        Seq::empty()
    } else if wanted(all[n - 1], q) {
        wanted_upto(all, q, (n - 1) as nat).push(all[n - 1])
    } else {
        wanted_upto(all, q, (n - 1) as nat)
    }
}

/// The candidates of a search, newest first.
pub open spec fn planned(disk: Seq<BlockRef>, open: Seq<Open>, q: Search) -> Seq<Src> {
    let all = all_sources(disk, open);
    ranked(wanted_upto(all, q, all.len()))
}

/// What a search cost, reported alongside the rows.
#[derive(Debug, Clone, Copy, PartialEq, Eq, Structural)]
pub struct Stats {
    pub blocks_total: usize,
    pub blocks_scanned: usize,
    pub rows_scanned: usize,
    /// Rows satisfying the whole query (window, terms and `after`), not rows on
    /// this page.
    pub rows_matched: usize,
    /// Series the metrics cap refused; always zero on a record search.
    pub dropped_series: usize,
}

impl Default for Stats {
    fn default() -> (s: Stats)
        ensures
            s == Stats::none(),
    {
        Stats {
            blocks_total: 0,
            blocks_scanned: 0,
            rows_scanned: 0,
            rows_matched: 0,
            dropped_series: 0,
        }
    }
}

impl Stats {
    /// Nothing counted.
    pub open spec fn none() -> Stats {
        Stats {
            blocks_total: 0,
            blocks_scanned: 0,
            rows_scanned: 0,
            rows_matched: 0,
            dropped_series: 0,
        }
    }

    /// The counts with one answer added. They wrap at the width of a word.
    pub open spec fn with(self, a: Answer) -> Stats {
        Stats {
            blocks_scanned: match a.rows {
                Some(_) => self.blocks_scanned.wrapping_add(1),
                None => self.blocks_scanned,
            },
            rows_scanned: match a.rows {
                Some(n) => self.rows_scanned.wrapping_add(n),
                None => self.rows_scanned,
            },
            rows_matched: self.rows_matched.wrapping_add(a.hits.len() as usize),
            ..self
        }
    }

    fn count(&mut self, a: &Scanned)
        ensures
            *final(self) == old(self).with(a.answer()),
    {
        if let Some(n) = a.rows {
            self.blocks_scanned = self.blocks_scanned.wrapping_add(1);
            self.rows_scanned = self.rows_scanned.wrapping_add(n);
        }
        self.rows_matched = self.rows_matched.wrapping_add(a.hits.len());
    }
}

/// The page with one more hit offered to it.
pub open spec fn kept(page: Seq<Hit>, h: Hit, limit: nat) -> Seq<Hit> {
    first(inserted(page, h), limit)
}

/// The page with several hits offered to it.
pub open spec fn kept_all(page: Seq<Hit>, hits: Seq<Hit>, limit: nat) -> Seq<Hit>
    decreases hits.len(),
{
    if hits.len() == 0 {
        page
    } else {
        kept(kept_all(page, hits.drop_last(), limit), hits.last(), limit)
    }
}

/// Whether the page is full and a candidate this old, and so every one after
/// it, cannot contribute.
pub open spec fn stops(page: Seq<Hit>, limit: nat, src: Src) -> bool {
    page.len() >= limit && page.len() > 0 && src.max_ts < page.last().at.ts
}

/// The page and the counts after some answers.
pub open spec fn absorbed(page: Seq<Hit>, stats: Stats, answers: Seq<Answer>, limit: nat) -> (
    Seq<Hit>,
    Stats,
)
    decreases answers.len(),
{
    if answers.len() == 0 {
        (page, stats)
    } else {
        let before = absorbed(page, stats, answers.drop_last(), limit);
        (kept_all(before.0, answers.last().hits, limit), before.1.with(answers.last()))
    }
}

pub open spec fn answers_of(v: Seq<Scanned>) -> Seq<Answer> {
    v.map_values(|s: Scanned| s.answer())
}

/// A search under way: the candidates, the page so far, and where it stands.
pub struct SearchRun {
    pub refs: Vec<Src>,
    pub limit: usize,
    pub hits: Vec<Hit>,
    pub at: usize,
    pub width: usize,
    pub stats: Stats,
}

impl SearchRun {
    pub open spec fn wf(&self) -> bool {
        &&& self.at <= self.refs@.len()
        &&& self.hits@.len() <= self.limit
        &&& in_order(self.hits@)
        &&& 1 <= self.width <= MAX_FANOUT
    }

    /// Plan a search: every candidate is counted, those that cannot hold a row
    /// of the page are dropped, and the rest are put newest first, so that the
    /// limit can cut the scan short.
    pub fn plan(disk: &Vec<BlockRef>, open: &Vec<Open>, q: &Search) -> (r: SearchRun)
        ensures
            r.wf(),
            r.refs@ == planned(disk@, open@, *q),
            r.limit == q.limit,
            r.hits@.len() == 0,
            r.at == 0,
            r.width == 1,
            r.stats == (Stats {
                blocks_total: all_sources(disk@, open@).len() as usize,
                ..Stats::none()
            }),
    {
        let all = sources(disk, open);
        let mut out: Vec<Src> = Vec::new();
        let mut i: usize = 0;
        while i < all.len()
            invariant
                i <= all@.len(),
                out@ == wanted_upto(all@, *q, i as nat),
            decreases all@.len() - i,
        {
            let keep = all[i].overlaps(q.from, q.to) && match &q.after {
                Some(c) => all[i].min_ts <= c.ts,
                None => true,
            };
            if keep {
                out.push(all[i]);
            }
            i = i + 1;
        }
        let stats = Stats { blocks_total: all.len(), ..Stats::default() };
        SearchRun {
            refs: sort_ranked(out),
            limit: q.limit,
            hits: Vec::new(),
            at: 0,
            width: 1,
            stats,
        }
    }

    /// The candidates to scan next, as a range, or `None` when the page is
    /// done. The first wave is one candidate wide, because the commonest query
    /// is answered by it.
    pub fn wants(&self) -> (r: Option<(usize, usize)>)
        requires
            self.wf(),
        ensures
            r is None <==> self.at >= self.refs@.len() || stops(
                self.hits@,
                self.limit as nat,
                self.refs@[self.at as int],
            ),
            r matches Some((from, to)) ==> from == self.at && from < to <= self.refs@.len() && to
                == (if self.at + self.width <= self.refs@.len() {
                self.at + self.width
            } else {
                self.refs@.len() as int
            }),
    {
        if self.at >= self.refs.len() {
            return None;
        }
        let n: usize = self.hits.len();
        if n >= self.limit && n > 0 && self.refs[self.at].max_ts < self.hits[n - 1].at.ts {
            return None;
        }
        let left: usize = self.refs.len() - self.at;
        if self.width <= left {
            Some((self.at, self.at + self.width))
        } else {
            Some((self.at, self.refs.len()))
        }
    }

    fn offer(hits: &mut Vec<Hit>, h: Hit, limit: usize)
        requires
            old(hits)@.len() <= limit,
            in_order(old(hits)@),
        ensures
            final(hits)@ == kept(old(hits)@, h, limit as nat),
            final(hits)@.len() <= limit,
            in_order(final(hits)@),
    {
        let ghost was = hits@;
        let n: usize = hits.len();
        proof {
            lemma_inserted(was, h);
        }
        if n >= limit && (n == 0 || !h.is_ahead(&hits[n - 1])) {
            assert(inserted(was, h) == was.push(h));
            assert(first(was.push(h), limit as nat) =~= was);
            return ;
        }
        insert_ranked(hits, h);
        let ghost all = hits@;
        if hits.len() > limit {
            hits.pop();
            assert(hits@ =~= all.take(limit as int));
        }
        assert forall|i: int, j: int| 0 <= i < j < hits@.len() implies !(#[trigger] hits@[j]).ahead(
            #[trigger] hits@[i],
        ) by {
            assert(hits@[i] == all[i] && hits@[j] == all[j]);
        }
    }

    fn offer_all(hits: &mut Vec<Hit>, found: &Vec<Hit>, limit: usize)
        requires
            old(hits)@.len() <= limit,
            in_order(old(hits)@),
        ensures
            final(hits)@ == kept_all(old(hits)@, found@, limit as nat),
            final(hits)@.len() <= limit,
            in_order(final(hits)@),
    {
        let mut i: usize = 0;
        assert(found@.take(0) =~= Seq::<Hit>::empty());
        while i < found.len()
            invariant
                i <= found@.len(),
                hits@.len() <= limit,
                in_order(hits@),
                hits@ == kept_all(old(hits)@, found@.take(i as int), limit as nat),
            decreases found@.len() - i,
        {
            assert(found@.take(i + 1).drop_last() =~= found@.take(i as int));
            SearchRun::offer(hits, found[i], limit);
            i = i + 1;
        }
        assert(found@.take(i as int) =~= found@);
    }

    /// Take in the answers of the candidates scanned next, in their order, and
    /// widen the next wave.
    pub fn absorb(&mut self, answers: &Vec<Scanned>)
        requires
            old(self).wf(),
            old(self).at + answers@.len() <= old(self).refs@.len(),
        ensures
            final(self).wf(),
            final(self).refs == old(self).refs,
            final(self).limit == old(self).limit,
            final(self).at == old(self).at + answers@.len(),
            final(self).width == (if old(self).width * 2 <= MAX_FANOUT {
                old(self).width * 2
            } else {
                MAX_FANOUT as int
            }),
            (final(self).hits@, final(self).stats) == absorbed(
                old(self).hits@,
                old(self).stats,
                answers_of(answers@),
                old(self).limit as nat,
            ),
    {
        let mut i: usize = 0;
        let ghost all = answers_of(answers@);
        let ghost start = (self.hits@, self.stats);
        assert(all.take(0) =~= Seq::<Answer>::empty());
        while i < answers.len()
            invariant
                i <= answers@.len(),
                all == answers_of(answers@),
                start == (old(self).hits@, old(self).stats),
                self.refs == old(self).refs,
                self.limit == old(self).limit,
                self.at == old(self).at,
                self.width == old(self).width,
                self.hits@.len() <= self.limit,
                in_order(self.hits@),
                (self.hits@, self.stats) == absorbed(
                    start.0,
                    start.1,
                    all.take(i as int),
                    self.limit as nat,
                ),
            decreases answers@.len() - i,
        {
            assert(all.take(i + 1).drop_last() =~= all.take(i as int));
            assert(all.take(i + 1).last() == answers@[i as int].answer());
            self.stats.count(&answers[i]);
            let limit: usize = self.limit;
            SearchRun::offer_all(&mut self.hits, &answers[i].hits, limit);
            i = i + 1;
        }
        assert(all.take(i as int) =~= all);
        let left: usize = self.refs.len() - self.at;
        assert(answers@.len() <= left);
        self.at = self.at + answers.len();
        self.width = if self.width * 2 <= MAX_FANOUT {
            self.width * 2
        } else {
            MAX_FANOUT
        };
    }

    /// Where the next page starts: after the last row of a full page. A short
    /// page is the last page.
    pub open spec fn next_cursor(page: Seq<Hit>, limit: nat) -> Option<Cursor> {
        if page.len() == limit && page.len() > 0 {
            Some(page.last().at)
        } else {
            None
        }
    }

    /// Where the next page starts.
    pub fn next(&self) -> (r: Option<Cursor>)
        ensures
            r == SearchRun::next_cursor(self.hits@, self.limit as nat),
    {
        let n: usize = self.hits.len();
        if n == self.limit && n > 0 {
            Some(self.hits[n - 1].at)
        } else {
            None
        }
    }
}

/// How many threads a wave may borrow: what it wants, as far as that many are
/// idle.
pub fn claim(spare: usize, want: usize) -> (got: usize)
    ensures
        got == (if want <= spare {
            want
        } else {
            spare
        }),
{
    if want <= spare {
        want
    } else {
        spare
    }
}

// ---------------------------------------------------------------------------
// The whole search.

/// What can be read of a published block: its sidecars and its tables, where
/// they are still there.
pub struct Stored<'a> {
    pub sides: Sides,
    pub block: Option<Block<'a>>,
}

/// The sidecars of a snapshot: it has none.
pub open spec fn no_sides() -> Sides {
    Sides { trace: None, attrs: None, ranges: None }
}

/// The tables of a candidate.
pub open spec fn block_of<'a>(src: Src, stored: Seq<Stored<'a>>, opened: Seq<Option<Block<'a>>>) -> Option<
    Block<'a>,
> {
    match src.origin {
        Origin::Disk(k) => stored[k as int].block,
        Origin::Open(k) => opened[k as int],
    }
}

/// The sidecars of a candidate.
pub open spec fn sides_of(src: Src, stored: Seq<Stored>) -> Sides {
    match src.origin {
        Origin::Disk(k) => stored[k as int].sides,
        Origin::Open(_) => no_sides(),
    }
}

/// What each candidate contributes.
pub open spec fn all_answers(
    refs: Seq<Src>,
    stored: Seq<Stored>,
    opened: Seq<Option<Block>>,
    q: Search,
    floats: Floats,
) -> Seq<Answer> {
    Seq::new(
        refs.len(),
        |i: int|
            answer_of(
                q,
                refs[i],
                i as usize,
                sides_of(refs[i], stored),
                block_of(refs[i], stored, opened),
                floats,
            ),
    )
}

/// The page and the counts of a search that goes on at candidate `i`, one
/// candidate at a time.
pub open spec fn run_from(
    refs: Seq<Src>,
    answers: Seq<Answer>,
    i: nat,
    page: Seq<Hit>,
    stats: Stats,
    limit: nat,
) -> (Seq<Hit>, Stats)
    decreases refs.len() - i,
{
    if i >= refs.len() || stops(page, limit, refs[i as int]) {
        (page, stats)
    } else {
        run_from(
            refs,
            answers,
            i + 1,
            kept_all(page, answers[i as int].hits, limit),
            stats.with(answers[i as int]),
            limit,
        )
    }
}

/// An open array with the rows of a page added to it.
pub open spec fn page_doc(
    d: Doc,
    page: Seq<Hit>,
    refs: Seq<Src>,
    stored: Seq<Stored>,
    opened: Seq<Option<Block>>,
    floats: Floats,
) -> Doc
    decreases page.len(),
{
    if page.len() == 0 {
        d
    } else {
        let before = page_doc(d, page.drop_last(), refs, stored, opened, floats);
        match block_of(refs[page.last().block as int], stored, opened) {
            Some(b) => b.row_doc(before, page.last().at.row, floats),
            None => before,
        }
    }
}

/// A hit that came from one of the candidates: its block is there and has the
/// row.
pub open spec fn is_held(h: Hit, refs: Seq<Src>, stored: Seq<Stored>, opened: Seq<Option<Block>>) -> bool {
    &&& h.block < refs.len()
    &&& block_of(refs[h.block as int], stored, opened) matches Some(b) && h.at.row < b.root.rows
}

/// Whether a candidate is one of the blocks at hand.
pub open spec fn is_here(src: Src, stored: nat, opened: nat) -> bool {
    match src.origin {
        Origin::Disk(k) => k < stored,
        Origin::Open(k) => k < opened,
    }
}

/// What a search gives back.
pub struct Results {
    /// A JSON array of row objects.
    pub json: String,
    pub stats: Stats,
    /// Pass back as `after` for the next page. `None` means that this was the
    /// last one.
    pub next: Option<Cursor>,
}

pub(crate) fn pick<'b, 'a>(src: &Src, stored: &'b Vec<Stored<'a>>, opened: &'b Vec<Option<Block<'a>>>) -> (r:
    Option<&'b Block<'a>>)
    requires
        is_here(*src, stored@.len(), opened@.len()),
    ensures
        r is Some <==> block_of(*src, stored@, opened@) is Some,
        r matches Some(b) ==> block_of(*src, stored@, opened@) == Some(*b),
{
    match src.origin {
        Origin::Disk(k) => match &stored[k].block {
            Some(b) => Some(b),
            None => None,
        },
        Origin::Open(k) => match &opened[k] {
            Some(b) => Some(b),
            None => None,
        },
    }
}

/// Whether every block at hand can be scanned.
pub open spec fn all_wf(stored: Seq<Stored>, opened: Seq<Option<Block>>) -> bool {
    &&& forall|i: int|
        0 <= i < stored.len() ==> ((#[trigger] stored[i]).block matches Some(b) ==> b.wf())
    &&& forall|i: int| 0 <= i < opened.len() ==> ((#[trigger] opened[i]) matches Some(b) ==> b.wf())
}

/// Write the rows of a page.
pub fn render(
    page: &Vec<Hit>,
    refs: &Vec<Src>,
    stored: &Vec<Stored>,
    opened: &Vec<Option<Block>>,
    floats: &Floats,
) -> (json: String)
    requires
        all_wf(stored@, opened@),
        forall|i: int| 0 <= i < refs@.len() ==> is_here(#[trigger] refs@[i], stored@.len(), opened@.len()),
        forall|i: int| 0 <= i < page@.len() ==> is_held(#[trigger] page@[i], refs@, stored@, opened@),
    ensures
        json@ == page_doc(
            Doc::empty().enter('['),
            page@,
            refs@,
            stored@,
            opened@,
            *floats,
        ).leave(']').text,
{
    let mut j = Json::new();
    j.enter('[');
    let ghost d = j@;
    let mut i: usize = 0;
    assert(page@.take(0) =~= Seq::<Hit>::empty());
    while i < page.len()
        invariant
            i <= page@.len(),
            all_wf(stored@, opened@),
            forall|i: int|
                0 <= i < refs@.len() ==> is_here(#[trigger] refs@[i], stored@.len(), opened@.len()),
            forall|i: int|
                0 <= i < page@.len() ==> is_held(#[trigger] page@[i], refs@, stored@, opened@),
            j@ == page_doc(d, page@.take(i as int), refs@, stored@, opened@, *floats),
        decreases page@.len() - i,
    {
        assert(page@.take(i + 1).drop_last() =~= page@.take(i as int));
        let h = page[i];
        assert(is_held(page@[i as int], refs@, stored@, opened@));
        assert(is_here(refs@[h.block as int], stored@.len(), opened@.len()));
        if let Some(b) = pick(&refs[h.block], stored, opened) {
            b.emit_row(&mut j, h.at.row, floats);
        }
        i = i + 1;
    }
    assert(page@.take(i as int) =~= page@);
    j.leave(']');
    j.into_string()
}

proof fn lemma_wanted_here(all: Seq<Src>, q: Search, n: nat, stored: nat, opened: nat)
    requires
        n <= all.len(),
        forall|i: int| 0 <= i < all.len() ==> is_here(#[trigger] all[i], stored, opened),
    ensures
        forall|i: int|
            0 <= i < wanted_upto(all, q, n).len() ==> is_here(
                #[trigger] wanted_upto(all, q, n)[i],
                stored,
                opened,
            ),
    decreases n,
{
    if n > 0 {
        lemma_wanted_here(all, q, (n - 1) as nat, stored, opened);
        let before = wanted_upto(all, q, (n - 1) as nat);
        let now = wanted_upto(all, q, n);
        assert forall|i: int| 0 <= i < now.len() implies is_here(#[trigger] now[i], stored, opened) by {
            if i < before.len() {
                assert(now[i] == before[i]);
            } else {
                assert(now[i] == all[n - 1]);
            }
        }
    }
}

proof fn lemma_open_here(disk: Seq<BlockRef>, open: Seq<Open>, n: nat)
    requires
        n <= open.len() <= usize::MAX,
    ensures
        forall|i: int|
            0 <= i < crate::source::open_sources(disk, open, n).len() ==> is_here(
                #[trigger] crate::source::open_sources(disk, open, n)[i],
                disk.len(),
                open.len(),
            ),
    decreases n,
{
    if n > 0 {
        lemma_open_here(disk, open, (n - 1) as nat);
        let before = crate::source::open_sources(disk, open, (n - 1) as nat);
        let now = crate::source::open_sources(disk, open, n);
        assert forall|i: int| 0 <= i < now.len() implies is_here(
            #[trigger] now[i],
            disk.len(),
            open.len(),
        ) by {
            if i < before.len() {
                assert(now[i] == before[i]);
            } else {
                assert(now[i] == Src::of_open(open[n - 1], n - 1));
            }
        }
    }
}

/// Every candidate is one of the blocks at hand.
pub proof fn lemma_sources_here(disk: Seq<BlockRef>, open: Seq<Open>)
    requires
        disk.len() <= usize::MAX,
        open.len() <= usize::MAX,
    ensures
        forall|i: int|
            0 <= i < all_sources(disk, open).len() ==> is_here(
                #[trigger] all_sources(disk, open)[i],
                disk.len(),
                open.len(),
            ),
{
    let all = all_sources(disk, open);
    let d = crate::source::disk_sources(disk, disk.len());
    let o = crate::source::open_sources(disk, open, open.len());
    lemma_open_here(disk, open, open.len());
    assert forall|i: int| 0 <= i < all.len() implies is_here(
        #[trigger] all[i],
        disk.len(),
        open.len(),
    ) by {
        if i < d.len() {
            assert(all[i] == Src::of_disk(disk[i], i));
        } else {
            assert(all[i] == o[i - d.len()]);
        }
    }
}

/// Every candidate of a plan is one of the blocks at hand.
pub proof fn lemma_planned_here(disk: Seq<BlockRef>, open: Seq<Open>, q: Search)
    requires
        disk.len() <= usize::MAX,
        open.len() <= usize::MAX,
    ensures
        forall|i: int|
            0 <= i < planned(disk, open, q).len() ==> is_here(
                #[trigger] planned(disk, open, q)[i],
                disk.len(),
                open.len(),
            ),
{
    let all = all_sources(disk, open);
    lemma_sources_here(disk, open);
    lemma_wanted_here(all, q, all.len(), disk.len(), open.len());
    let w = wanted_upto(all, q, all.len());
    let p = planned(disk, open, q);
    assert forall|i: int| 0 <= i < p.len() implies is_here(#[trigger] p[i], disk.len(), open.len()) by {
        crate::sort::lemma_ranked_contains(w, p[i]);
        assert(p.contains(p[i]));
        let k = w.index_of(p[i]);
        assert(w[k] == p[i]);
    }
}

proof fn lemma_hits_of(rows: Seq<u32>, times: Seq<i64>, src: Src, block: usize, after: Option<Cursor>, n: nat)
    requires
        forall|i: int| 0 <= i < rows.len() ==> (#[trigger] rows[i]) < n,
    ensures
        forall|i: int|
            0 <= i < hits_of(rows, times, src, block, after).len() ==> {
                let h = #[trigger] hits_of(rows, times, src, block, after)[i];
                h.block == block && h.at.row < n && h.at == cursor_of(
                    src,
                    times[h.at.row as int],
                    h.at.row,
                ) && rows.contains(h.at.row) && is_after(h.at, after)
            },
    decreases rows.len(),
{
    if rows.len() > 0 {
        let shorter = rows.drop_last();
        assert forall|i: int| 0 <= i < shorter.len() implies (#[trigger] shorter[i]) < n by {
            assert(rows[i] < n);
        }
        assert(rows[rows.len() - 1] < n);
        lemma_hits_of(shorter, times, src, block, after, n);
        let before = hits_of(shorter, times, src, block, after);
        let now = hits_of(rows, times, src, block, after);
        assert forall|i: int| 0 <= i < now.len() implies ({
            let h = #[trigger] now[i];
            h.block == block && h.at.row < n && h.at == cursor_of(
                src,
                times[h.at.row as int],
                h.at.row,
            ) && rows.contains(h.at.row) && is_after(h.at, after)
        }) by {
            if i < before.len() {
                assert(now[i] == before[i]);
                let k = shorter.index_of(before[i].at.row);
                assert(rows[k] == before[i].at.row);
            } else {
                assert(rows.contains(rows[rows.len() - 1]));
            }
        }
    }
}

/// Every hit of a block is one of its rows, selected, and keyed by the row's
/// own time.
pub proof fn lemma_block_hits(b: Block, q: Search, src: Src, block: usize, floats: Floats)
    ensures
        b.root.rows < u32::MAX ==> forall|i: int|
            0 <= i < b.hits(q, src, block, floats).len() ==> {
                let h = #[trigger] b.hits(q, src, block, floats)[i];
                h.block == block && h.at.row < b.root.rows && h.at == cursor_of(
                    src,
                    b.times().unwrap()[h.at.row as int],
                    h.at.row,
                ) && b.selected(q, src, floats).contains(h.at.row) && is_after(h.at, q.after)
            },
{
    if b.root.rows < u32::MAX {
        if let Some(times) = b.times() {
            crate::select::lemma_filter_members(
                all_rows(b.root.rows as nat),
                |i: u32| b.selects(i as int, q, covers(q, src), floats),
                b.root.rows as nat,
            );
            lemma_hits_of(
                b.selected(q, src, floats),
                times,
                src,
                block,
                q.after,
                b.root.rows as nat,
            );
        }
    }
}

proof fn lemma_inserted_members(s: Seq<Hit>, e: Hit)
    ensures
        forall|i: int|
            0 <= i < inserted(s, e).len() ==> (#[trigger] inserted(s, e)[i]) == e || s.contains(
                inserted(s, e)[i],
            ),
    decreases s.len(),
{
    let now = inserted(s, e);
    if s.len() > 0 && e.ahead(s.last()) {
        let t = s.drop_last();
        lemma_inserted_members(t, e);
        assert forall|i: int| 0 <= i < now.len() implies (#[trigger] now[i]) == e || s.contains(
            now[i],
        ) by {
            if i < now.len() - 1 {
                assert(now[i] == inserted(t, e)[i]);
                if now[i] != e {
                    let k = t.index_of(now[i]);
                    assert(s[k] == now[i]);
                }
            } else {
                assert(s[s.len() - 1] == now[i]);
            }
        }
    } else {
        assert forall|i: int| 0 <= i < now.len() implies (#[trigger] now[i]) == e || s.contains(
            now[i],
        ) by {
            if i < s.len() {
                assert(s[i] == now[i]);
            }
        }
    }
}

proof fn lemma_kept_all_held(
    page: Seq<Hit>,
    hits: Seq<Hit>,
    limit: nat,
    refs: Seq<Src>,
    stored: Seq<Stored>,
    opened: Seq<Option<Block>>,
)
    requires
        forall|i: int| 0 <= i < page.len() ==> is_held(#[trigger] page[i], refs, stored, opened),
        forall|i: int| 0 <= i < hits.len() ==> is_held(#[trigger] hits[i], refs, stored, opened),
    ensures
        forall|i: int|
            0 <= i < kept_all(page, hits, limit).len() ==> is_held(
                #[trigger] kept_all(page, hits, limit)[i],
                refs,
                stored,
                opened,
            ),
    decreases hits.len(),
{
    if hits.len() > 0 {
        let shorter = hits.drop_last();
        assert forall|i: int| 0 <= i < shorter.len() implies is_held(
            #[trigger] shorter[i],
            refs,
            stored,
            opened,
        ) by {
            assert(shorter[i] == hits[i]);
        }
        lemma_kept_all_held(page, shorter, limit, refs, stored, opened);
        let before = kept_all(page, shorter, limit);
        let e = hits[hits.len() - 1];
        assert(is_held(e, refs, stored, opened));
        lemma_inserted_members(before, e);
        let all = inserted(before, e);
        let now = kept_all(page, hits, limit);
        assert forall|i: int| 0 <= i < now.len() implies is_held(#[trigger] now[i], refs, stored, opened) by {
            assert(now[i] == all[i]);
            if all[i] != e {
                let k = before.index_of(all[i]);
                assert(is_held(before[k], refs, stored, opened));
            }
        }
    }
}

proof fn lemma_answer_held(
    refs: Seq<Src>,
    stored: Seq<Stored>,
    opened: Seq<Option<Block>>,
    q: Search,
    floats: Floats,
    i: int,
)
    requires
        0 <= i < refs.len() <= usize::MAX,
        all_wf(stored, opened),
        is_here(refs[i], stored.len(), opened.len()),
    ensures
        forall|k: int|
            0 <= k < all_answers(refs, stored, opened, q, floats)[i].hits.len() ==> is_held(
                #[trigger] all_answers(refs, stored, opened, q, floats)[i].hits[k],
                refs,
                stored,
                opened,
            ),
{
    if let Some(b) = block_of(refs[i], stored, opened) {
        match refs[i].origin {
            Origin::Disk(k) => {
                assert(stored[k as int].block == Some(b));
            },
            Origin::Open(k) => {
                assert(opened[k as int] == Some(b));
            },
        }
        assert(b.wf());
        lemma_block_hits(b, q, refs[i], i as usize, floats);
    }
}

/// Run a search against published blocks and snapshots of blocks that have been
/// acknowledged and not yet published.
///
/// The snapshots are what keeps reading one's own writes true: without them a
/// client that queried at once would get nothing back until the block is
/// published.
pub fn search_open(
    disk: &Vec<BlockRef>,
    stored: &Vec<Stored>,
    open: &Vec<Open>,
    opened: &Vec<Option<Block>>,
    q: &Search,
    floats: &Floats,
) -> (r: Results)
    requires
        disk@.len() == stored@.len(),
        open@.len() == opened@.len(),
        all_wf(stored@, opened@),
        floats.wf(),
    ensures
        ({
            let refs = planned(disk@, open@, *q);
            let start = Stats {
                blocks_total: all_sources(disk@, open@).len() as usize,
                ..Stats::none()
            };
            let end = run_from(
                refs,
                all_answers(refs, stored@, opened@, *q, *floats),
                0,
                Seq::empty(),
                start,
                q.limit as nat,
            );
            &&& r.json@ == page_doc(
                Doc::empty().enter('['),
                end.0,
                refs,
                stored@,
                opened@,
                *floats,
            ).leave(']').text
            &&& r.stats == end.1
            &&& r.next == SearchRun::next_cursor(end.0, q.limit as nat)
        }),
{
    let mut run = SearchRun::plan(disk, open, q);
    let ghost refs = run.refs@;
    let ghost answers = all_answers(refs, stored@, opened@, *q, *floats);
    let ghost limit = q.limit as nat;
    let ghost goal = run_from(refs, answers, 0, Seq::empty(), run.stats, limit);
    let scan = Scan::new(q, floats);
    let none = Sides { trace: None, attrs: None, ranges: None };
    assert(disk.len() <= usize::MAX);
    assert(open.len() <= usize::MAX);
    assert(run.refs.len() <= usize::MAX);
    proof {
        lemma_planned_here(disk@, open@, *q);
        assert(run.hits@ =~= Seq::<Hit>::empty());
    }
    loop
        invariant
            run.wf(),
            run.refs@ == refs,
            refs.len() <= usize::MAX,
            run.limit == q.limit,
            limit == q.limit,
            scan.wf(*floats),
            scan.prepared.q == q,
            none == no_sides(),
            all_wf(stored@, opened@),
            answers == all_answers(refs, stored@, opened@, *q, *floats),
            forall|i: int|
                0 <= i < refs.len() ==> is_here(#[trigger] refs[i], stored@.len(), opened@.len()),
            forall|i: int|
                0 <= i < run.hits@.len() ==> is_held(
                    #[trigger] run.hits@[i],
                    refs,
                    stored@,
                    opened@,
                ),
            goal == run_from(refs, answers, run.at as nat, run.hits@, run.stats, limit),
        ensures
            goal == (run.hits@, run.stats),
        decreases refs.len() - run.at,
    {
        let from: usize = match run.wants() {
            Some((from, _)) => from,
            None => {
                break;
            },
        };
        let ghost page = run.hits@;
        let ghost stats = run.stats;
        assert(is_here(refs[from as int], stored@.len(), opened@.len()));
        let src = run.refs[from];
        let sides = match src.origin {
            Origin::Disk(k) => &stored[k].sides,
            Origin::Open(_) => &none,
        };
        let b = pick(&src, stored, opened);
        proof {
            if let Some(x) = b {
                match src.origin {
                    Origin::Disk(k) => {
                        assert(stored@[k as int].block == Some(*x));
                    },
                    Origin::Open(k) => {
                        assert(opened@[k as int] == Some(*x));
                    },
                }
            }
        }
        let answer = scan.block(from, &src, sides, b, floats);
        let mut wave: Vec<Scanned> = Vec::new();
        wave.push(answer);
        proof {
            assert(answers[from as int] == wave@[0].answer());
            let one = answers_of(wave@);
            assert(one =~= seq![answers[from as int]]);
            assert(one.drop_last() =~= Seq::<Answer>::empty());
            assert(absorbed(page, stats, one.drop_last(), limit) == (page, stats));
            lemma_answer_held(refs, stored@, opened@, *q, *floats, from as int);
            lemma_kept_all_held(
                page,
                answers[from as int].hits,
                limit,
                refs,
                stored@,
                opened@,
            );
        }
        run.absorb(&wave);
    }
    let json = render(&run.hits, &run.refs, stored, opened, floats);
    Results { json, stats: run.stats, next: run.next() }
}

/// Run a search against published blocks.
pub fn search(disk: &Vec<BlockRef>, stored: &Vec<Stored>, q: &Search, floats: &Floats) -> (r: Results)
    requires
        disk@.len() == stored@.len(),
        all_wf(stored@, Seq::empty()),
        floats.wf(),
    ensures
        ({
            let refs = planned(disk@, Seq::empty(), *q);
            let start = Stats { blocks_total: disk@.len() as usize, ..Stats::none() };
            let end = run_from(
                refs,
                all_answers(refs, stored@, Seq::empty(), *q, *floats),
                0,
                Seq::empty(),
                start,
                q.limit as nat,
            );
            &&& r.json@ == page_doc(
                Doc::empty().enter('['),
                end.0,
                refs,
                stored@,
                Seq::empty(),
                *floats,
            ).leave(']').text
            &&& r.stats == end.1
            &&& r.next == SearchRun::next_cursor(end.0, q.limit as nat)
        }),
{
    let open: Vec<Open> = Vec::new();
    let opened: Vec<Option<Block>> = Vec::new();
    proof {
        assert(open@ =~= Seq::<Open>::empty());
        assert(opened@ =~= Seq::<Option<Block>>::empty());
        assert(all_sources(disk@, open@).len() == disk@.len());
    }
    search_open(disk, stored, &open, &opened, q, floats)
}

} // verus!
