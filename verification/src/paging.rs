//! What holds of a search as a whole: which rows a page has, and how one page
//! follows another.

use crate::bloom::{file_of, filter_of, keys_of, law_no_false_negatives, maybe};
use crate::float::Floats;
use crate::order::lemma_rank_bytes;
use crate::probe::{needle_of, term_needle};
use crate::query::{Cursor, Search, Term};
use crate::scan::Block;
use crate::search::{
    absorbed, cursor_of, hits_of, is_after, kept_all, lemma_block_hits, run_from, stops, Answer,
    Hit, SearchRun, Stats,
};
use crate::select::all_rows;
use crate::sort::{
    first, in_order, inserted, lemma_inserted_head, lemma_ranked, lemma_ranked_contains, ranked,
    Ranked,
};
use crate::source::Src;
use crate::table::{Column, Data};
use vstd::prelude::*;

verus! {

/// The hits of the first `n` candidates, one candidate after the other.
pub open spec fn gathered(answers: Seq<Answer>, n: nat) -> Seq<Hit>
    decreases n,
{
    if n == 0 {
        Seq::empty()
    } else {
        gathered(answers, (n - 1) as nat) + answers[n - 1].hits
    }
}

/// No candidate holds a row newer than its name says.
pub open spec fn truthful(refs: Seq<Src>, answers: Seq<Answer>) -> bool {
    forall|i: int, k: int|
        0 <= i < refs.len() && 0 <= k < answers[i].hits.len() ==> (#[trigger] answers[i].hits[k]).at.ts
            <= refs[i].max_ts
}

proof fn lemma_kept_all(g: Seq<Hit>, hits: Seq<Hit>, limit: nat)
    ensures
        kept_all(first(ranked(g), limit), hits, limit) == first(ranked(g + hits), limit),
    decreases hits.len(),
{
    if hits.len() == 0 {
        assert(g + hits =~= g);
    } else {
        let shorter = hits.drop_last();
        lemma_kept_all(g, shorter, limit);
        assert((g + hits).drop_last() =~= g + shorter);
        lemma_ranked(g + shorter);
        lemma_inserted_head(ranked(g + shorter), hits.last(), limit);
    }
}

proof fn lemma_nothing_kept(page: Seq<Hit>, hits: Seq<Hit>, limit: nat)
    requires
        page.len() == limit,
        limit > 0,
        forall|k: int| 0 <= k < hits.len() ==> (#[trigger] hits[k]).at.ts < page.last().at.ts,
    ensures
        kept_all(page, hits, limit) == page,
    decreases hits.len(),
{
    if hits.len() > 0 {
        let shorter = hits.drop_last();
        assert forall|k: int| 0 <= k < shorter.len() implies (#[trigger] shorter[k]).at.ts
            < page.last().at.ts by {
            assert(shorter[k] == hits[k]);
        }
        lemma_nothing_kept(page, shorter, limit);
        let e = hits[hits.len() - 1];
        assert(!e.ahead(page.last()));
        assert(first(page.push(e), limit) =~= page);
    }
}

proof fn lemma_rest_is_older(refs: Seq<Src>, answers: Seq<Answer>, i: nat, n: nat, page: Seq<Hit>, limit: nat)
    requires
        i <= n <= refs.len(),
        refs.len() == answers.len(),
        in_order(refs),
        truthful(refs, answers),
        page == first(ranked(gathered(answers, i)), limit),
        i < refs.len() && stops(page, limit, refs[i as int]),
    ensures
        page == first(ranked(gathered(answers, n)), limit),
    decreases n - i,
{
    if n > i {
        lemma_rest_is_older(refs, answers, i, (n - 1) as nat, page, limit);
        let hits = answers[n - 1].hits;
        assert forall|k: int| 0 <= k < hits.len() implies (#[trigger] hits[k]).at.ts
            < page.last().at.ts by {
            assert(answers[n - 1].hits[k].at.ts <= refs[n - 1].max_ts);
            if i < n - 1 {
                assert(!refs[n - 1].ahead(refs[i as int]));
            }
        }
        lemma_nothing_kept(page, hits, limit);
        lemma_kept_all(gathered(answers, (n - 1) as nat), hits, limit);
    }
}

proof fn lemma_run(
    refs: Seq<Src>,
    answers: Seq<Answer>,
    i: nat,
    page: Seq<Hit>,
    stats: Stats,
    limit: nat,
)
    requires
        i <= refs.len(),
        refs.len() == answers.len(),
        in_order(refs),
        truthful(refs, answers),
        page == first(ranked(gathered(answers, i)), limit),
    ensures
        run_from(refs, answers, i, page, stats, limit).0 == first(
            ranked(gathered(answers, refs.len())),
            limit,
        ),
    decreases refs.len() - i,
{
    if i < refs.len() {
        if stops(page, limit, refs[i as int]) {
            lemma_rest_is_older(refs, answers, i, refs.len(), page, limit);
        } else {
            let hits = answers[i as int].hits;
            lemma_kept_all(gathered(answers, i), hits, limit);
            lemma_run(
                refs,
                answers,
                i + 1,
                kept_all(page, hits, limit),
                stats.with(answers[i as int]),
                limit,
            );
        }
    }
}

/// A page holds the first `limit` of all the hits there are, in the order rows
/// are delivered in: cutting the scan short loses nothing, as long as no block
/// holds a row newer than its name says.
pub proof fn law_page_is_the_newest(refs: Seq<Src>, answers: Seq<Answer>, stats: Stats, limit: nat)
    requires
        refs.len() == answers.len(),
        in_order(refs),
        truthful(refs, answers),
    ensures
        run_from(refs, answers, 0, Seq::empty(), stats, limit).0 == first(
            ranked(gathered(answers, refs.len())),
            limit,
        ),
        in_order(run_from(refs, answers, 0, Seq::empty(), stats, limit).0),
{
    let none = Seq::<Hit>::empty();
    assert(first(ranked(gathered(answers, 0)), limit) =~= none);
    lemma_run(refs, answers, 0, none, stats, limit);
    let all = ranked(gathered(answers, refs.len()));
    lemma_ranked(gathered(answers, refs.len()));
    let page = first(all, limit);
    assert forall|i: int, j: int| 0 <= i < j < page.len() implies !(#[trigger] page[j]).ahead(
        #[trigger] page[i],
    ) by {
        assert(page[i] == all[i] && page[j] == all[j]);
    }
}

/// Taking in a wave of answers at once comes to the same page and the same
/// counts as taking them in one at a time: how many threads were idle does not
/// show in the answer.
pub proof fn law_waves_do_not_show(page: Seq<Hit>, stats: Stats, a: Seq<Answer>, b: Seq<Answer>, limit: nat)
    ensures
        absorbed(page, stats, a + b, limit) == absorbed(
            absorbed(page, stats, a, limit).0,
            absorbed(page, stats, a, limit).1,
            b,
            limit,
        ),
    decreases b.len(),
{
    if b.len() == 0 {
        assert(a + b =~= a);
    } else {
        law_waves_do_not_show(page, stats, a, b.drop_last(), limit);
        assert((a + b).drop_last() =~= a + b.drop_last());
    }
}

/// However the candidates are cut into waves, the page after all of them, or
/// after a wave that lets the scan stop, is the same: the first `limit` of all
/// the hits there are.
pub proof fn law_stopping_after_any_wave_is_sound(
    refs: Seq<Src>,
    answers: Seq<Answer>,
    stats: Stats,
    limit: nat,
    at: nat,
)
    requires
        refs.len() == answers.len(),
        in_order(refs),
        truthful(refs, answers),
        at <= refs.len(),
        at == refs.len() || stops(
            absorbed(Seq::empty(), stats, answers.take(at as int), limit).0,
            limit,
            refs[at as int],
        ),
    ensures
        absorbed(Seq::empty(), stats, answers.take(at as int), limit).0 == first(
            ranked(gathered(answers, refs.len())),
            limit,
        ),
{
    lemma_absorbed(answers, stats, limit, at);
    let page = absorbed(Seq::empty(), stats, answers.take(at as int), limit).0;
    if at < refs.len() {
        lemma_rest_is_older(refs, answers, at, refs.len(), page, limit);
    }
}

proof fn lemma_absorbed(answers: Seq<Answer>, stats: Stats, limit: nat, n: nat)
    requires
        n <= answers.len(),
    ensures
        absorbed(Seq::empty(), stats, answers.take(n as int), limit).0 == first(
            ranked(gathered(answers, n)),
            limit,
        ),
    decreases n,
{
    let t = answers.take(n as int);
    if n == 0 {
        assert(first(ranked(gathered(answers, 0)), limit) =~= Seq::<Hit>::empty());
    } else {
        lemma_absorbed(answers, stats, limit, (n - 1) as nat);
        assert(t.drop_last() =~= answers.take(n - 1));
        lemma_kept_all(gathered(answers, (n - 1) as nat), answers[n - 1].hits, limit);
    }
}

/// The counts with all the answers from `i` on added.
pub open spec fn counted_from(stats: Stats, answers: Seq<Answer>, i: nat) -> Stats
    decreases answers.len() - i,
{
    if i >= answers.len() {
        stats
    } else {
        counted_from(stats.with(answers[i as int]), answers, i + 1)
    }
}

proof fn lemma_kept_len(page: Seq<Hit>, hits: Seq<Hit>, limit: nat)
    requires
        page.len() <= limit,
    ensures
        kept_all(page, hits, limit).len() <= limit,
    decreases hits.len(),
{
    if hits.len() > 0 {
        lemma_kept_len(page, hits.drop_last(), limit);
    }
}

proof fn lemma_complete(
    refs: Seq<Src>,
    answers: Seq<Answer>,
    i: nat,
    page: Seq<Hit>,
    stats: Stats,
    limit: nat,
)
    requires
        i <= refs.len(),
        refs.len() == answers.len(),
        page.len() <= limit,
        SearchRun::next_cursor(run_from(refs, answers, i, page, stats, limit).0, limit) is None,
    ensures
        run_from(refs, answers, i, page, stats, limit).1 == counted_from(stats, answers, i),
    decreases refs.len() - i,
{
    if i < refs.len() && !stops(page, limit, refs[i as int]) {
        let hits = answers[i as int].hits;
        lemma_kept_len(page, hits, limit);
        lemma_complete(
            refs,
            answers,
            i + 1,
            kept_all(page, hits, limit),
            stats.with(answers[i as int]),
            limit,
        );
    }
}

/// Where there is no next page, every candidate was looked at, and so the
/// counts are of all there is.
pub proof fn law_the_last_page_counts_everything(
    refs: Seq<Src>,
    answers: Seq<Answer>,
    stats: Stats,
    limit: nat,
)
    requires
        refs.len() == answers.len(),
        SearchRun::next_cursor(run_from(refs, answers, 0, Seq::empty(), stats, limit).0, limit) is None,
    ensures
        run_from(refs, answers, 0, Seq::empty(), stats, limit).1 == counted_from(stats, answers, 0),
{
    lemma_complete(refs, answers, 0, Seq::empty(), stats, limit);
}

// ---------------------------------------------------------------------------
// One page after another.

/// No two hits have one sort key.
pub open spec fn distinct(s: Seq<Hit>) -> bool {
    forall|i: int, j: int| 0 <= i < j < s.len() ==> (#[trigger] s[i]).at != (#[trigger] s[j]).at
}

proof fn lemma_inserted_distinct(s: Seq<Hit>, e: Hit)
    requires
        distinct(s),
        forall|i: int| 0 <= i < s.len() ==> (#[trigger] s[i]).at != e.at,
    ensures
        distinct(inserted(s, e)),
        forall|i: int|
            0 <= i < inserted(s, e).len() ==> (#[trigger] inserted(s, e)[i]) == e || s.contains(
                inserted(s, e)[i],
            ),
    decreases s.len(),
{
    let now = inserted(s, e);
    if s.len() > 0 && e.ahead(s.last()) {
        let t = s.drop_last();
        assert forall|i: int| 0 <= i < t.len() implies (#[trigger] t[i]).at != e.at by {
            assert(t[i] == s[i]);
        }
        assert forall|i: int, j: int| 0 <= i < j < t.len() implies (#[trigger] t[i]).at != (
        #[trigger] t[j]).at by {
            assert(s[i].at != s[j].at);
        }
        lemma_inserted_distinct(t, e);
        let u = inserted(t, e);
        assert forall|i: int| 0 <= i < now.len() implies (#[trigger] now[i]) == e || s.contains(
            now[i],
        ) by {
            if i < u.len() {
                assert(now[i] == u[i]);
                if u[i] != e {
                    let k = t.index_of(u[i]);
                    assert(s[k] == u[i]);
                }
            } else {
                assert(now[i] == s[s.len() - 1]);
            }
        }
        assert forall|i: int, j: int| 0 <= i < j < now.len() implies (#[trigger] now[i]).at != (
        #[trigger] now[j]).at by {
            assert(now[i] == u[i]);
            if j < u.len() {
                assert(now[j] == u[j]);
            } else {
                let last = s[s.len() - 1];
                assert(now[j] == last);
                if u[i] != e {
                    let k = t.index_of(u[i]);
                    assert(s[k].at != last.at);
                }
            }
        }
    } else {
        assert forall|i: int| 0 <= i < now.len() implies (#[trigger] now[i]) == e || s.contains(
            now[i],
        ) by {
            if i < s.len() {
                assert(now[i] == s[i]);
            }
        }
        assert forall|i: int, j: int| 0 <= i < j < now.len() implies (#[trigger] now[i]).at != (
        #[trigger] now[j]).at by {
            assert(now[i] == s[i]);
            if j < s.len() {
                assert(now[j] == s[j]);
            }
        }
    }
}

pub proof fn lemma_ranked_distinct(s: Seq<Hit>)
    requires
        distinct(s),
    ensures
        distinct(ranked(s)),
    decreases s.len(),
{
    if s.len() > 0 {
        let t = s.drop_last();
        assert forall|i: int, j: int| 0 <= i < j < t.len() implies (#[trigger] t[i]).at != (
        #[trigger] t[j]).at by {
            assert(s[i].at != s[j].at);
        }
        lemma_ranked_distinct(t);
        let r = ranked(t);
        let e = s[s.len() - 1];
        assert forall|i: int| 0 <= i < r.len() implies (#[trigger] r[i]).at != e.at by {
            lemma_ranked_contains(t, r[i]);
            assert(r.contains(r[i]));
            let k = t.index_of(r[i]);
            assert(s[k].at != e.at);
        }
        lemma_inserted_distinct(r, e);
    }
}

proof fn lemma_filter_last(s: Seq<Hit>, p: spec_fn(Hit) -> bool)
    requires
        in_order(s),
        s.filter(p).len() > 0,
    ensures
        exists|k: int| 0 <= k < s.len() && #[trigger] s[k] == s.filter(p).last(),
    decreases s.len(),
{
    reveal(Seq::filter);
    if s.len() > 0 {
        let t = s.drop_last();
        if p(s.last()) {
            assert(s[s.len() - 1] == s.filter(p).last());
        } else {
            assert(in_order(t));
            lemma_filter_last(t, p);
            let k = choose|k: int| 0 <= k < t.len() && #[trigger] t[k] == t.filter(p).last();
            assert(s[k] == t[k]);
        }
    }
}

proof fn lemma_inserted_filter(s: Seq<Hit>, e: Hit, p: spec_fn(Hit) -> bool)
    requires
        in_order(s),
    ensures
        inserted(s, e).filter(p) == if p(e) {
            inserted(s.filter(p), e)
        } else {
            s.filter(p)
        },
    decreases s.len(),
{
    reveal(Seq::filter);
    if s.len() > 0 && e.ahead(s.last()) {
        let t = s.drop_last();
        assert(in_order(t));
        lemma_inserted_filter(t, e, p);
        let u = inserted(t, e);
        assert(u.push(s.last()).drop_last() =~= u);
        if p(s.last()) && p(e) {
            let f = s.filter(p);
            assert(f.drop_last() =~= t.filter(p));
            assert(f.last() == s.last());
        }
    } else {
        assert(s.push(e).drop_last() =~= s);
        if p(e) {
            let f = s.filter(p);
            if f.len() > 0 {
                lemma_filter_last(s, p);
                let k = choose|k: int| 0 <= k < s.len() && #[trigger] s[k] == f.last();
                if e.ahead(f.last()) {
                    Hit::lemma_order(e, s.last(), f.last());
                    if k < s.len() - 1 {
                        assert(!s[s.len() - 1].ahead(s[k]));
                    }
                }
            }
        }
    }
}

proof fn lemma_ranked_filter(s: Seq<Hit>, p: spec_fn(Hit) -> bool)
    ensures
        ranked(s.filter(p)) == ranked(s).filter(p),
    decreases s.len(),
{
    reveal(Seq::filter);
    if s.len() > 0 {
        let t = s.drop_last();
        lemma_ranked_filter(t, p);
        lemma_ranked(t);
        lemma_inserted_filter(ranked(t), s.last(), p);
        if p(s.last()) {
            assert(s.filter(p).drop_last() =~= t.filter(p));
        }
    }
}

proof fn lemma_filter_tail(s: Seq<Hit>, p: spec_fn(Hit) -> bool, n: nat)
    requires
        n <= s.len(),
        forall|i: int| 0 <= i < s.len() ==> (p(#[trigger] s[i]) <==> i >= n),
    ensures
        s.filter(p) == s.skip(n as int),
    decreases s.len(),
{
    reveal(Seq::filter);
    if s.len() > 0 {
        let t = s.drop_last();
        assert forall|i: int| 0 <= i < t.len() implies (p(#[trigger] t[i]) <==> i >= n) by {
            assert(t[i] == s[i]);
        }
        if n < s.len() {
            lemma_filter_tail(t, p, n);
            assert(p(s[s.len() - 1]));
            assert(s.skip(n as int) =~= t.skip(n as int).push(s.last()));
        } else {
            assert(!p(s[s.len() - 1]));
            lemma_filter_tail(t, p, t.len());
            assert(s.skip(n as int) =~= t.skip(t.len() as int));
        }
    } else {
        assert(s.skip(n as int) =~= s);
    }
}

/// Asking for what comes after the last row of a full page gives exactly the
/// rows that page left out, in order: none twice and none skipped, however many
/// share a nanosecond.
pub proof fn law_the_next_page_goes_on_where_this_one_ended(all: Seq<Hit>, limit: nat)
    requires
        distinct(all),
        0 < limit <= all.len(),
    ensures
        SearchRun::next_cursor(first(ranked(all), limit), limit) matches Some(c) && ranked(
            all.filter(|h: Hit| is_after(h.at, Some(c))),
        ) == ranked(all).skip(limit as int),
{
    let r = ranked(all);
    lemma_ranked(all);
    lemma_ranked_distinct(all);
    let page = first(r, limit);
    let c = r[limit - 1].at;
    assert(page.last() == r[limit - 1]);
    let p = |h: Hit| is_after(h.at, Some(c));
    lemma_ranked_filter(all, p);
    assert forall|i: int| 0 <= i < r.len() implies (p(#[trigger] r[i]) <==> i >= limit) by {
        if i < limit - 1 {
            assert(!r[limit - 1].ahead(r[i]));
        } else if i >= limit {
            assert(!r[i].ahead(r[limit - 1]));
            assert(r[limit - 1].at != r[i].at);
        }
    }
    lemma_filter_tail(r, p, limit);
}

/// The hits behind a cursor are those of the hits at large that come after it.
pub proof fn law_a_cursor_only_filters(
    rows: Seq<u32>,
    times: Seq<i64>,
    src: Src,
    block: usize,
    c: Cursor,
)
    ensures
        hits_of(rows, times, src, block, Some(c)) == hits_of(rows, times, src, block, None).filter(
            |h: Hit| is_after(h.at, Some(c)),
        ),
    decreases rows.len(),
{
    reveal(Seq::filter);
    if rows.len() > 0 {
        law_a_cursor_only_filters(rows.drop_last(), times, src, block, c);
        let before = hits_of(rows.drop_last(), times, src, block, None);
        let e = Hit { at: cursor_of(src, times[rows.last() as int], rows.last()), block };
        assert(before.push(e).drop_last() =~= before);
    }
}

/// A block whose oldest row is newer than the cursor has nothing behind it, so
/// that leaving it out loses nothing.
pub proof fn law_a_delivered_block_has_nothing_left(src: Src, ts: i64, row: u32, c: Cursor)
    requires
        src.min_ts <= ts,
        src.min_ts > c.ts,
    ensures
        !is_after(cursor_of(src, ts, row), Some(c)),
{
}

// ---------------------------------------------------------------------------
// Every matching row is a hit.

proof fn lemma_hits_complete(
    rows: Seq<u32>,
    times: Seq<i64>,
    src: Src,
    block: usize,
    after: Option<Cursor>,
    row: u32,
)
    requires
        rows.contains(row),
        is_after(cursor_of(src, times[row as int], row), after),
    ensures
        hits_of(rows, times, src, block, after).contains(
            (Hit { at: cursor_of(src, times[row as int], row), block }),
        ),
    decreases rows.len(),
{
    let h = Hit { at: cursor_of(src, times[row as int], row), block };
    let before = hits_of(rows.drop_last(), times, src, block, after);
    let now = hits_of(rows, times, src, block, after);
    if rows.last() == row {
        assert(now[now.len() - 1] == h);
    } else {
        let k = rows.index_of(row);
        assert(rows.drop_last()[k] == row);
        lemma_hits_complete(rows.drop_last(), times, src, block, after, row);
        let m = before.index_of(h);
        assert(now[m] == h);
    }
}

proof fn lemma_all_rows_filter(n: nat, p: spec_fn(u32) -> bool, row: u32)
    requires
        n <= u32::MAX,
    ensures
        all_rows(n).filter(p).contains(row) <==> row < n && p(row),
    decreases n,
{
    reveal(Seq::filter);
    if n > 0 {
        lemma_all_rows_filter((n - 1) as nat, p, row);
        let t = all_rows((n - 1) as nat);
        assert(all_rows(n).drop_last() =~= t);
        let before = t.filter(p);
        let now = all_rows(n).filter(p);
        let last = (n - 1) as u32;
        assert(all_rows(n).last() == last);
        if p(last) {
            assert(now =~= before.push(last));
            if before.contains(row) {
                let k = before.index_of(row);
                assert(now[k] == row);
            }
            if row == last {
                assert(now[before.len() as int] == row);
            }
            if now.contains(row) {
                let k = now.index_of(row);
                if k < before.len() {
                    assert(before[k] == row);
                }
            }
        }
    } else {
        assert(all_rows(n).filter(p).len() == 0);
    }
}

/// The hits of a block are exactly its rows that the query selects and that lie
/// behind the cursor.
pub proof fn law_hits_are_the_selected_rows(
    b: Block,
    q: Search,
    src: Src,
    block: usize,
    floats: Floats,
    row: u32,
)
    requires
        b.wf(),
        b.times() is Some,
    ensures
        b.hits(q, src, block, floats).contains(
            (Hit { at: cursor_of(src, b.times().unwrap()[row as int], row), block }),
        ) <==> row < b.root.rows && b.selects(
            row as int,
            q,
            crate::search::covers(q, src),
            floats,
        ) && is_after(cursor_of(src, b.times().unwrap()[row as int], row), q.after),
{
    let times = b.times().unwrap();
    let h = Hit { at: cursor_of(src, times[row as int], row), block };
    let p = |i: u32| b.selects(i as int, q, crate::search::covers(q, src), floats);
    let hits = b.hits(q, src, block, floats);
    lemma_all_rows_filter(b.root.rows as nat, p, row);
    lemma_block_hits(b, q, src, block, floats);
    if hits.contains(h) {
        let k = hits.index_of(h);
        assert(hits[k].at.row == row);
        assert(b.selected(q, src, floats).contains(row));
    }
    if b.selected(q, src, floats).contains(row) && is_after(h.at, q.after) {
        lemma_hits_complete(b.selected(q, src, floats), times, src, block, q.after, row);
    }
}

// ---------------------------------------------------------------------------
// Pruning by trace.

proof fn lemma_needle_term(terms: Seq<Term>)
    requires
        needle_of(terms) is Some,
    ensures
        exists|k: int| 0 <= k < terms.len() && #[trigger] term_needle(terms[k]) == needle_of(terms),
    decreases terms.len(),
{
    if term_needle(terms[0]) is None {
        let rest = terms.skip(1);
        lemma_needle_term(rest);
        let k = choose|k: int| 0 <= k < rest.len() && #[trigger] term_needle(rest[k]) == needle_of(rest);
        assert(terms[k + 1] == rest[k]);
        assert(term_needle(terms[k + 1]) == needle_of(terms));
    }
}

/// A block whose trace filter says no has no row the query selects: skipping it
/// loses nothing.
pub proof fn law_trace_pruning_is_sound(
    b: Block,
    q: Search,
    covered: bool,
    floats: Floats,
    row: int,
    c: Column,
    id: Seq<u8>,
)
    requires
        b.wf(),
        0 <= row < b.root.rows,
        b.root.named("trace_id"@) == Some(c),
        c.data matches Data::Fixed(v) && forall|k: int|
            0 <= k < v@.len() ==> (#[trigger] v@[k])@.len() == 16,
        needle_of(q.terms@) == Some(id),
        b.selects(row, q, covered, floats),
    ensures
        keys_of(c).len() > 0,
        maybe(file_of(filter_of(keys_of(c))), id),
{
    lemma_needle_term(q.terms@);
    let k = choose|k: int|
        0 <= k < q.terms@.len() && #[trigger] term_needle(q.terms@[k]) == needle_of(q.terms@);
    let t = q.terms@[k];
    assert(b.satisfies(row, t, floats));
    let vals = c.data->Fixed_0@;
    crate::table::lemma_named_is_wf(*b.root, "trace_id"@);
    lemma_rank_bytes(vals[row]@, id, id);
    assert(vals[row]@ == id);
    law_no_false_negatives(c, vals, row);
}

} // verus!
