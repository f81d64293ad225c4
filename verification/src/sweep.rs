//! Which blocks a retention or compaction sweep takes.

use crate::block::{BlockRef, MAX_COMPACT_PER_SWEEP};
use vstd::prelude::*;

verus! {

/// How an attempt on one block ended.
#[derive(Debug, Clone, Copy, PartialEq, Eq, Structural)]
pub enum Outcome {
    Done,
    /// Another replica, or this node's own retention, got there first.
    Gone,
    /// About this block alone; the sweep goes on.
    Failed,
}

/// The positions below `n` of the blocks whose newest row is older than the
/// cutoff.
pub open spec fn expired_upto(blocks: Seq<BlockRef>, cutoff: i64, n: nat) -> Seq<usize>
    decreases n,
{
    if n == 0 {
        Seq::empty()
    } else {
        let before = expired_upto(blocks, cutoff, (n - 1) as nat);
        if blocks[n - 1].max_ts < cutoff {
            before.push((n - 1) as usize)
        } else {
            before
        }
    }
}

/// The blocks whose newest row is older than `cutoff_ns`, in the order given.
pub fn expire(blocks: &Vec<BlockRef>, cutoff_ns: i64) -> (r: Vec<usize>)
    ensures
        r@ == expired_upto(blocks@, cutoff_ns, blocks@.len()),
{
    let mut r: Vec<usize> = Vec::new();
    let mut i: usize = 0;
    while i < blocks.len()
        invariant
            i <= blocks@.len(),
            r@ == expired_upto(blocks@, cutoff_ns, i as nat),
        decreases blocks@.len() - i,
    {
        if blocks[i].max_ts < cutoff_ns {
            r.push(i);
        }
        i = i + 1;
    }
    r
}

/// How many of the first `n` attempts succeeded.
pub open spec fn done_upto(outcomes: Seq<Outcome>, n: nat) -> nat
    decreases n,
{
    if n == 0 {
        0
    } else {
        done_upto(outcomes, (n - 1) as nat) + if outcomes[n - 1] == Outcome::Done {
            1nat
        } else {
            0
        }
    }
}

/// What a sweep reports: the attempts that succeeded. Neither a block that was
/// already gone nor one that failed counts, and neither ends the sweep.
pub fn reported(outcomes: &Vec<Outcome>) -> (n: usize)
    ensures
        n == done_upto(outcomes@, outcomes@.len()),
{
    let mut n: usize = 0;
    let mut i: usize = 0;
    while i < outcomes.len()
        invariant
            i <= outcomes@.len(),
            n <= i,
            n == done_upto(outcomes@, i as nat),
        decreases outcomes@.len() - i,
    {
        if outcomes[i] == Outcome::Done {
            n = n + 1;
        }
        i = i + 1;
    }
    n
}

/// What a compaction sweep does about the next block.
#[derive(Debug, Clone, Copy, PartialEq, Eq, Structural)]
pub enum Offer {
    Stop,
    Skip,
    Try,
}

/// Whether a block is due for compaction.
pub open spec fn due(b: BlockRef, cold: bool, cutoff: i64) -> bool {
    b.max_ts < cutoff && !cold
}

/// What a sweep that has made `tried` attempts does about a block.
pub open spec fn offered(tried: int, b: BlockRef, cold: bool, cutoff: i64) -> Offer {
    if tried == MAX_COMPACT_PER_SWEEP {
        Offer::Stop
    } else if due(b, cold, cutoff) {
        Offer::Try
    } else {
        Offer::Skip
    }
}

/// Decide about the next block of a sweep that has made `tried` attempts. The
/// budget counts attempts, not successes, so a directory full of unreadable
/// blocks cannot be re-read whole on every sweep.
pub fn offer(tried: usize, b: &BlockRef, cold: bool, cutoff_ns: i64) -> (r: Offer)
    ensures
        r == offered(tried as int, *b, cold, cutoff_ns),
{
    if tried == MAX_COMPACT_PER_SWEEP {
        Offer::Stop
    } else if b.max_ts >= cutoff_ns || cold {
        Offer::Skip
    } else {
        Offer::Try
    }
}

/// The positions below `n` of the blocks a sweep attempts: those that are due,
/// as long as the budget lasts.
pub open spec fn attempts_upto(blocks: Seq<BlockRef>, cold: Seq<bool>, cutoff: i64, n: nat) -> Seq<usize>
    decreases n,
{
    if n == 0 {
        Seq::empty()
    } else {
        let before = attempts_upto(blocks, cold, cutoff, (n - 1) as nat);
        if before.len() < MAX_COMPACT_PER_SWEEP && due(blocks[n - 1], cold[n - 1], cutoff) {
            before.push((n - 1) as usize)
        } else {
            before
        }
    }
}

/// The blocks one sweep rewrites: aged, not yet cold, at most its budget of
/// them, in the order given.
pub fn compact(blocks: &Vec<BlockRef>, cold: &Vec<bool>, cutoff_ns: i64) -> (r: Vec<usize>)
    requires
        blocks@.len() == cold@.len(),
    ensures
        r@ == attempts_upto(blocks@, cold@, cutoff_ns, blocks@.len()),
{
    let mut r: Vec<usize> = Vec::new();
    let mut i: usize = 0;
    while i < blocks.len()
        invariant
            i <= blocks@.len(),
            blocks@.len() == cold@.len(),
            r@.len() <= MAX_COMPACT_PER_SWEEP,
            r@ == attempts_upto(blocks@, cold@, cutoff_ns, i as nat),
        decreases blocks@.len() - i,
    {
        match offer(r.len(), &blocks[i], cold[i], cutoff_ns) {
            Offer::Stop => {
                proof {
                    lemma_budget_spent(blocks@, cold@, cutoff_ns, i as nat, blocks@.len());
                }
                return r;
            },
            Offer::Skip => {},
            Offer::Try => {
                r.push(i);
            },
        }
        i = i + 1;
    }
    r
}

proof fn lemma_budget_spent(blocks: Seq<BlockRef>, cold: Seq<bool>, cutoff: i64, i: nat, n: nat)
    requires
        i <= n,
        attempts_upto(blocks, cold, cutoff, i).len() == MAX_COMPACT_PER_SWEEP,
    ensures
        attempts_upto(blocks, cold, cutoff, n) == attempts_upto(blocks, cold, cutoff, i),
    decreases n - i,
{
    if i < n {
        lemma_budget_spent(blocks, cold, cutoff, i, (n - 1) as nat);
    }
}

/// Retention takes a block exactly where its newest row is older than the
/// cutoff, so one with a row that is not stays.
pub proof fn law_retention_is_exact(blocks: Seq<BlockRef>, cutoff: i64, i: usize)
    requires
        i < blocks.len() <= usize::MAX,
    ensures
        expired_upto(blocks, cutoff, blocks.len()).contains(i) <==> blocks[i as int].max_ts < cutoff,
{
    lemma_expired(blocks, cutoff, blocks.len(), i);
}

proof fn lemma_expired(blocks: Seq<BlockRef>, cutoff: i64, n: nat, i: usize)
    requires
        i < blocks.len() <= usize::MAX,
        n <= blocks.len(),
    ensures
        expired_upto(blocks, cutoff, n).contains(i) <==> i < n && blocks[i as int].max_ts < cutoff,
    decreases n,
{
    if n > 0 {
        lemma_expired(blocks, cutoff, (n - 1) as nat, i);
        let before = expired_upto(blocks, cutoff, (n - 1) as nat);
        let now = expired_upto(blocks, cutoff, n);
        if blocks[n - 1].max_ts < cutoff {
            if before.contains(i) {
                let k = before.index_of(i);
                assert(now[k] == i);
            }
            if i == n - 1 {
                assert(now[before.len() as int] == i);
            }
            if now.contains(i) {
                let k = now.index_of(i);
                if k < before.len() {
                    assert(before[k] == i);
                }
            }
        }
    }
}

/// A sweep attempts no more than its budget, and only blocks that are due; as
/// long as the budget is not spent it leaves out none that is.
pub proof fn law_compaction_keeps_its_budget(
    blocks: Seq<BlockRef>,
    cold: Seq<bool>,
    cutoff: i64,
    i: usize,
)
    requires
        blocks.len() == cold.len(),
        i < blocks.len() <= usize::MAX,
    ensures
        attempts_upto(blocks, cold, cutoff, blocks.len()).len() <= MAX_COMPACT_PER_SWEEP,
        attempts_upto(blocks, cold, cutoff, blocks.len()).contains(i) ==> due(
            blocks[i as int],
            cold[i as int],
            cutoff,
        ),
        attempts_upto(blocks, cold, cutoff, blocks.len()).len() < MAX_COMPACT_PER_SWEEP && due(
            blocks[i as int],
            cold[i as int],
            cutoff,
        ) ==> attempts_upto(blocks, cold, cutoff, blocks.len()).contains(i),
{
    lemma_attempts(blocks, cold, cutoff, blocks.len(), i);
}

proof fn lemma_attempts(blocks: Seq<BlockRef>, cold: Seq<bool>, cutoff: i64, n: nat, i: usize)
    requires
        i < blocks.len() <= usize::MAX,
        n <= blocks.len(),
    ensures
        attempts_upto(blocks, cold, cutoff, n).len() <= MAX_COMPACT_PER_SWEEP,
        attempts_upto(blocks, cold, cutoff, n).contains(i) ==> i < n && due(
            blocks[i as int],
            cold[i as int],
            cutoff,
        ),
        attempts_upto(blocks, cold, cutoff, n).len() < MAX_COMPACT_PER_SWEEP && i < n && due(
            blocks[i as int],
            cold[i as int],
            cutoff,
        ) ==> attempts_upto(blocks, cold, cutoff, n).contains(i),
    decreases n,
{
    if n > 0 {
        lemma_attempts(blocks, cold, cutoff, (n - 1) as nat, i);
        let before = attempts_upto(blocks, cold, cutoff, (n - 1) as nat);
        let now = attempts_upto(blocks, cold, cutoff, n);
        if before.len() < MAX_COMPACT_PER_SWEEP && due(blocks[n - 1], cold[n - 1], cutoff) {
            if before.contains(i) {
                let k = before.index_of(i);
                assert(now[k] == i);
            }
            if i == n - 1 {
                assert(now[before.len() as int] == i);
            }
            if now.contains(i) {
                let k = now.index_of(i);
                if k < before.len() {
                    assert(before[k] == i);
                }
            }
        }
    }
}

// ---------------------------------------------------------------------------
// One sweep after another.

/// How many of the first `n` blocks are due for compaction.
pub open spec fn due_upto(blocks: Seq<BlockRef>, cold: Seq<bool>, cutoff: i64, n: nat) -> nat
    decreases n,
{
    if n == 0 {
        0
    } else {
        due_upto(blocks, cold, cutoff, (n - 1) as nat) + if due(blocks[n - 1], cold[n - 1], cutoff) {
            1nat
        } else {
            0
        }
    }
}

/// Which blocks are cold after the first `n` attempts of a sweep: those that
/// were, and those whose attempt succeeded.
pub open spec fn marked_upto(
    cold: Seq<bool>,
    tried: Seq<usize>,
    outcomes: Seq<Outcome>,
    n: nat,
) -> Seq<bool>
    decreases n,
{
    if n == 0 {
        cold
    } else {
        let before = marked_upto(cold, tried, outcomes, (n - 1) as nat);
        if outcomes[n - 1] == Outcome::Done {
            before.update(tried[n - 1] as int, true)
        } else {
            before
        }
    }
}

proof fn lemma_attempts_counted(blocks: Seq<BlockRef>, cold: Seq<bool>, cutoff: i64, n: nat)
    requires
        n <= blocks.len() <= usize::MAX,
    ensures
        ({
            let tried = attempts_upto(blocks, cold, cutoff, n);
            let left = due_upto(blocks, cold, cutoff, n);
            &&& tried.len() == if left < MAX_COMPACT_PER_SWEEP {
                left
            } else {
                MAX_COMPACT_PER_SWEEP as nat
            }
            &&& forall|i: int|
                0 <= i < tried.len() ==> (#[trigger] tried[i]) < n && due(
                    blocks[tried[i] as int],
                    cold[tried[i] as int],
                    cutoff,
                )
            &&& forall|i: int, j: int|
                0 <= i < j < tried.len() ==> (#[trigger] tried[i]) < (#[trigger] tried[j])
        }),
    decreases n,
{
    if n > 0 {
        lemma_attempts_counted(blocks, cold, cutoff, (n - 1) as nat);
    }
}

proof fn lemma_due_less_one(blocks: Seq<BlockRef>, cold: Seq<bool>, cutoff: i64, p: int, n: nat)
    requires
        n <= blocks.len() == cold.len(),
        0 <= p < blocks.len(),
        due(blocks[p], cold[p], cutoff),
    ensures
        due_upto(blocks, cold.update(p, true), cutoff, n) == due_upto(blocks, cold, cutoff, n) - if p
            < n {
            1int
        } else {
            0
        },
    decreases n,
{
    if n > 0 {
        lemma_due_less_one(blocks, cold, cutoff, p, (n - 1) as nat);
    }
}

proof fn lemma_marked(
    blocks: Seq<BlockRef>,
    cold: Seq<bool>,
    cutoff: i64,
    outcomes: Seq<Outcome>,
    n: nat,
)
    requires
        blocks.len() == cold.len(),
        blocks.len() <= usize::MAX,
        n <= attempts_upto(blocks, cold, cutoff, blocks.len()).len(),
        n <= outcomes.len(),
    ensures
        ({
            let tried = attempts_upto(blocks, cold, cutoff, blocks.len());
            let now = marked_upto(cold, tried, outcomes, n);
            &&& now.len() == cold.len()
            &&& due_upto(blocks, now, cutoff, blocks.len()) == due_upto(
                blocks,
                cold,
                cutoff,
                blocks.len(),
            ) - done_upto(outcomes, n)
            &&& forall|p: int|
                0 <= p < cold.len() ==> #[trigger] now[p] == (cold[p] || exists|i: int|
                    0 <= i < n && #[trigger] tried[i] == p && outcomes[i] == Outcome::Done)
        }),
    decreases n,
{
    let tried = attempts_upto(blocks, cold, cutoff, blocks.len());
    if n > 0 {
        lemma_marked(blocks, cold, cutoff, outcomes, (n - 1) as nat);
        lemma_attempts_counted(blocks, cold, cutoff, blocks.len());
        let before = marked_upto(cold, tried, outcomes, (n - 1) as nat);
        let now = marked_upto(cold, tried, outcomes, n);
        let p = tried[n - 1] as int;
        assert(before[p] == cold[p]) by {
            if exists|i: int| 0 <= i < n - 1 && #[trigger] tried[i] == p && outcomes[i] == Outcome::Done {
                let i = choose|i: int|
                    0 <= i < n - 1 && #[trigger] tried[i] == p && outcomes[i] == Outcome::Done;
                assert(tried[i] < tried[n - 1]);
            }
        }
        if outcomes[n - 1] == Outcome::Done {
            lemma_due_less_one(blocks, before, cutoff, p, blocks.len());
        }
        assert forall|x: int| 0 <= x < cold.len() implies #[trigger] now[x] == (cold[x] || exists|i: int|
            0 <= i < n && #[trigger] tried[i] == x && outcomes[i] == Outcome::Done) by {
            assert(before[x] == (cold[x] || exists|i: int|
                0 <= i < n - 1 && #[trigger] tried[i] == x && outcomes[i] == Outcome::Done));
            if x == p && outcomes[n - 1] == Outcome::Done {
                assert(tried[n - 1] == x);
            }
        }
    }
}

/// A sweep attempts as many of the blocks that are due as its budget allows.
/// What it reports is by how many fewer are due afterwards. A block is cold then
/// if it was, or if it was attempted and the attempt succeeded; no other is
/// touched.
pub proof fn law_a_sweep_leaves_fewer_due(
    blocks: Seq<BlockRef>,
    cold: Seq<bool>,
    cutoff: i64,
    outcomes: Seq<Outcome>,
)
    requires
        blocks.len() == cold.len(),
        blocks.len() <= usize::MAX,
        outcomes.len() == attempts_upto(blocks, cold, cutoff, blocks.len()).len(),
    ensures
        ({
            let tried = attempts_upto(blocks, cold, cutoff, blocks.len());
            let now = marked_upto(cold, tried, outcomes, tried.len());
            let left = due_upto(blocks, cold, cutoff, blocks.len());
            &&& tried.len() == if left < MAX_COMPACT_PER_SWEEP {
                left
            } else {
                MAX_COMPACT_PER_SWEEP as nat
            }
            &&& due_upto(blocks, now, cutoff, blocks.len()) == left - done_upto(
                outcomes,
                outcomes.len(),
            )
            &&& now.len() == cold.len()
            &&& forall|p: int|
                0 <= p < cold.len() ==> #[trigger] now[p] == (cold[p] || exists|i: int|
                    0 <= i < tried.len() && #[trigger] tried[i] == p && outcomes[i]
                        == Outcome::Done)
        }),
{
    lemma_attempts_counted(blocks, cold, cutoff, blocks.len());
    lemma_marked(blocks, cold, cutoff, outcomes, outcomes.len());
}

/// Which blocks are cold after `k` sweeps in which every attempt succeeds.
pub open spec fn swept(blocks: Seq<BlockRef>, cold: Seq<bool>, cutoff: i64, k: nat) -> Seq<bool>
    decreases k,
{
    if k == 0 {
        cold
    } else {
        let before = swept(blocks, cold, cutoff, (k - 1) as nat);
        let tried = attempts_upto(blocks, before, cutoff, blocks.len());
        marked_upto(before, tried, all_done(tried.len()), tried.len())
    }
}

/// `n` attempts that succeeded.
pub open spec fn all_done(n: nat) -> Seq<Outcome> {
    Seq::new(n, |i: int| Outcome::Done)
}

proof fn lemma_all_done(n: nat, k: nat)
    requires
        k <= n,
    ensures
        done_upto(all_done(n), k) == k,
    decreases k,
{
    if k > 0 {
        lemma_all_done(n, (k - 1) as nat);
    }
}

/// Sweeps in which every attempt succeeds take a full budget off what is due,
/// one after the other, until nothing is.
pub proof fn law_sweeps_finish(blocks: Seq<BlockRef>, cold: Seq<bool>, cutoff: i64, k: nat)
    requires
        blocks.len() == cold.len(),
        blocks.len() <= usize::MAX,
    ensures
        ({
            let left = due_upto(blocks, cold, cutoff, blocks.len());
            let now = swept(blocks, cold, cutoff, k);
            &&& now.len() == cold.len()
            &&& due_upto(blocks, now, cutoff, blocks.len()) == if left > MAX_COMPACT_PER_SWEEP * k {
                left - MAX_COMPACT_PER_SWEEP * k
            } else {
                0
            }
        }),
    decreases k,
{
    if k > 0 {
        law_sweeps_finish(blocks, cold, cutoff, (k - 1) as nat);
        let before = swept(blocks, cold, cutoff, (k - 1) as nat);
        let tried = attempts_upto(blocks, before, cutoff, blocks.len());
        lemma_all_done(tried.len(), tried.len());
        law_a_sweep_leaves_fewer_due(blocks, before, cutoff, all_done(tried.len()));
        assert(MAX_COMPACT_PER_SWEEP * (k - 1) == MAX_COMPACT_PER_SWEEP * k - MAX_COMPACT_PER_SWEEP)
            by (nonlinear_arith);
    }
}

} // verus!
