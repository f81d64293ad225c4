//! The candidates a read may have to open: published blocks, and snapshots of
//! blocks that are still open.

use crate::block::{ranges_meet, BlockRef};
use crate::scan::{find_table, table_named, Named};
use crate::signal::Open;
use crate::sort::Ranked;
use crate::table::Table;
use vstd::prelude::*;

verus! {

/// Where a candidate's tables are: in a published block or in a snapshot, by
/// position.
#[derive(Debug, Clone, Copy, PartialEq, Eq, Structural)]
pub enum Origin {
    Disk(usize),
    Open(usize),
}

/// One candidate the read path may have to open: everything a scan needs
/// before it opens anything.
#[derive(Debug, Clone, Copy, PartialEq, Eq, Structural)]
pub struct Src {
    pub node: u32,
    pub seq: u64,
    pub min_ts: i64,
    pub max_ts: i64,
    pub origin: Origin,
}

impl Src {
    /// The candidate a published block is.
    pub open spec fn of_disk(b: BlockRef, i: int) -> Src {
        Src {
            node: b.node,
            seq: b.seq,
            min_ts: b.min_ts,
            max_ts: b.max_ts,
            origin: Origin::Disk(i as usize),
        }
    }

    /// The candidate a snapshot is.
    pub open spec fn of_open(o: Open, i: int) -> Src {
        Src {
            node: o.node,
            seq: o.seq,
            min_ts: o.sealed.min_ts,
            max_ts: o.sealed.max_ts,
            origin: Origin::Open(i as usize),
        }
    }

    /// A published block as a candidate: the one at position `i`.
    pub fn disk(b: &BlockRef, i: usize) -> (r: Src)
        ensures
            r == Src::of_disk(*b, i as int),
    {
        Src {
            node: b.node,
            seq: b.seq,
            min_ts: b.min_ts,
            max_ts: b.max_ts,
            origin: Origin::Disk(i),
        }
    }

    /// A snapshot as a candidate: the one at position `i`.
    pub fn open(o: &Open, i: usize) -> (r: Src)
        ensures
            r == Src::of_open(*o, i as int),
    {
        Src {
            node: o.node,
            seq: o.seq,
            min_ts: o.sealed.min_ts,
            max_ts: o.sealed.max_ts,
            origin: Origin::Open(i),
        }
    }

    /// Whether the candidate's time range meets a window.
    pub open spec fn meets(self, from: i64, to: i64) -> bool {
        ranges_meet(self.min_ts, self.max_ts, from, to)
    }

    pub fn overlaps(&self, from: i64, to: i64) -> (r: bool)
        ensures
            r == self.meets(from, to),
    {
        self.min_ts <= to && self.max_ts >= from
    }
}

impl Ranked for Src {
    /// Newest first, by the newest row and then by sequence.
    open spec fn ahead(self, other: Src) -> bool {
        self.max_ts > other.max_ts || (self.max_ts == other.max_ts && self.seq > other.seq)
    }

    proof fn lemma_order(a: Src, b: Src, c: Src) {
    }

    fn is_ahead(&self, other: &Src) -> (r: bool) {
        self.max_ts > other.max_ts || (self.max_ts == other.max_ts && self.seq > other.seq)
    }
}

/// Whether a block has been published under this identity.
pub open spec fn published(disk: Seq<BlockRef>, node: u32, seq: u64) -> bool {
    exists|i: int| 0 <= i < disk.len() && (#[trigger] disk[i]).node == node && disk[i].seq == seq
}

/// The candidates that the first `n` published blocks are.
pub open spec fn disk_sources(disk: Seq<BlockRef>, n: nat) -> Seq<Src> {
    Seq::new(n, |i: int| Src::of_disk(disk[i], i))
}

/// The candidates that the first `n` snapshots are, without those that have
/// been published meanwhile.
pub open spec fn open_sources(disk: Seq<BlockRef>, open: Seq<Open>, n: nat) -> Seq<Src>
    decreases n,
{
    if n == 0 {
        Seq::empty()
    } else {
        let before = open_sources(disk, open, (n - 1) as nat);
        if published(disk, open[n - 1].node, open[n - 1].seq) {
            before
        } else {
            before.push(Src::of_open(open[n - 1], n - 1))
        }
    }
}

/// All candidates: the published blocks, then the snapshots that have not yet
/// been published under the same identity.
pub open spec fn all_sources(disk: Seq<BlockRef>, open: Seq<Open>) -> Seq<Src> {
    disk_sources(disk, disk.len()) + open_sources(disk, open, open.len())
}

fn is_published(disk: &Vec<BlockRef>, node: u32, seq: u64) -> (r: bool)
    ensures
        r == published(disk@, node, seq),
{
    let mut i: usize = 0;
    while i < disk.len()
        invariant
            i <= disk@.len(),
            forall|k: int| 0 <= k < i ==> !((#[trigger] disk@[k]).node == node && disk@[k].seq == seq),
        decreases disk@.len() - i,
    {
        if disk[i].node == node && disk[i].seq == seq {
            return true;
        }
        i = i + 1;
    }
    false
}

/// The published blocks, plus any open-block snapshots that have not yet been
/// published under the same `(node, seq)`. The published copy wins a collision:
/// it is at least as complete.
pub fn sources(disk: &Vec<BlockRef>, open: &Vec<Open>) -> (r: Vec<Src>)
    ensures
        r@ == all_sources(disk@, open@),
{
    let mut out: Vec<Src> = Vec::new();
    let mut i: usize = 0;
    while i < disk.len()
        invariant
            i <= disk@.len(),
            out@ == disk_sources(disk@, i as nat),
        decreases disk@.len() - i,
    {
        out.push(Src::disk(&disk[i], i));
        assert(out@ =~= disk_sources(disk@, (i + 1) as nat));
        i = i + 1;
    }
    let ghost first = out@;
    let mut k: usize = 0;
    assert(first + open_sources(disk@, open@, 0) =~= first);
    while k < open.len()
        invariant
            k <= open@.len(),
            out@ == first + open_sources(disk@, open@, k as nat),
        decreases open@.len() - k,
    {
        let o = &open[k];
        if !is_published(disk, o.node, o.seq) {
            out.push(Src::open(o, k));
        }
        assert(out@ =~= first + open_sources(disk@, open@, (k + 1) as nat));
        k = k + 1;
    }
    out
}

/// One named table of what has been loaded. Nothing loaded, or no table of the
/// name, reads as no table.
pub fn load<'a>(tables: Option<&'a [Named]>, name: &str) -> (r: Option<&'a Table>)
    ensures
        tables is None ==> r is None,
        tables matches Some(t) ==> {
            &&& r is Some <==> table_named(t@, name@) is Some
            &&& r matches Some(x) ==> table_named(t@, name@) == Some(*x)
        },
{
    match tables {
        Some(t) => find_table(t, name),
        None => None,
    }
}

/// Every published block is a candidate; a snapshot is one exactly where no
/// block has been published under its identity.
pub proof fn law_published_copy_wins(disk: Seq<BlockRef>, open: Seq<Open>)
    requires
        disk.len() <= usize::MAX,
        open.len() <= usize::MAX,
    ensures
        forall|i: int|
            0 <= i < disk.len() ==> all_sources(disk, open).contains(#[trigger] Src::of_disk(disk[i], i)),
        forall|i: int|
            0 <= i < open.len() ==> (all_sources(disk, open).contains(
                #[trigger] Src::of_open(open[i], i),
            ) <==> !published(disk, open[i].node, open[i].seq)),
{
    let all = all_sources(disk, open);
    let d = disk_sources(disk, disk.len());
    let o = open_sources(disk, open, open.len());
    assert forall|i: int| 0 <= i < disk.len() implies all.contains(
        #[trigger] Src::of_disk(disk[i], i),
    ) by {
        assert(all[i] == Src::of_disk(disk[i], i));
    }
    assert forall|i: int| 0 <= i < open.len() implies (all.contains(
        #[trigger] Src::of_open(open[i], i),
    ) <==> !published(disk, open[i].node, open[i].seq)) by {
        let x = Src::of_open(open[i], i);
        lemma_open_sources(disk, open, open.len(), i);
        if o.contains(x) {
            let k = o.index_of(x);
            assert(all[d.len() + k] == x);
        }
        if all.contains(x) {
            let k = all.index_of(x);
            if k < d.len() {
                assert(all[k] == Src::of_disk(disk[k], k));
            } else {
                assert(o[k - d.len()] == x);
            }
        }
    }
}

proof fn lemma_open_sources(disk: Seq<BlockRef>, open: Seq<Open>, n: nat, i: int)
    requires
        0 <= i < open.len(),
        n <= open.len() <= usize::MAX,
    ensures
        open_sources(disk, open, n).contains(Src::of_open(open[i], i)) <==> i < n && !published(
            disk,
            open[i].node,
            open[i].seq,
        ),
    decreases n,
{
    if n > 0 {
        lemma_open_sources(disk, open, (n - 1) as nat, i);
        let before = open_sources(disk, open, (n - 1) as nat);
        let now = open_sources(disk, open, n);
        let x = Src::of_open(open[i], i);
        if !published(disk, open[n - 1].node, open[n - 1].seq) {
            if before.contains(x) {
                let k = before.index_of(x);
                assert(now[k] == x);
            }
            if i == n - 1 {
                assert(now[before.len() as int] == x);
            }
            if now.contains(x) {
                let k = now.index_of(x);
                if k < before.len() {
                    assert(before[k] == x);
                } else {
                    assert(now[k] == Src::of_open(open[n - 1], n - 1));
                    assert(i as usize == (n - 1) as usize);
                }
            }
        }
    }
}

} // verus!
