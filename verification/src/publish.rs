//! Publishing a sealed block: where it goes, what is written of it, and how it
//! is rewritten once it has gone cold.

use crate::block::{
    catalogued, dir_name, hour_of, listed_as, partition_name, staging_name, staging_prefix_text,
    BlockName, BlockRef, Listed,
};
use crate::path::{join, joined, piece};
use crate::scan::Named;
use crate::signal::Sealed;
use crate::sort::{in_order, lemma_ranked, ranked};
use crate::text::{chars_of, padded, push_padded, push_str, signed, signed_padded};
use vstd::prelude::*;
use vstd::seq_lib::*;

verus! {

/// Where a block is staged, and where it ends up.
pub struct Publish {
    /// Where staging directories are made.
    pub staging: String,
    /// The one of this block, which is made, filled and renamed.
    pub tmp: String,
    pub signal_dir: String,
    pub partition: String,
    /// The block once it is published.
    pub block: BlockRef,
}

/// The name of a sealed block.
pub open spec fn name_of(s: Sealed, node: u32, seq: u64, wal_hi: u64) -> BlockName {
    BlockName { min_ts: s.min_ts, max_ts: s.max_ts, node, seq, wal_hi }
}

/// What a staging directory is called: unique per block content, so that two
/// replicas on one volume never stage into the same one.
pub open spec fn staging_text(signal: Seq<char>, node: u32, seq: u64, min_ts: i64, max_ts: i64) -> Seq<
    char,
> {
    staging_prefix_text(signal, node) + padded(seq as nat, 10, 12) + seq!['-'] + signed_padded(
        min_ts as int,
        20,
    ) + seq!['-'] + signed_padded(max_ts as int, 20)
}

/// Plan the publication of a sealed block as `(node, seq)`. `wal_hi` is one past
/// the highest log sequence that the signal has absorbed, or zero where there
/// is no log.
pub fn publish(root: &str, signal: &str, node: u32, seq: u64, wal_hi: u64, sealed: &Sealed) -> (r:
    Publish)
    ensures
        r.staging@ == joined(root@, ".tmp"@),
        r.tmp@ == joined(
            r.staging@,
            staging_text(signal@, node, seq, sealed.min_ts, sealed.max_ts),
        ),
        r.signal_dir@ == joined(root@, signal@),
        r.partition@ == joined(r.signal_dir@, "p="@ + signed(hour_of(sealed.min_ts as int))),
        r.block.dir@ == joined(r.partition@, name_of(*sealed, node, seq, wal_hi).text()),
        r.block.min_ts == sealed.min_ts,
        r.block.max_ts == sealed.max_ts,
        r.block.node == node,
        r.block.seq == seq,
        r.block.wal_hi == wal_hi,
{
    let (min_ts, max_ts) = (sealed.min_ts, sealed.max_ts);
    let staging = join(root, ".tmp");
    let name = staging_name(signal, node, seq, min_ts, max_ts);
    let tmp = join(staging.as_str(), name.as_str());
    let signal_dir = join(root, signal);
    let hour = partition_name(min_ts);
    let partition = join(signal_dir.as_str(), hour.as_str());
    let leaf = dir_name(min_ts, max_ts, node, seq, wal_hi);
    let dir = join(partition.as_str(), leaf.as_str());
    Publish {
        staging,
        tmp,
        signal_dir,
        partition,
        block: BlockRef { dir, min_ts, max_ts, node, seq, wal_hi },
    }
}

/// A block that has been published is found again as what it was published as.
/// (A sealed block starts no earlier than the epoch.)
pub proof fn law_a_published_block_is_found(
    s: Sealed,
    node: u32,
    seq: u64,
    wal_hi: u64,
    b: BlockRef,
    l: Listed,
)
    requires
        s.min_ts >= 0,
        s.max_ts >= 0,
        b.min_ts == s.min_ts && b.max_ts == s.max_ts,
        b.node == node && b.seq == seq && b.wal_hi == wal_hi,
        l.dir@ == b.dir@,
        l.name@ == name_of(s, node, seq, wal_hi).text(),
    ensures
        listed_as(l, b),
{
    crate::block::law_name_round_trip(name_of(s, node, seq, wal_hi));
}

/// A listing that has gained the directory of a published block gives the blocks
/// it gave before and that one, oldest first.
pub proof fn law_a_listing_gains_the_published_block(
    s: Sealed,
    node: u32,
    seq: u64,
    wal_hi: u64,
    found: Seq<Listed>,
    l: Listed,
    blocks: Seq<BlockRef>,
)
    requires
        s.min_ts >= 0,
        s.max_ts >= 0,
        l.name@ == name_of(s, node, seq, wal_hi).text(),
        catalogued(found.push(l), found.len() + 1, blocks),
    ensures
        blocks.len() > 0,
        catalogued(found, found.len(), blocks.drop_last()),
        ({
            let b = blocks.last();
            &&& b.dir@ == l.dir@
            &&& b.min_ts == s.min_ts && b.max_ts == s.max_ts
            &&& b.node == node && b.seq == seq && b.wal_hi == wal_hi
            &&& in_order(ranked(blocks))
            &&& ranked(blocks).to_multiset() == ranked(blocks.drop_last()).to_multiset().insert(b)
        }),
{
    broadcast use group_to_multiset_ensures;

    crate::block::law_name_round_trip(name_of(s, node, seq, wal_hi));
    assert(found.push(l)[found.len() as int] == l);
    lemma_catalogued_prefix(found, l, found.len(), blocks.drop_last());
    lemma_ranked(blocks);
    lemma_ranked(blocks.drop_last());
    assert(blocks.drop_last().push(blocks.last()) =~= blocks);
}

proof fn lemma_catalogued_prefix(found: Seq<Listed>, l: Listed, n: nat, blocks: Seq<BlockRef>)
    requires
        n <= found.len(),
        catalogued(found.push(l), n, blocks),
    ensures
        catalogued(found, n, blocks),
    decreases n,
{
    if n > 0 {
        assert(found.push(l)[n - 1] == found[n - 1]);
        if BlockName::read(found[n - 1].name@) is Some {
            lemma_catalogued_prefix(found, l, (n - 1) as nat, blocks.drop_last());
        } else {
            lemma_catalogued_prefix(found, l, (n - 1) as nat, blocks);
        }
    }
}

// ---------------------------------------------------------------------------
// What is written.

/// The file of a table.
pub open spec fn file_of(name: Seq<char>) -> Seq<char> {
    name + ".arrow"@
}

/// A table to be written: the file it goes to, and which one it is.
pub struct Staged {
    pub file: String,
    pub table: usize,
}

/// What is written of the first `n` tables. One without rows is not: a reader
/// takes a missing file for an empty table.
pub open spec fn staged_upto(tables: Seq<Named>, n: nat) -> Seq<(Seq<char>, int)>
    decreases n,
{
    if n == 0 {
        Seq::empty()
    } else {
        let before = staged_upto(tables, (n - 1) as nat);
        if tables[n - 1].table.rows > 0 {
            before.push((file_of(tables[n - 1].name@), n - 1))
        } else {
            before
        }
    }
}

/// The tables of a block that are written, in order.
pub fn stage(sealed: &Sealed) -> (r: Vec<Staged>)
    ensures
        r@.map_values(|s: Staged| (s.file@, s.table as int)) == staged_upto(
            sealed.tables@,
            sealed.tables@.len(),
        ),
{
    let mut out: Vec<Staged> = Vec::new();
    let ghost f = |s: Staged| (s.file@, s.table as int);
    let mut i: usize = 0;
    assert(out@.map_values(f) =~= staged_upto(sealed.tables@, 0));
    while i < sealed.tables.len()
        invariant
            i <= sealed.tables@.len(),
            f == (|s: Staged| (s.file@, s.table as int)),
            out@.map_values(f) == staged_upto(sealed.tables@, i as nat),
        decreases sealed.tables@.len() - i,
    {
        let t = &sealed.tables[i];
        if t.table.rows > 0 {
            let mut file: String = t.name.as_str().to_owned();
            push_str(&mut file, ".arrow");
            let ghost was = out@.map_values(f);
            out.push(Staged { file, table: i });
            assert(out@.map_values(f) =~= was.push((file_of(t.name@), i as int)));
        }
        i = i + 1;
    }
    out
}

// ---------------------------------------------------------------------------
// Rewriting.

/// Whether a file is a table: `<name>.arrow`.
pub open spec fn is_table(file: Seq<char>) -> bool {
    file.len() > 6 && file.skip(file.len() - 6) == ".arrow"@
}

/// Whether a file is a table.
pub fn is_table_file(file: &str) -> (r: bool)
    ensures
        r == is_table(file@),
{
    proof {
        reveal_strlit(".arrow");
    }
    let c = chars_of(file);
    let n = c.len();
    if n <= 6 {
        return false;
    }
    let r = c[n - 6] == '.' && c[n - 5] == 'a' && c[n - 4] == 'r' && c[n - 3] == 'r' && c[n - 2] == 'o'
        && c[n - 1] == 'w';
    let ghost tail = file@.skip(n - 6);
    assert(tail[0] == c@[n - 6] && tail[1] == c@[n - 5] && tail[2] == c@[n - 4] && tail[3] == c@[n
        - 3] && tail[4] == c@[n - 2] && tail[5] == c@[n - 1]);
    if r {
        assert(tail =~= ".arrow"@);
    }
    r
}

/// What a table is rewritten as before it is renamed over the old one. It
/// carries the replica: two of them may see the same block go cold.
pub fn compact_name(file: &str, node: u32) -> (s: String)
    requires
        is_table(file@),
    ensures
        s@ == file@.take(file@.len() - 6) + seq!['.'] + padded(node as nat, 16, 8) + ".tmp"@,
{
    let c = chars_of(file);
    let mut s = piece(&c, 0, c.len() - 6);
    assert(s@ =~= file@.take(file@.len() - 6));
    s.push('.');
    push_padded(&mut s, node as u64, 16, 8);
    push_str(&mut s, ".tmp");
    s
}

} // verus!
