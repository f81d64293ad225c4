//! What is kept, what is read, and what is thrown away: over the blocks
//! themselves.

use crate::block::{hour_of, ranges_meet, BlockRef};
use crate::diag::{after, line_text, Decimals, Probe, Probes};
use crate::facets::{listing_of, newest_picks, pick_tables, total_upto, FacetState, Pick, Shelf};
use crate::frame::{keys_in, law_a_window_reads_what_meets_it, newest};
use crate::framelaws::law_a_block_counts_once;
use crate::guard::{declared_version, fs_named, refused_fs};
use crate::namelaws::{has_identity, lemma_identity, lemma_narrow};
use crate::offload::{
    complaint, counts, difference, first_complaint, first_extra, is_across, len_of, Found,
};
use crate::publish::{is_table, staged_upto};
use crate::scan::Named;
use crate::signal::Open;
use crate::sort::{lemma_ranked, ranked};
use crate::source::Src;
use crate::sweep::{attempts_upto, law_compaction_keeps_its_budget};
use crate::tally::{keys_ascend, value_of};
use crate::text::{decimal, lemma_digits_round_trip};
use vstd::prelude::*;

verus! {

// ---------------------------------------------------------------------------
// Windows.

/// A block could have a row in a window exactly if there is a moment that lies
/// in both, the ends included.
pub proof fn law_a_range_meets_a_window_in_a_moment(min_ts: i64, max_ts: i64, from: i64, to: i64)
    requires
        min_ts <= max_ts,
        from <= to,
    ensures
        ranges_meet(min_ts, max_ts, from, to) <==> exists|t: i64|
            #[trigger] lies_in(t, min_ts, max_ts) && lies_in(t, from, to),
{
    if ranges_meet(min_ts, max_ts, from, to) {
        let t = if min_ts >= from {
            min_ts
        } else {
            from
        };
        assert(lies_in(t, min_ts, max_ts) && lies_in(t, from, to));
    }
}

/// The moment is one of the range, its ends included.
pub open spec fn lies_in(t: i64, from: i64, to: i64) -> bool {
    from <= t && t <= to
}

/// What is read for a window are the candidates that start no later than it ends
/// and end no earlier than it starts, those with the newest rows first.
pub proof fn law_a_window_is_read_newest_first(
    all: Seq<Src>,
    from: i64,
    to: i64,
    x: Src,
    i: int,
    j: int,
)
    ensures
        newest(all, from, to).contains(x) <==> all.contains(x) && x.min_ts <= to && x.max_ts >= from,
        0 <= i < j < newest(all, from, to).len() ==> newest(all, from, to)[i].max_ts >= newest(
            all,
            from,
            to,
        )[j].max_ts,
{
    law_a_window_reads_what_meets_it(all, from, to, x);
    let r = newest(all, from, to);
    lemma_ranked(crate::frame::within_upto(all, from, to, all.len()));
    if 0 <= i < j < r.len() {
        assert(!crate::sort::Ranked::ahead(r[j], r[i]));
    }
}

/// The catalog lists blocks by their oldest row, and those that start together
/// by their sequence.
pub proof fn law_the_catalog_is_oldest_first(blocks: Seq<BlockRef>, i: int, j: int)
    requires
        0 <= i < j < blocks.len(),
    ensures
        ({
            let (a, b) = (ranked(blocks)[i], ranked(blocks)[j]);
            a.min_ts < b.min_ts || (a.min_ts == b.min_ts && a.seq <= b.seq)
        }),
        ranked(blocks).to_multiset() == blocks.to_multiset(),
{
    lemma_ranked(blocks);
    let r = ranked(blocks);
    assert(!crate::sort::Ranked::ahead(r[j], r[i]));
}

/// A partition is an hour: every block whose oldest row lies in it, and no
/// other, belongs there.
pub proof fn law_a_partition_is_an_hour(min_ts: i64, hour: int)
    ensures
        hour_of(min_ts as int) == hour <==> hour * 3_600_000_000_000 <= min_ts < (hour + 1)
            * 3_600_000_000_000,
{
    let h = hour_of(min_ts as int);
    assert(h * 3_600_000_000_000 <= min_ts < (h + 1) * 3_600_000_000_000);
}

// ---------------------------------------------------------------------------
// Sweeps.

/// A sweep rewrites at most eight blocks, each of which is not cold and has no
/// row as new as the cutoff; where it rewrites fewer, there are no others.
pub proof fn law_a_sweep_takes_what_is_old_and_warm(
    blocks: Seq<BlockRef>,
    cold: Seq<bool>,
    cutoff: i64,
    i: usize,
)
    requires
        blocks.len() == cold.len(),
        i < blocks.len() <= usize::MAX,
    ensures
        ({
            let tried = attempts_upto(blocks, cold, cutoff, blocks.len());
            &&& tried.len() <= 8
            &&& tried.contains(i) ==> blocks[i as int].max_ts < cutoff && !cold[i as int]
            &&& tried.len() < 8 && blocks[i as int].max_ts < cutoff && !cold[i as int]
                ==> tried.contains(i)
        }),
{
    law_compaction_keeps_its_budget(blocks, cold, cutoff, i);
}

// ---------------------------------------------------------------------------
// Guards.

/// A block that declares no version is of the first one, and one that declares a
/// number is of that version.
pub proof fn law_a_version_is_what_is_declared(n: nat)
    requires
        n <= u32::MAX,
    ensures
        declared_version(None) == Some(1nat),
        declared_version(Some(decimal(n))) == Some(n),
{
    lemma_digits_round_trip(n, 10);
    let s = decimal(n);
    assert(crate::text::digit_value(s[0], 10) is Some);
}

/// A mount is refused exactly if the low 32 bits of its magic number are those
/// of a network or a cluster filesystem.
pub proof fn law_network_mounts_are_refused(magic: u64)
    ensures
        refused_fs(fs_named(magic)) <==> {
            let ty = magic % 0x1_0000_0000;
            ||| ty == 0x6969
            ||| ty == 0x517b
            ||| ty == 0xff53_4d42
            ||| ty == 0xfe53_4d42
            ||| ty == 0x0102_1997
            ||| ty == 0x5346_414f
            ||| ty == 0x00c3_6400
            ||| ty == 0x0116_1970
            ||| ty == 0x7461_636f
            ||| ty == 0x0bd0_0bd0
        },
{
    reveal_strlit("fuse");
    reveal_strlit("NFS");
    reveal_strlit("SMB");
    reveal_strlit("CIFS");
    reveal_strlit("SMB2");
    reveal_strlit("9P");
    reveal_strlit("AFS");
    reveal_strlit("CephFS");
    reveal_strlit("GFS2");
    reveal_strlit("OCFS2");
    reveal_strlit("Lustre");
    assert("CIFS"@[0] == 'C' && "SMB2"@[0] == 'S' && "GFS2"@[0] == 'G' && "fuse"@[0] == 'f');
}

// ---------------------------------------------------------------------------
// Copies of a block.

/// A listing has a file of this name.
pub open spec fn has_file(v: Seq<Found>, name: Seq<char>) -> bool {
    exists|i: int| 0 <= i < v.len() && (#[trigger] v[i]).name@ == name
}

/// A listing has a file of this name and this length.
pub open spec fn has_sized(v: Seq<Found>, name: Seq<char>, len: u64) -> bool {
    exists|i: int| 0 <= i < v.len() && (#[trigger] v[i]).name@ == name && v[i].len == len
}

/// The names of a listing are all different.
pub open spec fn is_directory(v: Seq<Found>) -> bool {
    forall|i: int, j: int|
        0 <= i < j < v.len() ==> (#[trigger] v[i]).name@ != (#[trigger] v[j]).name@
}

proof fn lemma_len_of(v: Seq<Found>, name: Seq<char>)
    requires
        is_directory(v),
    ensures
        len_of(v, name) is Some <==> has_file(v, name),
        forall|len: u64| len_of(v, name) == Some(len) <==> #[trigger] has_sized(v, name, len),
    decreases v.len(),
{
    if v.len() > 0 {
        let t = v.skip(1);
        assert(is_directory(t)) by {
            assert forall|a: int, b: int| 0 <= a < b < t.len() implies (#[trigger] t[a]).name@ != (
            #[trigger] t[b]).name@ by {
                assert(t[a] == v[a + 1] && t[b] == v[b + 1]);
            }
        }
        lemma_len_of(t, name);
        if has_file(t, name) {
            let i = choose|i: int| 0 <= i < t.len() && (#[trigger] t[i]).name@ == name;
            assert(v[i + 1].name@ == name);
        }
        if has_file(v, name) && v[0].name@ != name {
            let i = choose|i: int| 0 <= i < v.len() && (#[trigger] v[i]).name@ == name;
            assert(t[i - 1].name@ == name);
        }
        assert forall|len: u64| len_of(v, name) == Some(len) <==> #[trigger] has_sized(
            v,
            name,
            len,
        ) by {
            if v[0].name@ == name {
                if has_sized(v, name, len) {
                    let i = choose|i: int|
                        0 <= i < v.len() && (#[trigger] v[i]).name@ == name && v[i].len == len;
                    if i > 0 {
                        assert(v[0].name@ != v[i].name@);
                    }
                }
            } else {
                if has_sized(t, name, len) {
                    let i = choose|i: int|
                        0 <= i < t.len() && (#[trigger] t[i]).name@ == name && t[i].len == len;
                    assert(v[i + 1].name@ == name && v[i + 1].len == len);
                }
                if has_sized(v, name, len) {
                    let i = choose|i: int|
                        0 <= i < v.len() && (#[trigger] v[i]).name@ == name && v[i].len == len;
                    assert(t[i - 1].name@ == name && t[i - 1].len == len);
                }
            }
        }
    }
}

proof fn lemma_complaints(ours: Seq<Found>, theirs: Seq<Found>, across: bool)
    ensures
        first_complaint(ours, theirs, across) is None <==> forall|i: int|
            0 <= i < ours.len() ==> complaint(#[trigger] ours[i], theirs, across) is None,
    decreases ours.len(),
{
    if ours.len() > 0 {
        let t = ours.skip(1);
        lemma_complaints(t, theirs, across);
        assert(forall|i: int| 0 <= i < t.len() ==> (#[trigger] t[i]) == ours[i + 1]);
        assert(forall|i: int| 1 <= i < ours.len() ==> (#[trigger] ours[i]) == t[i - 1]);
    }
}

proof fn lemma_extras(ours: Seq<Found>, theirs: Seq<Found>, across: bool)
    ensures
        first_extra(ours, theirs, across) is None <==> forall|i: int|
            0 <= i < theirs.len() ==> !(counts(#[trigger] theirs[i], across) && len_of(
                ours,
                theirs[i].name@,
            ) is None),
    decreases theirs.len(),
{
    if theirs.len() > 0 {
        let t = theirs.skip(1);
        lemma_extras(ours, t, across);
        assert(forall|i: int| 0 <= i < t.len() ==> (#[trigger] t[i]) == theirs[i + 1]);
        assert(forall|i: int| 1 <= i < theirs.len() ==> (#[trigger] theirs[i]) == t[i - 1]);
    }
}

/// Two copies are the same block exactly if each file of one is in the other
/// with its length, and the other has no more files. Where one of them is cold
/// and the other is not, the names decide, without the marker.
pub proof fn law_copies_are_the_same_or_not(ours: Seq<Found>, theirs: Seq<Found>)
    requires
        is_directory(ours),
        is_directory(theirs),
    ensures
        has_file(ours, "cold"@) == has_file(theirs, "cold"@) ==> (difference(ours, theirs) is None
            <==> (forall|i: int|
            0 <= i < ours.len() ==> has_sized(theirs, (#[trigger] ours[i]).name@, ours[i].len)) && (
        forall|i: int|
            0 <= i < theirs.len() ==> has_file(ours, (#[trigger] theirs[i]).name@))),
        has_file(ours, "cold"@) != has_file(theirs, "cold"@) ==> (difference(ours, theirs) is None
            <==> (forall|i: int|
            0 <= i < ours.len() && (#[trigger] ours[i]).name@ != "cold"@ ==> has_file(
                theirs,
                ours[i].name@,
            )) && (forall|i: int|
            0 <= i < theirs.len() && (#[trigger] theirs[i]).name@ != "cold"@ ==> has_file(
                ours,
                theirs[i].name@,
            ))),
{
    let across = is_across(ours, theirs);
    lemma_len_of(ours, "cold"@);
    lemma_len_of(theirs, "cold"@);
    lemma_complaints(ours, theirs, across);
    lemma_extras(ours, theirs, across);
    assert forall|i: int| 0 <= i < ours.len() implies (complaint(#[trigger] ours[i], theirs, across) is None
        <==> (across && ours[i].name@ == "cold"@) || (across && has_file(theirs, ours[i].name@)) || (
    !across && has_sized(theirs, ours[i].name@, ours[i].len))) by {
        lemma_len_of(theirs, ours[i].name@);
        assert(has_sized(theirs, ours[i].name@, ours[i].len) == (len_of(theirs, ours[i].name@)
            == Some(ours[i].len)));
    }
    assert forall|i: int| 0 <= i < theirs.len() implies (len_of(ours, (#[trigger] theirs[i]).name@) is None
        <==> !has_file(ours, theirs[i].name@)) by {
        lemma_len_of(ours, theirs[i].name@);
    }
}

// ---------------------------------------------------------------------------
// Probes.

/// Those of some samples that took longer.
pub open spec fn longer_than(samples: Seq<u64>, ns: u64) -> Seq<u64> {
    samples.filter(|x: u64| x > ns)
}

/// How long some samples took, together.
pub open spec fn sum_of(samples: Seq<u64>) -> int
    decreases samples.len(),
{
    if samples.len() == 0 {
        0
    } else {
        sum_of(samples.drop_last()) + samples.last()
    }
}

proof fn lemma_longer(samples: Seq<u64>, ns: u64)
    requires
        samples.len() > 0,
    ensures
        longer_than(samples, ns).len() == longer_than(samples.drop_last(), ns).len() + if samples.last()
            > ns {
            1int
        } else {
            0
        },
        longer_than(samples, ns).len() <= samples.len(),
    decreases samples.len(),
{
    reveal(Seq::filter);
    if samples.len() > 1 {
        lemma_longer(samples.drop_last(), ns);
    }
}

/// A probe counts its samples, adds them up, and counts those that took longer
/// than ten and than a hundred milliseconds.
pub proof fn law_a_probe_counts_its_slow_samples(samples: Seq<u64>)
    requires
        samples.len() <= u64::MAX,
    ensures
        ({
            let p = after(Probe::none(), samples);
            &&& p.n == samples.len()
            &&& p.ns == sum_of(samples) % 0x1_0000_0000_0000_0000
            &&& p.over_10ms == longer_than(samples, 10_000_000).len()
            &&& p.over_100ms == longer_than(samples, 100_000_000).len()
        }),
    decreases samples.len(),
{
    if samples.len() == 0 {
        reveal(Seq::filter);
    } else {
        law_a_probe_counts_its_slow_samples(samples.drop_last());
        lemma_longer(samples, 10_000_000);
        lemma_longer(samples, 100_000_000);
    }
}

// ---------------------------------------------------------------------------
// Listings.

/// The block has a resource of the identity.
pub open spec fn holds_entity(tables: Seq<Named>, k: u64) -> bool {
    exists|id: int| #[trigger] has_identity(tables, id, k)
}

/// How many of the first `n` candidates have a resource of the identity.
pub open spec fn holders(
    picks: Seq<Pick>,
    shelves: Seq<Shelf>,
    open: Seq<Vec<Open>>,
    k: u64,
    n: nat,
) -> nat
    decreases n,
{
    if n == 0 {
        0
    } else {
        holders(picks, shelves, open, k, (n - 1) as nat) + if holds_entity(
            pick_tables(picks[n - 1], shelves, open),
            k,
        ) {
            1nat
        } else {
            0
        }
    }
}

proof fn lemma_holds(tables: Seq<Named>, k: u64)
    requires
        k != 0,
    ensures
        keys_in(tables).contains(k) <==> holds_entity(tables, k),
{
    let keys = keys_in(tables);
    if keys.contains(k) {
        let id = keys.index_of(k);
        if id > 65535 {
            lemma_narrow(tables, id);
        }
        lemma_identity(tables, id, k);
        assert(has_identity(tables, id, k));
    }
    if holds_entity(tables, k) {
        let id = choose|id: int| #[trigger] has_identity(tables, id, k);
        lemma_identity(tables, id, k);
        assert(keys[id] == k);
    }
}

proof fn lemma_seen(
    s: FacetState,
    picks: Seq<Pick>,
    shelves: Seq<Shelf>,
    open: Seq<Vec<Open>>,
    k: u64,
    n: nat,
)
    requires
        s.seen.len() == 0,
    ensures
        ({
            let seen = s.with_picks(picks, shelves, open, n).seen;
            let count = holders(picks, shelves, open, k, n);
            &&& keys_ascend(seen)
            &&& k == 0 ==> value_of(seen, k) is None
            &&& k != 0 ==> match value_of(seen, k) {
                None => count == 0,
                Some(c) => count > 0 && c == count % 0x1_0000_0000_0000_0000,
            }
        }),
    decreases n,
{
    if n > 0 {
        lemma_seen(s, picks, shelves, open, k, (n - 1) as nat);
        let before = s.with_picks(picks, shelves, open, (n - 1) as nat);
        let tables = pick_tables(picks[n - 1], shelves, open);
        law_a_block_counts_once(before.seen, keys_in(tables), k);
        if k != 0 {
            lemma_holds(tables, k);
        }
    }
}

/// A listing has an entity exactly if one of the blocks of the window, of any
/// signal, has a resource of that identity, and counts the blocks that have one.
/// What has no identity is no entity.
pub proof fn law_a_listing_counts_the_blocks(
    shelves: Seq<Shelf>,
    open: Seq<Vec<Open>>,
    from: i64,
    to: i64,
    k: u64,
)
    ensures
        ({
            let picks = newest_picks(shelves, open, from, to);
            let seen = listing_of(shelves, open, from, to).seen;
            let count = holders(picks, shelves, open, k, picks.len());
            &&& k == 0 ==> value_of(seen, k) is None
            &&& k != 0 ==> match value_of(seen, k) {
                None => count == 0,
                Some(c) => count > 0 && c == count % 0x1_0000_0000_0000_0000,
            }
        }),
{
    let picks = newest_picks(shelves, open, from, to);
    let start = FacetState::none().with_total(total_upto(shelves, open, shelves.len()));
    lemma_seen(start, picks, shelves, open, k, picks.len());
}

// ---------------------------------------------------------------------------
// What is written of a block.

/// What is written of a block are its tables that have rows, each once and in
/// their order, to a file of the table's name; and a file of that name is taken
/// for a table.
pub proof fn law_tables_with_rows_are_written(tables: Seq<Named>, n: nat, k: int)
    requires
        n <= tables.len(),
        0 <= k < n,
    ensures
        tables[k].table.rows > 0 <==> staged_upto(tables, n).contains(
            (tables[k].name@ + ".arrow"@, k),
        ),
        forall|i: int|
            0 <= i < staged_upto(tables, n).len() ==> 0 <= (#[trigger] staged_upto(tables, n)[i]).1
                < n,
        forall|i: int, j: int|
            0 <= i < j < staged_upto(tables, n).len() ==> (#[trigger] staged_upto(tables, n)[i]).1
                < (#[trigger] staged_upto(tables, n)[j]).1,
        tables[k].name@.len() > 0 ==> is_table(tables[k].name@ + ".arrow"@),
    decreases n,
{
    reveal_strlit(".arrow");
    let pair = (tables[k].name@ + ".arrow"@, k);
    assert(pair.0.skip(pair.0.len() - 6) =~= ".arrow"@);
    lemma_staged(tables, n);
    let now = staged_upto(tables, n);
    if k == n - 1 {
        if tables[k].table.rows > 0 {
            assert(now[now.len() - 1] == pair);
        } else if now.contains(pair) {
            lemma_staged(tables, (n - 1) as nat);
            let before = staged_upto(tables, (n - 1) as nat);
            assert(now == before);
            assert(before[before.index_of(pair)].1 < n - 1);
        }
    } else {
        let before = staged_upto(tables, (n - 1) as nat);
        law_tables_with_rows_are_written(tables, (n - 1) as nat, k);
        if before.contains(pair) {
            assert(now[before.index_of(pair)] == pair);
        }
        if now.contains(pair) {
            let i = now.index_of(pair);
            assert(now[i] == pair);
            if i >= before.len() {
                assert(now[i].1 == n - 1);
            }
            assert(before[i] == pair);
        }
    }
}

proof fn lemma_staged(tables: Seq<Named>, n: nat)
    ensures
        forall|i: int|
            0 <= i < staged_upto(tables, n).len() ==> 0 <= (#[trigger] staged_upto(tables, n)[i]).1
                < n,
        forall|i: int, j: int|
            0 <= i < j < staged_upto(tables, n).len() ==> (#[trigger] staged_upto(tables, n)[i]).1
                < (#[trigger] staged_upto(tables, n)[j]).1,
    decreases n,
{
    if n > 0 {
        lemma_staged(tables, (n - 1) as nat);
        let before = staged_upto(tables, (n - 1) as nat);
        let now = staged_upto(tables, n);
        assert forall|i: int| 0 <= i < now.len() implies 0 <= (#[trigger] now[i]).1 < n by {
            if i < before.len() {
                assert(now[i] == before[i]);
            }
        }
        assert forall|i: int, j: int| 0 <= i < j < now.len() implies (#[trigger] now[i]).1 < (
        #[trigger] now[j]).1 by {
            assert(now[i] == before[i]);
            if j < before.len() {
                assert(now[j] == before[j]);
            }
        }
    }
}

// ---------------------------------------------------------------------------
// What a dump says.

/// A line of a dump has the name of its probe and its numbers in fixed places,
/// as long as each is no wider than its place: the count, the total, the mean
/// and the longest, and how many were slow and very slow.
pub proof fn law_a_line_has_fixed_places(p: Probe, name: Seq<char>, d: Decimals)
    requires
        name.len() <= 18,
        decimal(p.n as nat).len() <= 9,
        d.total@.len() <= 9,
        d.mean@.len() <= 8,
        d.max@.len() <= 9,
        decimal(p.over_10ms as nat).len() <= 8,
    ensures
        ({
            let s = line_text(p, name, d);
            &&& s.take(name.len() as int) == name
            &&& s.subrange(18, 21) == " n="@
            &&& s.subrange(21, 21int + decimal(p.n as nat).len()) == decimal(p.n as nat)
            &&& s.subrange(46 - d.total@.len(), 46) == d.total@
            &&& s.subrange(61 - d.mean@.len(), 61) == d.mean@
            &&& s.subrange(77 - d.max@.len(), 77) == d.max@
            &&& s.subrange(86, 86int + decimal(p.over_10ms as nat).len()) == decimal(
                p.over_10ms as nat,
            )
            &&& s.skip(102) == decimal(p.over_100ms as nat)
        }),
{
    reveal_strlit(" n=");
    reveal_strlit(" total=");
    reveal_strlit("s mean=");
    reveal_strlit("ms max=");
    reveal_strlit("ms >10ms=");
    reveal_strlit(" >100ms=");
    let s = line_text(p, name, d);
    assert(s.take(name.len() as int) =~= name);
    assert(s.subrange(18, 21) =~= " n="@);
    assert(s.subrange(21, 21int + decimal(p.n as nat).len()) =~= decimal(p.n as nat));
    assert(s.subrange(46 - d.total@.len(), 46) =~= d.total@);
    assert(s.subrange(61 - d.mean@.len(), 61) =~= d.mean@);
    assert(s.subrange(77 - d.max@.len(), 77) =~= d.max@);
    assert(s.subrange(86, 86int + decimal(p.over_10ms as nat).len()) =~= decimal(p.over_10ms as nat));
    assert(s.skip(102) =~= decimal(p.over_100ms as nat));
}

/// A dump lists the probes of a submission first, those of the log, and the
/// runtime's, each under its name.
pub proof fn law_a_dump_lists_every_probe(p: Probes)
    ensures
        p.listed().len() == 8,
        p.listed()[0] == ("submit.total"@, p.submit_total),
        p.listed()[1] == ("submit.admit"@, p.submit_admit),
        p.listed()[2] == ("submit.wait_ack"@, p.submit_wait_ack),
        p.listed()[3] == ("wal.encode"@, p.wal_encode),
        p.listed()[4] == ("wal.lock_wait"@, p.wal_lock_wait),
        p.listed()[5] == ("wal.held"@, p.wal_held),
        p.listed()[6] == ("wal.write"@, p.wal_write),
        p.listed()[7] == ("runtime.lag"@, p.runtime_lag),
{
}

} // verus!
