//! Blocks by name: what a block directory's name says, the catalog a listing
//! of names makes, and which blocks a sweep takes.

use crate::identity::{hash64, hash_of};
use crate::order::utf8;
use crate::sort::{ranked, sort_ranked, Ranked};
use crate::text::{
    after_field, chars_of, field_end, field_len, field_of, lemma_digits_without, lemma_field_len_of,
    lemma_padded_round_trip, padded, parse_signed, parse_unsigned, push_padded, push_signed,
    push_signed_padded, read_signed, read_unsigned, signed, signed_padded,
};
use vstd::prelude::*;

verus! {

/// The width of a partition, in nanoseconds.
pub const NANOS_PER_HOUR: i64 = 3_600_000_000_000;

/// A block goes cold once it has aged out of the hour it was partitioned into.
pub const COLD_AFTER_NS: i64 = 3_600_000_000_000;

/// How many blocks one sweep will try to compact.
pub const MAX_COMPACT_PER_SWEEP: usize = 8;

/// The file that says a block has gone cold.
pub const COLD_MARKER: &'static str = "cold";

/// A published block, discovered by reading directory names.
#[derive(Debug, Clone)]
pub struct BlockRef {
    pub dir: String,
    pub min_ts: i64,
    pub max_ts: i64,
    /// Which replica wrote this block. See [`node_id`].
    pub node: u32,
    pub seq: u64,
    /// One past the highest write-ahead-log sequence whose records are in this
    /// block, or `0` for a block published before the log existed.
    pub wal_hi: u64,
}

/// Whether `[min_ts, max_ts]` and `[from, to]` have a moment in common.
pub open spec fn ranges_meet(min_ts: i64, max_ts: i64, from: i64, to: i64) -> bool {
    min_ts <= to && max_ts >= from
}

impl BlockRef {
    /// True if this block could contain a row in `[from, to]`. The whole point
    /// of the naming scheme: pruning without opening a single file.
    pub fn overlaps(&self, from: i64, to: i64) -> (r: bool)
        ensures
            r == ranges_meet(self.min_ts, self.max_ts, from, to),
    {
        self.min_ts <= to && self.max_ts >= from
    }
}

/// A block that does not overlap a window holds no row in it.
pub proof fn law_pruning_by_name_is_sound(min_ts: i64, max_ts: i64, from: i64, to: i64, ts: i64)
    requires
        min_ts <= ts <= max_ts,
        from <= ts <= to,
    ensures
        ranges_meet(min_ts, max_ts, from, to),
{
}

/// A replica's writer identity, derived from its name with no coordination.
pub fn node_id(name: &str) -> (r: u32)
    ensures
        r == hash_of(utf8(name@)) % 0x1_0000_0000,
{
    (hash64(name.as_bytes()) % 0x1_0000_0000) as u32
}

// ---------------------------------------------------------------------------
// Names.

/// What a block directory's name says.
#[derive(Debug, Clone, Copy, PartialEq, Eq, Structural)]
pub struct BlockName {
    pub min_ts: i64,
    pub max_ts: i64,
    pub node: u32,
    pub seq: u64,
    pub wal_hi: u64,
}

impl BlockName {
    /// `{min_ts}-{max_ts}-{node}-{seq}-{wal_hi}`, each of a fixed width at
    /// least.
    pub open spec fn text(self) -> Seq<char> {
        signed_padded(self.min_ts as int, 20) + seq!['-'] + signed_padded(self.max_ts as int, 20)
            + seq!['-'] + padded(self.node as nat, 16, 8) + seq!['-'] + padded(
            self.seq as nat,
            10,
            12,
        ) + seq!['-'] + padded(self.wal_hi as nat, 10, 20)
    }

    /// What a name says: five fields, or four where it predates the log.
    pub open spec fn read(s: Seq<char>) -> Option<BlockName> {
        match four_fields(s) {
            None => None,
            Some(f) => BlockName::read_fields(f.0, f.1, f.2, f.3, f.4),
        }
    }

    /// The fields of a name as numbers. What follows the fourth is the fifth,
    /// and nothing may follow that.
    pub open spec fn read_fields(
        min: Seq<char>,
        max: Seq<char>,
        node: Seq<char>,
        seq: Seq<char>,
        rest: Option<Seq<char>>,
    ) -> Option<BlockName> {
        let hi = match rest {
            None => Some(0nat),
            Some(s5) => if field_len(s5, '-') < s5.len() {
                None
            } else {
                parse_unsigned(s5, 10, u64::MAX as nat)
            },
        };
        match (
            parse_signed(min),
            parse_signed(max),
            parse_unsigned(node, 16, u32::MAX as nat),
            parse_unsigned(seq, 10, u64::MAX as nat),
            hi,
        ) {
            (Some(a), Some(b), Some(n), Some(q), Some(h)) => Some(
                BlockName {
                    min_ts: a as i64,
                    max_ts: b as i64,
                    node: n as u32,
                    seq: q as u64,
                    wal_hi: h as u64,
                },
            ),
            _ => None,
        }
    }
}

/// The first four fields of a name, and what follows them.
pub open spec fn four_fields(s: Seq<char>) -> Option<
    (Seq<char>, Seq<char>, Seq<char>, Seq<char>, Option<Seq<char>>),
> {
    match after_field(s, '-') {
        None => None,
        Some(s2) => match after_field(s2, '-') {
            None => None,
            Some(s3) => match after_field(s3, '-') {
                None => None,
                Some(s4) => Some(
                    (
                        field_of(s, '-'),
                        field_of(s2, '-'),
                        field_of(s3, '-'),
                        field_of(s4, '-'),
                        after_field(s4, '-'),
                    ),
                ),
            },
        },
    }
}

/// The name of a block directory.
pub fn dir_name(min_ts: i64, max_ts: i64, node: u32, seq: u64, wal_hi: u64) -> (s: String)
    ensures
        s@ == (BlockName { min_ts, max_ts, node, seq, wal_hi }).text(),
{
    let mut s: String = String::new();
    push_signed_padded(&mut s, min_ts, 20);
    s.push('-');
    push_signed_padded(&mut s, max_ts, 20);
    s.push('-');
    push_padded(&mut s, node as u64, 16, 8);
    s.push('-');
    push_padded(&mut s, seq, 10, 12);
    s.push('-');
    push_padded(&mut s, wal_hi, 10, 20);
    assert(s@ =~= (BlockName { min_ts, max_ts, node, seq, wal_hi }).text());
    s
}

/// Where the first four fields of a name end.
fn split_name(c: &[char]) -> (r: Option<(usize, usize, usize, usize)>)
    ensures
        r is Some <==> four_fields(c@) is Some,
        r matches Some((e1, e2, e3, e4)) ==> {
            &&& e1 < e2 < e3 < e4 <= c@.len()
            &&& four_fields(c@) == Some(
                (
                    c@.subrange(0, e1 as int),
                    c@.subrange(e1 + 1, e2 as int),
                    c@.subrange(e2 + 1, e3 as int),
                    c@.subrange(e3 + 1, e4 as int),
                    if e4 < c@.len() {
                        Some(c@.skip(e4 + 1))
                    } else {
                        None
                    },
                ),
            )
        },
{
    let ghost s = c@;
    assert(c@.skip(0) =~= s);
    let e1: usize = field_end(c, 0, '-');
    assert(field_of(s, '-') =~= c@.subrange(0, e1 as int));
    if e1 == c.len() {
        return None;
    }
    let ghost s2 = c@.skip(e1 + 1);
    let e2: usize = field_end(c, e1 + 1, '-');
    assert(field_of(s2, '-') =~= c@.subrange(e1 + 1, e2 as int));
    if e2 == c.len() {
        return None;
    }
    let ghost s3 = c@.skip(e2 + 1);
    assert(s2.skip(field_len(s2, '-') as int + 1) =~= s3);
    let e3: usize = field_end(c, e2 + 1, '-');
    assert(field_of(s3, '-') =~= c@.subrange(e2 + 1, e3 as int));
    if e3 == c.len() {
        return None;
    }
    let ghost s4 = c@.skip(e3 + 1);
    assert(s3.skip(field_len(s3, '-') as int + 1) =~= s4);
    let e4: usize = field_end(c, e3 + 1, '-');
    assert(field_of(s4, '-') =~= c@.subrange(e3 + 1, e4 as int));
    if e4 < c.len() {
        assert(s4.skip(field_len(s4, '-') as int + 1) =~= c@.skip(e4 + 1));
    }
    Some((e1, e2, e3, e4))
}

/// The fifth field, where there is one: a number and nothing after it.
fn read_watermark(c: &[char], e4: usize) -> (r: Option<u64>)
    requires
        e4 <= c@.len(),
    ensures
        e4 == c@.len() ==> r == Some(0u64),
        e4 < c@.len() ==> {
            let s5 = c@.skip(e4 + 1);
            if field_len(s5, '-') < s5.len() {
                r is None
            } else {
                &&& r is Some <==> parse_unsigned(s5, 10, u64::MAX as nat) is Some
                &&& r matches Some(h) ==> parse_unsigned(s5, 10, u64::MAX as nat) == Some(h as nat)
            }
        },
{
    if e4 == c.len() {
        return Some(0);
    }
    let e5: usize = field_end(c, e4 + 1, '-');
    if e5 != c.len() {
        return None;
    }
    assert(c@.skip(e4 + 1) =~= c@.subrange(e4 + 1, e5 as int));
    read_unsigned(c, e4 + 1, e5, 10, 0xffff_ffff_ffff_ffff)
}

/// Parses both the five-field name and the four-field name that predates the
/// write-ahead log. A missing `wal_hi` reads as `0`: no sequence is covered by
/// such a block, so replay must not skip anything on its account.
pub fn parse_dir_name(name: &str) -> (r: Option<BlockName>)
    ensures
        r == BlockName::read(name@),
{
    let v = chars_of(name);
    let c = v.as_slice();
    let (e1, e2, e3, e4) = match split_name(c) {
        Some(e) => e,
        None => {
            return None;
        },
    };
    let min = read_signed(c, 0, e1);
    let max = read_signed(c, e1 + 1, e2);
    let node = read_unsigned(c, e2 + 1, e3, 16, 0xffff_ffff);
    let seq = read_unsigned(c, e3 + 1, e4, 10, 0xffff_ffff_ffff_ffff);
    let hi = read_watermark(c, e4);
    match (min, max, node, seq, hi) {
        (Some(min_ts), Some(max_ts), Some(n), Some(seq), Some(wal_hi)) => Some(
            BlockName { min_ts, max_ts, node: n as u32, seq, wal_hi },
        ),
        _ => None,
    }
}

/// A padded number reads back as itself, and holds no separator.
pub proof fn lemma_padded_parses(n: nat, base: nat, width: nat, max: nat)
    requires
        base == 10 || base == 16,
        n <= max,
    ensures
        parse_unsigned(padded(n, base, width), base, max) == Some(n),
        forall|i: int| 0 <= i < padded(n, base, width).len() ==> padded(n, base, width)[i] != '-',
{
    lemma_padded_round_trip(n, base, width);
    lemma_digits_without(padded(n, base, width), base, '-');
    lemma_digits_without(padded(n, base, width), base, '+');
}

proof fn lemma_text_splits(f1: Seq<char>, f2: Seq<char>, f3: Seq<char>, f4: Seq<char>, f5: Seq<char>)
    requires
        forall|i: int| 0 <= i < f1.len() ==> f1[i] != '-',
        forall|i: int| 0 <= i < f2.len() ==> f2[i] != '-',
        forall|i: int| 0 <= i < f3.len() ==> f3[i] != '-',
        forall|i: int| 0 <= i < f4.len() ==> f4[i] != '-',
        forall|i: int| 0 <= i < f5.len() ==> f5[i] != '-',
    ensures
        four_fields(
            f1 + seq!['-'] + f2 + seq!['-'] + f3 + seq!['-'] + f4 + seq!['-'] + f5,
        ) == Some((f1, f2, f3, f4, Some(f5))),
        field_len(f5, '-') == f5.len(),
{
    let dash = seq!['-'];
    let r4 = dash + f5;
    let s4 = f4 + r4;
    let r3 = dash + s4;
    let s3 = f3 + r3;
    let r2 = dash + s3;
    let s2 = f2 + r2;
    let r1 = dash + s2;
    assert(f1 + dash + f2 + dash + f3 + dash + f4 + dash + f5 =~= f1 + r1);
    lemma_field_len_of(f1, r1, '-');
    lemma_field_len_of(f2, r2, '-');
    lemma_field_len_of(f3, r3, '-');
    lemma_field_len_of(f4, r4, '-');
    lemma_field_len_of(f5, Seq::empty(), '-');
    assert(f5 + Seq::<char>::empty() =~= f5);
    assert(r1.skip(1) =~= s2);
    assert(r2.skip(1) =~= s3);
    assert(r3.skip(1) =~= s4);
    assert(r4.skip(1) =~= f5);
}

proof fn lemma_time_parses(t: i64)
    requires
        t >= 0,
    ensures
        parse_signed(signed_padded(t as int, 20)) == Some(t as int),
        forall|i: int|
            0 <= i < signed_padded(t as int, 20).len() ==> signed_padded(t as int, 20)[i] != '-',
{
    lemma_padded_parses(t as nat, 10, 20, i64::MAX as nat);
    lemma_padded_round_trip(t as nat, 10, 20);
    assert(signed_padded(t as int, 20)[0] != '-');
}

/// A name whose times are not negative says what it was made to say. (A
/// negative time would write a leading `-`, which separates fields.)
pub proof fn law_name_round_trip(b: BlockName)
    requires
        b.min_ts >= 0,
        b.max_ts >= 0,
    ensures
        BlockName::read(b.text()) == Some(b),
{
    lemma_time_parses(b.min_ts);
    lemma_time_parses(b.max_ts);
    lemma_padded_parses(b.node as nat, 16, 8, u32::MAX as nat);
    lemma_padded_parses(b.seq as nat, 10, 12, u64::MAX as nat);
    lemma_padded_parses(b.wal_hi as nat, 10, 20, u64::MAX as nat);
    lemma_text_splits(
        signed_padded(b.min_ts as int, 20),
        signed_padded(b.max_ts as int, 20),
        padded(b.node as nat, 16, 8),
        padded(b.seq as nat, 10, 12),
        padded(b.wal_hi as nat, 10, 20),
    );
}

/// Two blocks that differ in anything their names carry have different names.
pub proof fn law_names_are_distinct(a: BlockName, b: BlockName)
    requires
        a.min_ts >= 0,
        a.max_ts >= 0,
        b.min_ts >= 0,
        b.max_ts >= 0,
        a != b,
    ensures
        a.text() != b.text(),
{
    law_name_round_trip(a);
    law_name_round_trip(b);
}

/// The name of a block that claims no progress in a log: the log that a name
/// refers to is the one on the volume the block was written on, and a block
/// that lands beside another log must not move that log's watermark.
pub open spec fn no_log_text(name: Seq<char>) -> Seq<char> {
    match BlockName::read(name) {
        Some(b) => if b.wal_hi > 0 {
            (BlockName { wal_hi: 0, ..b }).text()
        } else {
            name
        },
        None => name,
    }
}

/// The name of a block that claims no progress in a log.
pub fn name_covering_no_log(name: &str) -> (s: String)
    ensures
        s@ == no_log_text(name@),
{
    match parse_dir_name(name) {
        Some(b) => if b.wal_hi > 0 {
            dir_name(b.min_ts, b.max_ts, b.node, b.seq, 0)
        } else {
            name.to_owned()
        },
        None => name.to_owned(),
    }
}

proof fn lemma_field_has_no_separator(s: Seq<char>, sep: char)
    ensures
        field_len(s, sep) <= s.len(),
        forall|i: int| 0 <= i < field_len(s, sep) ==> s[i] != sep,
    decreases s.len(),
{
    if s.len() > 0 && s[0] != sep {
        let t = s.skip(1);
        lemma_field_has_no_separator(t, sep);
        assert forall|i: int| 0 <= i < field_len(s, sep) implies s[i] != sep by {
            if i > 0 {
                assert(s[i] == t[i - 1]);
            }
        }
    }
}

proof fn lemma_field_is_not_negative(s: Seq<char>)
    ensures
        parse_signed(field_of(s, '-')) matches Some(i) ==> i >= 0,
{
    lemma_field_has_no_separator(s, '-');
    let f = field_of(s, '-');
    if f.len() > 0 {
        assert(f[0] == s[0]);
    }
}

/// A block's name never says a negative time: the sign separates fields.
pub proof fn law_names_say_no_negative_times(name: Seq<char>)
    ensures
        BlockName::read(name) matches Some(b) ==> b.min_ts >= 0 && b.max_ts >= 0,
{
    if let Some(f) = four_fields(name) {
        let s2 = after_field(name, '-')->0;
        lemma_field_is_not_negative(name);
        lemma_field_is_not_negative(s2);
    }
}

/// A restored block claims no progress in the log it lands beside, and says
/// everything else it said before.
pub proof fn law_a_restored_block_claims_no_progress(name: Seq<char>)
    ensures
        BlockName::read(no_log_text(name)) == match BlockName::read(name) {
            Some(b) => Some(BlockName { wal_hi: 0, ..b }),
            None => None,
        },
{
    if let Some(b) = BlockName::read(name) {
        law_names_say_no_negative_times(name);
        law_name_round_trip(BlockName { wal_hi: 0, ..b });
    }
}

/// The hour a block is partitioned into, counted from the epoch.
pub open spec fn hour_of(min_ts: int) -> int {
    min_ts / NANOS_PER_HOUR as int
}

/// The partition directory of a block.
pub fn partition_name(min_ts: i64) -> (s: String)
    ensures
        s@ == "p="@ + signed(hour_of(min_ts as int)),
{
    let hour: i64 = if min_ts >= 0 {
        min_ts / NANOS_PER_HOUR
    } else {
        -((-(min_ts + 1)) / NANOS_PER_HOUR) - 1
    };
    assert(hour == hour_of(min_ts as int)) by (nonlinear_arith)
        requires
            hour == if min_ts >= 0 {
                min_ts as int / 3_600_000_000_000
            } else {
                -((-(min_ts + 1)) / 3_600_000_000_000) - 1
            },
            NANOS_PER_HOUR == 3_600_000_000_000,
    ;
    let mut s: String = "p=".to_owned();
    push_signed(&mut s, hour);
    s
}

/// What the staging directories of one replica and signal start with.
pub open spec fn staging_prefix_text(signal: Seq<char>, node: u32) -> Seq<char> {
    signal + seq!['-'] + padded(node as nat, 16, 8) + seq!['-']
}

/// What the staging directories of one replica and signal start with.
pub fn staging_prefix(signal: &str, node: u32) -> (s: String)
    ensures
        s@ == staging_prefix_text(signal@, node),
{
    let mut s: String = signal.to_owned();
    s.push('-');
    push_padded(&mut s, node as u64, 16, 8);
    s.push('-');
    assert(s@ =~= staging_prefix_text(signal@, node));
    s
}

/// The staging directory of a block that is being published. It carries the
/// time range besides the replica and the sequence, which makes it unique per
/// block content.
pub fn staging_name(signal: &str, node: u32, seq: u64, min_ts: i64, max_ts: i64) -> (s: String)
    ensures
        s@ == staging_prefix_text(signal@, node) + padded(seq as nat, 10, 12) + seq!['-']
            + signed_padded(min_ts as int, 20) + seq!['-'] + signed_padded(max_ts as int, 20),
{
    let mut s: String = staging_prefix(signal, node);
    push_padded(&mut s, seq, 10, 12);
    s.push('-');
    push_signed_padded(&mut s, min_ts, 20);
    s.push('-');
    push_signed_padded(&mut s, max_ts, 20);
    assert(s@ =~= staging_prefix_text(signal@, node) + padded(seq as nat, 10, 12) + seq!['-']
        + signed_padded(min_ts as int, 20) + seq!['-'] + signed_padded(max_ts as int, 20));
    s
}

/// Whether one text starts with another.
pub open spec fn begins(s: Seq<char>, prefix: Seq<char>) -> bool {
    prefix.len() <= s.len() && s.take(prefix.len() as int) == prefix
}

pub(crate) fn starts_with(s: &str, prefix: &str) -> (r: bool)
    ensures
        r == begins(s@, prefix@),
{
    let a = chars_of(s);
    let b = chars_of(prefix);
    if b.len() > a.len() {
        return false;
    }
    let mut i: usize = 0;
    while i < b.len()
        invariant
            a@ == s@,
            b@ == prefix@,
            i <= b@.len() <= a@.len(),
            forall|k: int| 0 <= k < i ==> a@[k] == b@[k],
        decreases b@.len() - i,
    {
        if a[i] != b[i] {
            assert(s@.take(prefix@.len() as int)[i as int] != prefix@[i as int]);
            return false;
        }
        i = i + 1;
    }
    assert(a@.take(b@.len() as int) =~= b@);
    true
}

/// Which of the names under the staging directory a replica may clear at boot:
/// its own for this signal, and no other's, because another replica on the same
/// volume may have a publish in flight.
pub fn sweep_staging(names: &Vec<String>, signal: &str, node: u32) -> (r: Vec<usize>)
    ensures
        forall|i: usize|
            r@.contains(i) <==> i < names@.len() && begins(
                #[trigger] names@[i as int]@,
                staging_prefix_text(signal@, node),
            ),
        forall|a: int, b: int| 0 <= a < b < r@.len() ==> r@[a] < r@[b],
{
    let prefix = staging_prefix(signal, node);
    let mut r: Vec<usize> = Vec::new();
    let mut i: usize = 0;
    while i < names.len()
        invariant
            i <= names@.len(),
            prefix@ == staging_prefix_text(signal@, node),
            forall|a: int| 0 <= a < r@.len() ==> (#[trigger] r@[a]) < i,
            forall|a: int, b: int| 0 <= a < b < r@.len() ==> r@[a] < r@[b],
            forall|k: usize|
                r@.contains(k) <==> k < i && begins(
                    #[trigger] names@[k as int]@,
                    staging_prefix_text(signal@, node),
                ),
        decreases names@.len() - i,
    {
        let own = starts_with(names[i].as_str(), prefix.as_str());
        let ghost was = r@;
        if own {
            r.push(i);
        }
        assert forall|k: usize|
            r@.contains(k) <==> k < i + 1 && begins(
                #[trigger] names@[k as int]@,
                staging_prefix_text(signal@, node),
            ) by {
            if own {
                if was.contains(k) {
                    let a = was.index_of(k);
                    assert(r@[a] == k);
                }
                if k == i {
                    assert(r@[was.len() as int] == k);
                }
                if r@.contains(k) && k != i {
                    let a = r@.index_of(k);
                    assert(was[a] == k);
                }
            }
        }
        i = i + 1;
    }
    r
}

/// A block that is being staged is one its own replica may clear.
pub proof fn law_own_staging_is_swept(signal: Seq<char>, node: u32, rest: Seq<char>)
    ensures
        begins(staging_prefix_text(signal, node) + rest, staging_prefix_text(signal, node)),
{
    let p = staging_prefix_text(signal, node);
    assert((p + rest).take(p.len() as int) =~= p);
}

// ---------------------------------------------------------------------------
// The catalog.

impl Ranked for BlockRef {
    /// By the oldest row, then by sequence.
    open spec fn ahead(self, other: BlockRef) -> bool {
        self.min_ts < other.min_ts || (self.min_ts == other.min_ts && self.seq < other.seq)
    }

    proof fn lemma_order(a: BlockRef, b: BlockRef, c: BlockRef) {
    }

    fn is_ahead(&self, other: &BlockRef) -> (r: bool) {
        self.min_ts < other.min_ts || (self.min_ts == other.min_ts && self.seq < other.seq)
    }
}

/// A directory found where blocks are kept: its path and its name.
pub struct Listed {
    pub dir: String,
    pub name: String,
}

/// What a directory is as a block, if its name says it is one.
pub open spec fn listed_as(l: Listed, b: BlockRef) -> bool {
    BlockName::read(l.name@) matches Some(n) && b.dir@ == l.dir@ && b.min_ts == n.min_ts && b.max_ts
        == n.max_ts && b.node == n.node && b.seq == n.seq && b.wal_hi == n.wal_hi
}

/// The blocks that the first `n` directories are, in the order they were
/// found.
pub open spec fn catalogued(found: Seq<Listed>, n: nat, blocks: Seq<BlockRef>) -> bool
    decreases n,
{
    if n == 0 {
        blocks.len() == 0
    } else if BlockName::read(found[n - 1].name@) is Some {
        blocks.len() > 0 && listed_as(found[n - 1], blocks.last()) && catalogued(
            found,
            (n - 1) as nat,
            blocks.drop_last(),
        )
    } else {
        catalogued(found, (n - 1) as nat, blocks)
    }
}

/// Rebuild the catalog from a listing: every directory whose name is a block's,
/// oldest first.
pub fn scan(found: &Vec<Listed>) -> (r: Vec<BlockRef>)
    ensures
        exists|blocks: Seq<BlockRef>|
            catalogued(found@, found@.len(), blocks) && r@ == #[trigger] ranked(blocks),
{
    let mut out: Vec<BlockRef> = Vec::new();
    let mut i: usize = 0;
    while i < found.len()
        invariant
            i <= found@.len(),
            catalogued(found@, i as nat, out@),
        decreases found@.len() - i,
    {
        if let Some(n) = parse_dir_name(found[i].name.as_str()) {
            let ghost was = out@;
            out.push(
                BlockRef {
                    dir: found[i].dir.clone(),
                    min_ts: n.min_ts,
                    max_ts: n.max_ts,
                    node: n.node,
                    seq: n.seq,
                    wal_hi: n.wal_hi,
                },
            );
            assert(out@.drop_last() =~= was);
        }
        i = i + 1;
    }
    sort_ranked(out)
}

/// The highest sequence absorbed by the first `n` blocks of a node, or of every
/// node; `0` where there is none.
pub open spec fn watermark_upto(blocks: Seq<BlockRef>, node: Option<u32>, n: nat) -> u64
    decreases n,
{
    if n == 0 {
        0
    } else {
        let before = watermark_upto(blocks, node, (n - 1) as nat);
        let b = blocks[n - 1];
        if (node is None || node == Some(b.node)) && b.wal_hi > before {
            b.wal_hi
        } else {
            before
        }
    }
}

fn watermark(blocks: &Vec<BlockRef>, node: Option<u32>) -> (r: u64)
    ensures
        r == watermark_upto(blocks@, node, blocks@.len()),
{
    let mut r: u64 = 0;
    let mut i: usize = 0;
    while i < blocks.len()
        invariant
            i <= blocks@.len(),
            r == watermark_upto(blocks@, node, i as nat),
        decreases blocks@.len() - i,
    {
        let own = match node {
            None => true,
            Some(n) => n == blocks[i].node,
        };
        if own && blocks[i].wal_hi > r {
            r = blocks[i].wal_hi;
        }
        i = i + 1;
    }
    r
}

/// How far the write-ahead log has been absorbed into published blocks: for
/// logs, traces and metrics in that order, the highest the blocks' names carry.
/// The highest and not the last: a block covering an older hour can be
/// published after a newer one.
pub fn wal_watermarks(
    logs: &Vec<BlockRef>,
    traces: &Vec<BlockRef>,
    metrics: &Vec<BlockRef>,
    node: Option<u32>,
) -> (r: [u64; 3])
    ensures
        r@ == seq![
            watermark_upto(logs@, node, logs@.len()),
            watermark_upto(traces@, node, traces@.len()),
            watermark_upto(metrics@, node, metrics@.len()),
        ],
{
    let r = [watermark(logs, node), watermark(traces, node), watermark(metrics, node)];
    assert(r@ =~= seq![
        watermark_upto(logs@, node, logs@.len()),
        watermark_upto(traces@, node, traces@.len()),
        watermark_upto(metrics@, node, metrics@.len()),
    ]);
    r
}

/// A watermark is never below what a block of the node carries, and is carried
/// by one unless it is zero, whatever order the blocks come in.
pub proof fn law_watermark_is_the_highest(blocks: Seq<BlockRef>, node: Option<u32>)
    ensures
        forall|i: int|
            0 <= i < blocks.len() && (node is None || node == Some((#[trigger] blocks[i]).node))
                ==> blocks[i].wal_hi <= watermark_upto(blocks, node, blocks.len()),
        watermark_upto(blocks, node, blocks.len()) > 0 ==> exists|i: int|
            0 <= i < blocks.len() && (node is None || node == Some((#[trigger] blocks[i]).node))
                && blocks[i].wal_hi == watermark_upto(blocks, node, blocks.len()),
{
    lemma_watermark(blocks, node, blocks.len());
}

proof fn lemma_watermark(blocks: Seq<BlockRef>, node: Option<u32>, n: nat)
    requires
        n <= blocks.len(),
    ensures
        forall|i: int|
            0 <= i < n && (node is None || node == Some((#[trigger] blocks[i]).node))
                ==> blocks[i].wal_hi <= watermark_upto(blocks, node, n),
        watermark_upto(blocks, node, n) > 0 ==> exists|i: int|
            0 <= i < n && (node is None || node == Some((#[trigger] blocks[i]).node))
                && blocks[i].wal_hi == watermark_upto(blocks, node, n),
    decreases n,
{
    if n > 0 {
        lemma_watermark(blocks, node, (n - 1) as nat);
        let b = blocks[n - 1];
    }
}

} // verus!
