//! A block-level "might contain this id" filter.
//!
//! Block names prune by time, which answers every question except "every span
//! of this trace": that one has no time bound worth having. A sidecar per
//! block, read before any of its tables, turns it into one block opened.
//!
//! The two 64-bit halves of an id are the two hashes that double hashing wants,
//! each put through a finalizer first, because trace ids are often structured
//! rather than random and a bit index reads only low bits.
//!
//! Everything here fails open. A short, corrupt or unrecognized file means
//! "scan the block", never "skip it": a false positive costs one wasted read, a
//! false negative silently loses spans from a trace.

use crate::checksum::{crc32, crc32_of};
use crate::identity::{mix, mixed};
use crate::order::same_bytes;
use crate::table::{Column, Data};
use vstd::bytes::*;
use vstd::prelude::*;

verus! {

/// Filename inside a published block. Part of the on-disk format.
pub const TRACE_IDX: &'static str = "trace.idx";

/// The version of the file's layout.
pub const VERSION: u8 = 1;

/// magic 4 | version 1 | k 1 | pad 2 | words 4 | crc32 4
pub const HEADER: usize = 16;

/// Bits per inserted key.
pub const BITS_PER_KEY: u64 = 10;

/// Bits set per key.
pub const K: u8 = 7;

// ---------------------------------------------------------------------------
// Bits.

/// What a file starts with: `MBLM`.
pub open spec fn magic() -> Seq<u8> {
    seq![0x4du8, 0x42, 0x4c, 0x4d]
}

/// The two hashes of an id.
pub open spec fn id_halves(id: Seq<u8>) -> (u64, u64) {
    (
        mixed(spec_u64_from_le_bytes(id.subrange(0, 8))),
        mixed(spec_u64_from_le_bytes(id.subrange(8, 16))) | 1,
    )
}

/// The mask that cuts a hash to a bit number, for a filter of so many words.
pub open spec fn bit_mask(words: nat) -> u64 {
    (words * 64 - 1) as u64
}

/// The bit that the `i`-th probe of an id looks at.
pub open spec fn probe(h: (u64, u64), i: nat, mask: u64) -> u64 {
    h.0.wrapping_add((i as u64).wrapping_mul(h.1)) & mask
}

/// Whether one bit of a word is set.
pub open spec fn bit_of(word: u64, b: u64) -> bool {
    word & (1u64 << b) != 0
}

/// Whether one bit of a filter is set.
pub open spec fn bit_at(words: Seq<u64>, bit: u64) -> bool {
    bit_of(words[bit as int / 64], bit % 64)
}

/// A filter with one more bit set.
pub open spec fn with_bit(words: Seq<u64>, bit: u64) -> Seq<u64> {
    words.update(bit as int / 64, words[bit as int / 64] | (1u64 << (bit % 64)))
}

/// A filter with the first `n` bits of an id set.
pub open spec fn with_id(words: Seq<u64>, mask: u64, h: (u64, u64), n: nat) -> Seq<u64>
    decreases n,
{
    if n == 0 {
        words
    } else {
        with_bit(with_id(words, mask, h, (n - 1) as nat), probe(h, (n - 1) as nat, mask))
    }
}

/// A filter with the bits of several ids set.
pub open spec fn with_ids(words: Seq<u64>, mask: u64, ids: Seq<Seq<u8>>) -> Seq<u64>
    decreases ids.len(),
{
    if ids.len() == 0 {
        words
    } else {
        with_id(
            with_ids(words, mask, ids.drop_last()),
            mask,
            id_halves(ids.last()),
            K as nat,
        )
    }
}

/// Exactly one bit set.
pub open spec fn is_power_of_two(w: u32) -> bool {
    w != 0 && w & ((w - 1) as u32) == 0
}

/// The first of `p`, `2p`, `4p` and so on that is at least `need`.
pub open spec fn power_from(p: nat, need: nat) -> nat
    decreases
        if p < need {
            need - p
        } else {
            0
        },
{
    if p == 0 || p >= need {
        p
    } else {
        power_from(2 * p, need)
    }
}

/// How many words a filter over `n` keys has: room for the bits of every key,
/// rounded up to a power of two.
pub open spec fn words_for(n: nat) -> nat {
    power_from(1, (n * BITS_PER_KEY as nat + 63) / 64)
}

/// Words as bytes, each of them little-endian.
pub open spec fn word_bytes(words: Seq<u64>) -> Seq<u8>
    decreases words.len(),
{
    if words.len() == 0 {
        Seq::empty()
    } else {
        word_bytes(words.drop_last()) + spec_u64_to_le_bytes(words.last())
    }
}

/// The file that holds a filter.
pub open spec fn file_of(words: Seq<u64>) -> Seq<u8> {
    let body = word_bytes(words);
    magic() + seq![VERSION, K, 0u8, 0u8] + spec_u32_to_le_bytes(words.len() as u32)
        + spec_u32_to_le_bytes(crc32(body)) + body
}

// ---------------------------------------------------------------------------
// Building.

/// The values among the first `n` slots that are there, with adjacent
/// duplicates dropped.
pub open spec fn runs_upto(c: Column, vals: Seq<Vec<u8>>, n: nat) -> Seq<Seq<u8>>
    decreases n,
{
    if n == 0 {
        Seq::empty()
    } else {
        let before = runs_upto(c, vals, (n - 1) as nat);
        if !c.holds(n - 1) || (before.len() > 0 && before.last() == vals[n - 1]@) {
            before
        } else {
            before.push(vals[n - 1]@)
        }
    }
}

/// The keys of a column of sixteen-byte values: what is there, with adjacent
/// duplicates dropped. A column of anything else has none.
pub open spec fn keys_of(c: Column) -> Seq<Seq<u8>> {
    match c.data {
        Data::Fixed(v) => if forall|i: int| 0 <= i < v@.len() ==> (#[trigger] v@[i])@.len() == 16 {
            runs_upto(c, v@, v@.len())
        } else {
            Seq::empty()
        },
        _ => Seq::empty(),
    }
}

/// The filter over some keys.
pub open spec fn filter_of(keys: Seq<Seq<u8>>) -> Seq<u64> {
    let n = words_for(keys.len());
    with_ids(Seq::new(n, |i: int| 0u64), bit_mask(n), keys)
}

pub proof fn lemma_probe_bound(h: (u64, u64), i: nat, words: nat)
    requires
        0 < words <= u32::MAX,
    ensures
        probe(h, i, bit_mask(words)) < words * 64,
        probe(h, i, bit_mask(words)) / 64 < words,
{
    let x = h.0.wrapping_add((i as u64).wrapping_mul(h.1));
    let m = bit_mask(words);
    assert(x & m <= m) by (bit_vector);
}

fn halves(id: &[u8]) -> (h: (u64, u64))
    requires
        id@.len() == 16,
    ensures
        h == id_halves(id@),
{
    let first = vstd::slice::slice_subrange(id, 0, 8);
    let second = vstd::slice::slice_subrange(id, 8, 16);
    (mix(u64_from_le_bytes(first)), mix(u64_from_le_bytes(second)) | 1)
}

fn set(bits: &mut Vec<u64>, mask: u64, h1: u64, h2: u64)
    requires
        0 < old(bits)@.len() <= u32::MAX,
        mask == bit_mask(old(bits)@.len()),
    ensures
        final(bits)@ == with_id(old(bits)@, mask, (h1, h2), K as nat),
        final(bits)@.len() == old(bits)@.len(),
{
    let mut i: u8 = 0;
    let ghost words = bits@.len();
    while i < K
        invariant
            i <= K,
            0 < words <= u32::MAX,
            bits@.len() == words,
            mask == bit_mask(words),
            words == old(bits)@.len(),
            bits@ == with_id(old(bits)@, mask, (h1, h2), i as nat),
        decreases K - i,
    {
        let bit: u64 = h1.wrapping_add((i as u64).wrapping_mul(h2)) & mask;
        proof {
            lemma_probe_bound((h1, h2), i as nat, words);
        }
        let at: usize = (bit / 64) as usize;
        let word: u64 = bits[at] | (1u64 << (bit % 64));
        bits.set(at, word);
        i = i + 1;
    }
}

/// Non-null values, with adjacent duplicates dropped.
fn runs<'a>(c: &Column, vals: &'a Vec<Vec<u8>>) -> (r: Vec<&'a Vec<u8>>)
    requires
        c.wf(),
        c.data == Data::Fixed(*vals),
    ensures
        r@.len() <= vals@.len(),
        r@.map_values(|v: &Vec<u8>| v@) == runs_upto(*c, vals@, vals@.len()),
        forall|k: int| 0 <= k < r@.len() ==> vals@.contains(*#[trigger] r@[k]),
{
    let mut out: Vec<&'a Vec<u8>> = Vec::new();
    let mut i: usize = 0;
    assert(out@.map_values(|v: &Vec<u8>| v@) =~= Seq::<Seq<u8>>::empty());
    while i < vals.len()
        invariant
            i <= vals@.len(),
            c.wf(),
            c.data == Data::Fixed(*vals),
            out@.len() <= i,
            out@.map_values(|v: &Vec<u8>| v@) == runs_upto(*c, vals@, i as nat),
            forall|k: int| 0 <= k < out@.len() ==> vals@.contains(*#[trigger] out@[k]),
        decreases vals@.len() - i,
    {
        let ghost before = runs_upto(*c, vals@, i as nat);
        let ghost was = out@;
        let held = c.is_valid(i);
        let repeat = out.len() > 0 && same_bytes(
            out[out.len() - 1].as_slice(),
            vals[i].as_slice(),
        );
        if held && !repeat {
            out.push(&vals[i]);
            assert(vals@.contains(vals@[i as int]));
            assert(out@.map_values(|v: &Vec<u8>| v@) =~= before.push(vals@[i as int]@));
        }
        proof {
            assert(before.len() == was.len());
            if was.len() > 0 {
                assert(before.last() == was.last()@);
            }
        }
        i = i + 1;
    }
    out
}

proof fn lemma_double_power(p: u32)
    requires
        is_power_of_two(p),
        p <= 0x4000_0000,
    ensures
        is_power_of_two((2 * p) as u32),
{
    let q = (2 * p) as u32;
    let p1 = (p - 1) as u32;
    let q1 = (q - 1) as u32;
    assert(q & q1 == 0) by (bit_vector)
        requires
            p & p1 == 0,
            p != 0,
            p <= 0x4000_0000,
            q == 2 * p,
            p1 == p - 1,
            q1 == q - 1,
    ;
}

/// How many words a filter over `n` keys has.
fn count_words(n: u64) -> (w: u32)
    requires
        n <= u32::MAX,
    ensures
        w == words_for(n as nat),
        is_power_of_two(w),
{
    let need: u64 = (n * BITS_PER_KEY + 63) / 64;
    let mut p: u32 = 1;
    assert(is_power_of_two(1)) by {
        assert(1u32 & 0u32 == 0) by (bit_vector);
    }
    while (p as u64) < need
        invariant
            need <= 0x4000_0000,
            is_power_of_two(p),
            power_from(p as nat, need as nat) == power_from(1, need as nat),
        decreases
                if p < need {
                    need - p
                } else {
                    0
                },
    {
        proof {
            lemma_double_power(p);
        }
        p = 2 * p;
    }
    p
}

fn push_all(out: &mut Vec<u8>, b: &[u8])
    ensures
        final(out)@ == old(out)@ + b@,
{
    let mut i: usize = 0;
    assert(out@ + b@.take(0) =~= out@);
    while i < b.len()
        invariant
            i <= b@.len(),
            out@ == old(out)@ + b@.take(i as int),
        decreases b@.len() - i,
    {
        out.push(b[i]);
        assert(old(out)@ + b@.take(i + 1) =~= (old(out)@ + b@.take(i as int)).push(b@[i as int]));
        i = i + 1;
    }
    assert(b@.take(i as int) =~= b@);
}

pub fn bytes_of_words(words: &Vec<u64>) -> (out: Vec<u8>)
    ensures
        out@ == word_bytes(words@),
{
    let mut out: Vec<u8> = Vec::new();
    let mut i: usize = 0;
    assert(words@.take(0) =~= Seq::<u64>::empty());
    while i < words.len()
        invariant
            i <= words@.len(),
            out@ == word_bytes(words@.take(i as int)),
        decreases words@.len() - i,
    {
        assert(words@.take(i + 1).drop_last() =~= words@.take(i as int));
        let b = u64_to_le_bytes(words[i]);
        push_all(&mut out, b.as_slice());
        i = i + 1;
    }
    assert(words@.take(i as int) =~= words@);
    out
}

/// Build a filter over a column of sixteen-byte values. `None` when there is
/// nothing to index, in which case no file is written and a reader scans the
/// block.
///
/// The column holds one row per span, and a trace is several of them. Runs of
/// the same id collapse, so that the filter is sized for the traces.
pub fn build(ids: &Column) -> (r: Option<Vec<u8>>)
    requires
        ids.wf(),
        ids.spec_len() <= u32::MAX,
    ensures
        r is None <==> keys_of(*ids).len() == 0,
        r matches Some(f) ==> f@ == file_of(filter_of(keys_of(*ids))),
{
    let vals = match &ids.data {
        Data::Fixed(v) => v,
        _ => {
            return None;
        },
    };
    let mut i: usize = 0;
    while i < vals.len()
        invariant
            i <= vals@.len(),
            ids.data == Data::Fixed(*vals),
            forall|k: int| 0 <= k < i ==> (#[trigger] vals@[k])@.len() == 16,
        decreases vals@.len() - i,
    {
        if vals[i].len() != 16 {
            assert(vals@[i as int]@.len() != 16);
            return None;
        }
        i = i + 1;
    }
    let keys = runs(ids, vals);
    let ghost ks = keys@.map_values(|v: &Vec<u8>| v@);
    assert(ks.len() == keys@.len());
    if keys.len() == 0 {
        return None;
    }
    let words: u32 = count_words(keys.len() as u64);
    let mut bits: Vec<u64> = Vec::new();
    let mut w: u32 = 0;
    while w < words
        invariant
            w <= words,
            bits@ == Seq::new(w as nat, |i: int| 0u64),
        decreases words - w,
    {
        bits.push(0);
        assert(bits@ =~= Seq::new((w + 1) as nat, |i: int| 0u64));
        w = w + 1;
    }
    // A power-of-two word count makes the modulo an `and`.
    let mask: u64 = words as u64 * 64 - 1;
    let ghost blank = bits@;
    let mut k: usize = 0;
    assert(ks.take(0) =~= Seq::<Seq<u8>>::empty());
    while k < keys.len()
        invariant
            k <= keys@.len(),
            0 < words,
            bits@.len() == words,
            mask == bit_mask(words as nat),
            ks == keys@.map_values(|v: &Vec<u8>| v@),
            ks.len() == keys@.len(),
            forall|i: int| 0 <= i < vals@.len() ==> (#[trigger] vals@[i])@.len() == 16,
            forall|k: int| 0 <= k < keys@.len() ==> vals@.contains(*#[trigger] keys@[k]),
            bits@ == with_ids(blank, mask, ks.take(k as int)),
        decreases keys@.len() - k,
    {
        proof {
            assert(ks.take(k + 1).drop_last() =~= ks.take(k as int));
            assert(vals@.contains(*keys@[k as int]));
        }
        let (h1, h2) = halves(keys[k].as_slice());
        set(&mut bits, mask, h1, h2);
        k = k + 1;
    }
    assert(ks.take(k as int) =~= ks);
    let mut out: Vec<u8> = Vec::new();
    out.push(0x4d);
    out.push(0x42);
    out.push(0x4c);
    out.push(0x4d);
    out.push(VERSION);
    out.push(K);
    out.push(0);
    out.push(0);
    push_all(&mut out, u32_to_le_bytes(words).as_slice());
    let body = bytes_of_words(&bits);
    push_all(&mut out, u32_to_le_bytes(crc32_of(body.as_slice())).as_slice());
    push_all(&mut out, body.as_slice());
    assert(out@ =~= file_of(bits@));
    Some(out)
}

// ---------------------------------------------------------------------------
// Asking.

/// The word count a file declares.
pub open spec fn words_in(file: Seq<u8>) -> u32 {
    spec_u32_from_le_bytes(file.subrange(8, 12))
}

/// The bits of a file.
pub open spec fn body_of(file: Seq<u8>) -> Seq<u8> {
    file.skip(HEADER as int)
}

/// Whether a file is a filter that can be believed.
pub open spec fn readable(file: Seq<u8>) -> bool {
    &&& file.len() >= HEADER
    &&& file.subrange(0, 4) == magic()
    &&& file[4] == VERSION
    &&& file[5] != 0
    &&& is_power_of_two(words_in(file))
    &&& body_of(file).len() == words_in(file) * 8
    &&& crc32(body_of(file)) == spec_u32_from_le_bytes(file.subrange(12, 16))
}

/// One word of a filter's bits.
pub open spec fn word_in(body: Seq<u8>, i: int) -> u64 {
    spec_u64_from_le_bytes(body.subrange(8 * i, 8 * i + 8))
}

/// Whether the first `n` bits of an id are set in a file.
pub open spec fn has_bits(file: Seq<u8>, id: Seq<u8>, n: nat) -> bool {
    forall|i: int|
        0 <= i < n ==> {
            let bit = #[trigger] probe(id_halves(id), i as nat, bit_mask(words_in(file) as nat));
            bit_of(word_in(body_of(file), bit as int / 64), bit % 64)
        }
}

/// Whether a file lets a block that holds the id be skipped: only if it can be
/// believed and one of the id's bits is not set.
pub open spec fn maybe(file: Seq<u8>, id: Seq<u8>) -> bool {
    readable(file) ==> has_bits(file, id, file[5] as nat)
}

fn starts_with_magic(file: &[u8]) -> (r: bool)
    requires
        file@.len() >= HEADER,
    ensures
        r == (file@.subrange(0, 4) == magic()),
{
    let r = file[0] == 0x4d && file[1] == 0x42 && file[2] == 0x4c && file[3] == 0x4d;
    proof {
        if r {
            assert(file@.subrange(0, 4) =~= magic());
        } else {
            assert(file@.subrange(0, 4)[0] == file@[0]);
            assert(file@.subrange(0, 4)[1] == file@[1]);
            assert(file@.subrange(0, 4)[2] == file@[2]);
            assert(file@.subrange(0, 4)[3] == file@[3]);
        }
    }
    r
}

fn bit_is_set(body: &[u8], bit: u64) -> (r: bool)
    requires
        bit as int / 64 * 8 + 8 <= body@.len(),
    ensures
        r == bit_of(word_in(body@, bit as int / 64), bit % 64),
{
    let n: usize = body.len();
    assert(bit as int / 64 < n);
    let at: usize = (bit / 64) as usize * 8;
    let word: u64 = u64_from_le_bytes(vstd::slice::slice_subrange(body, at, at + 8));
    word & (1u64 << (bit % 64)) != 0
}

/// Could this block contain `id`? Anything unreadable answers yes.
pub fn may_contain(file: &[u8], id: &[u8; 16]) -> (r: bool)
    ensures
        r == maybe(file@, id@),
{
    if file.len() < HEADER || !starts_with_magic(file) || file[4] != VERSION {
        return true;
    }
    let k: u8 = file[5];
    let words: u32 = u32_from_le_bytes(vstd::slice::slice_subrange(file, 8, 12));
    let crc: u32 = u32_from_le_bytes(vstd::slice::slice_subrange(file, 12, 16));
    let body = vstd::slice::slice_subrange(file, HEADER, file.len());
    assert(body@ =~= body_of(file@));
    if k == 0 || words == 0 || words & (words - 1) != 0 || body.len() as u64 != words as u64 * 8 {
        return true;
    }
    if crc32_of(body) != crc {
        return true;
    }
    let mask: u64 = words as u64 * 64 - 1;
    let (h1, h2) = halves(vstd::array::array_as_slice(id));
    let mut i: u8 = 0;
    while i < k
        invariant
            i <= k,
            k == file@[5],
            0 < words,
            readable(file@),
            words == words_in(file@),
            body@ == body_of(file@),
            body@.len() == words * 8,
            mask == bit_mask(words as nat),
            (h1, h2) == id_halves(id@),
            has_bits(file@, id@, i as nat),
        decreases k - i,
    {
        let bit: u64 = h1.wrapping_add((i as u64).wrapping_mul(h2)) & mask;
        proof {
            lemma_probe_bound((h1, h2), i as nat, words as nat);
            assert(bit == probe(id_halves(id@), i as nat, mask));
        }
        if !bit_is_set(body, bit) {
            proof {
                let n = i as int;
                assert(bit == probe(id_halves(id@), n as nat, bit_mask(words_in(file@) as nat)));
                assert(!has_bits(file@, id@, k as nat));
            }
            return false;
        }
        i = i + 1;
    }
    true
}

// ---------------------------------------------------------------------------
// What is never lost.

proof fn lemma_with_bit(words: Seq<u64>, bit: u64, b: u64)
    requires
        bit as int / 64 < words.len(),
        b as int / 64 < words.len(),
    ensures
        with_bit(words, bit).len() == words.len(),
        bit_at(with_bit(words, bit), bit),
        bit_at(words, b) ==> bit_at(with_bit(words, bit), b),
{
    let w = words[bit as int / 64];
    let x = bit % 64;
    let y = b % 64;
    assert((w | (1u64 << x)) & (1u64 << x) != 0) by (bit_vector)
        requires
            x < 64,
    ;
    if bit_at(words, b) && b as int / 64 == bit as int / 64 {
        assert((w | (1u64 << x)) & (1u64 << y) != 0) by (bit_vector)
            requires
                w & (1u64 << y) != 0,
        ;
    }
}

pub proof fn lemma_with_id(words: Seq<u64>, h: (u64, u64), n: nat, b: u64)
    requires
        0 < words.len() <= u32::MAX,
        b as int / 64 < words.len(),
    ensures
        with_id(words, bit_mask(words.len()), h, n).len() == words.len(),
        bit_at(words, b) ==> bit_at(with_id(words, bit_mask(words.len()), h, n), b),
        forall|i: int|
            0 <= i < n ==> bit_at(
                with_id(words, bit_mask(words.len()), h, n),
                #[trigger] probe(h, i as nat, bit_mask(words.len())),
            ),
    decreases n,
{
    let mask = bit_mask(words.len());
    if n > 0 {
        let before = with_id(words, mask, h, (n - 1) as nat);
        let bit = probe(h, (n - 1) as nat, mask);
        lemma_probe_bound(h, (n - 1) as nat, words.len());
        lemma_with_id(words, h, (n - 1) as nat, b);
        lemma_with_bit(before, bit, b);
        assert forall|i: int| 0 <= i < n implies bit_at(
            with_id(words, mask, h, n),
            #[trigger] probe(h, i as nat, mask),
        ) by {
            lemma_probe_bound(h, i as nat, words.len());
            lemma_with_bit(before, bit, probe(h, i as nat, mask));
        }
    }
}

pub proof fn lemma_with_ids(words: Seq<u64>, ids: Seq<Seq<u8>>, j: int)
    requires
        0 < words.len() <= u32::MAX,
    ensures
        with_ids(words, bit_mask(words.len()), ids).len() == words.len(),
        0 <= j < ids.len() ==> forall|i: int|
            0 <= i < K ==> bit_at(
                with_ids(words, bit_mask(words.len()), ids),
                #[trigger] probe(id_halves(ids[j]), i as nat, bit_mask(words.len())),
            ),
    decreases ids.len(),
{
    let mask = bit_mask(words.len());
    if ids.len() > 0 {
        let before = with_ids(words, mask, ids.drop_last());
        let h = id_halves(ids.last());
        lemma_with_ids(words, ids.drop_last(), j);
        lemma_with_id(before, h, K as nat, 0);
        if 0 <= j < ids.len() {
            assert forall|i: int| 0 <= i < K implies bit_at(
                with_ids(words, mask, ids),
                #[trigger] probe(id_halves(ids[j]), i as nat, mask),
            ) by {
                let b = probe(id_halves(ids[j]), i as nat, mask);
                lemma_probe_bound(id_halves(ids[j]), i as nat, words.len());
                lemma_with_id(before, h, K as nat, b);
                if j < ids.len() - 1 {
                    assert(ids.drop_last()[j] == ids[j]);
                }
            }
        }
    }
}

pub proof fn lemma_word_bytes(words: Seq<u64>, i: int)
    ensures
        word_bytes(words).len() == 8 * words.len(),
        0 <= i < words.len() ==> word_in(word_bytes(words), i) == words[i],
    decreases words.len(),
{
    lemma_auto_spec_u64_to_from_le_bytes();
    if words.len() > 0 {
        let before = word_bytes(words.drop_last());
        let all = word_bytes(words);
        lemma_word_bytes(words.drop_last(), i);
        assert(spec_u64_to_le_bytes(words.last()).len() == 8);
        if 0 <= i < words.len() - 1 {
            assert(all.subrange(8 * i, 8 * i + 8) =~= before.subrange(8 * i, 8 * i + 8));
        } else if i == words.len() - 1 {
            assert(all.subrange(8 * i, 8 * i + 8) =~= spec_u64_to_le_bytes(words.last()));
        }
    }
}

pub proof fn lemma_file(words: Seq<u64>)
    requires
        0 < words.len() <= u32::MAX,
        is_power_of_two(words.len() as u32),
    ensures
        readable(file_of(words)),
        words_in(file_of(words)) == words.len(),
        body_of(file_of(words)) == word_bytes(words),
        file_of(words)[5] == K,
{
    lemma_auto_spec_u32_to_from_le_bytes();
    lemma_word_bytes(words, 0);
    let body = word_bytes(words);
    let f = file_of(words);
    let n = spec_u32_to_le_bytes(words.len() as u32);
    let c = spec_u32_to_le_bytes(crc32(body));
    assert(n.len() == 4 && c.len() == 4);
    assert(f.subrange(0, 4) =~= magic());
    assert(f.subrange(8, 12) =~= n);
    assert(f.subrange(12, 16) =~= c);
    assert(f.skip(16) =~= body);
}

pub proof fn lemma_power_from(p: u32, need: nat)
    requires
        is_power_of_two(p),
        need <= 0x4000_0000,
    ensures
        0 < power_from(p as nat, need) <= u32::MAX,
        is_power_of_two(power_from(p as nat, need) as u32),
    decreases
        if p < need {
            need - p
        } else {
            0
        },
{
    if p < need {
        lemma_double_power(p);
        lemma_power_from((2 * p) as u32, need);
    }
}

proof fn lemma_runs(c: Column, vals: Seq<Vec<u8>>, n: nat, i: int)
    requires
        n <= vals.len(),
    ensures
        runs_upto(c, vals, n).len() <= n,
        0 <= i < n && c.holds(i) ==> runs_upto(c, vals, n).contains(vals[i]@),
    decreases n,
{
    if n > 0 {
        let before = runs_upto(c, vals, (n - 1) as nat);
        let now = runs_upto(c, vals, n);
        lemma_runs(c, vals, (n - 1) as nat, i);
        if 0 <= i < n && c.holds(i) {
            if i < n - 1 {
                let k = before.index_of(vals[i]@);
                assert(now[k] == vals[i]@);
            } else {
                assert(now[now.len() - 1] == vals[i]@);
            }
        }
    }
}

/// A filter says "maybe" to everything it was built over: a false negative
/// would be a lost trace.
pub proof fn law_no_false_negatives(c: Column, vals: Seq<Vec<u8>>, i: int)
    requires
        c.data matches Data::Fixed(v) && v@ == vals,
        vals.len() <= u32::MAX,
        forall|k: int| 0 <= k < vals.len() ==> (#[trigger] vals[k])@.len() == 16,
        0 <= i < vals.len(),
        c.holds(i),
    ensures
        keys_of(c).len() > 0,
        maybe(file_of(filter_of(keys_of(c))), vals[i]@),
{
    let keys = keys_of(c);
    let id = vals[i]@;
    lemma_runs(c, vals, vals.len(), i);
    let j = keys.index_of(id);
    let need = (keys.len() * BITS_PER_KEY as nat + 63) / 64;
    assert(is_power_of_two(1)) by {
        assert(1u32 & 0u32 == 0) by (bit_vector);
    }
    lemma_power_from(1, need);
    let n = words_for(keys.len());
    let blank = Seq::new(n, |i: int| 0u64);
    let words = filter_of(keys);
    let mask = bit_mask(n);
    lemma_with_ids(blank, keys, j);
    lemma_file(words);
    let f = file_of(words);
    assert forall|k: int| 0 <= k < K implies ({
        let bit = #[trigger] probe(id_halves(id), k as nat, bit_mask(words_in(f) as nat));
        bit_of(word_in(body_of(f), bit as int / 64), bit % 64)
    }) by {
        let bit = probe(id_halves(id), k as nat, mask);
        lemma_probe_bound(id_halves(id), k as nat, n);
        lemma_word_bytes(words, bit as int / 64);
        assert(bit_at(words, bit));
    }
}

/// Every way a file can be wrong answers "maybe": one that is too short, of
/// another kind or version, of a size it does not declare, or whose bits do not
/// have the checksum beside them.
pub proof fn law_a_damaged_filter_says_maybe(file: Seq<u8>, id: Seq<u8>)
    requires
        ({
            ||| file.len() < HEADER
            ||| file.subrange(0, 4) != magic()
            ||| file[4] != VERSION
            ||| file[5] == 0
            ||| body_of(file).len() != words_in(file) * 8
            ||| crc32(body_of(file)) != spec_u32_from_le_bytes(file.subrange(12, 16))
        }),
    ensures
        maybe(file, id),
{
}

} // verus!
