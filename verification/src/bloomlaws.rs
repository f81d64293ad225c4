//! How full a filter is, what is in it, and how it lies in its file.

use crate::bloom::{
    bit_at, bit_mask, bit_of, body_of, file_of, filter_of, id_halves, keys_of, lemma_file,
    lemma_power_from, lemma_probe_bound, lemma_with_id, lemma_with_ids, lemma_word_bytes, maybe,
    probe, runs_upto, with_bit, with_id, with_ids, word_bytes, word_in, words_for,
};
use crate::checksum::crc32;
use crate::identity::mixed;
use crate::table::{Column, Data};
use vstd::arithmetic::power2::pow2;
use vstd::bytes::*;
use vstd::prelude::*;

verus! {

/// The seven bits of an id in a filter of so many words: its first half and
/// multiples of its second, each half finalized and the second made odd, cut to
/// the bits there are.
pub open spec fn is_bit_of(id: Seq<u8>, words: nat, bit: u64) -> bool {
    exists|i: u64| i < 7 && #[trigger] nth_bit(id, words, i) == bit
}

/// One of the bits of an id.
pub open spec fn nth_bit(id: Seq<u8>, words: nat, i: u64) -> u64 {
    let a = mixed(spec_u64_from_le_bytes(id.take(8)));
    let b = mixed(spec_u64_from_le_bytes(id.subrange(8, 16))) | 1;
    a.wrapping_add(i.wrapping_mul(b)) & ((64 * words - 1) as u64)
}

proof fn lemma_nth(id: Seq<u8>, words: nat, i: u64)
    requires
        id.len() == 16,
    ensures
        nth_bit(id, words, i) == probe(id_halves(id), i as nat, bit_mask(words)),
{
    assert(id.take(8) =~= id.subrange(0, 8));
}

proof fn lemma_no_other_bit(words: Seq<u64>, bit: u64, b: u64)
    requires
        bit as int / 64 < words.len(),
        b as int / 64 < words.len(),
        b != bit,
    ensures
        bit_at(with_bit(words, bit), b) == bit_at(words, b),
{
    let w = words[bit as int / 64];
    let x = bit % 64;
    let y = b % 64;
    if b as int / 64 == bit as int / 64 {
        assert(x != y);
        assert(((w | (1u64 << x)) & (1u64 << y) != 0) == (w & (1u64 << y) != 0)) by (bit_vector)
            requires
                x < 64,
                y < 64,
                x != y,
        ;
    }
}

proof fn lemma_only_id(words: Seq<u64>, id: Seq<u8>, n: nat, b: u64)
    requires
        0 < words.len() <= u32::MAX,
        id.len() == 16,
        n <= 7,
        b as int / 64 < words.len(),
        bit_at(with_id(words, bit_mask(words.len()), id_halves(id), n), b),
    ensures
        bit_at(words, b) || is_bit_of(id, words.len(), b),
    decreases n,
{
    if n > 0 {
        let mask = bit_mask(words.len());
        let h = id_halves(id);
        let before = with_id(words, mask, h, (n - 1) as nat);
        let bit = probe(h, (n - 1) as nat, mask);
        lemma_probe_bound(h, (n - 1) as nat, words.len());
        lemma_with_id(words, h, (n - 1) as nat, b);
        if b == bit {
            lemma_nth(id, words.len(), (n - 1) as u64);
            assert(nth_bit(id, words.len(), (n - 1) as u64) == b);
        } else {
            lemma_no_other_bit(before, bit, b);
            lemma_only_id(words, id, (n - 1) as nat, b);
        }
    }
}

proof fn lemma_only_ids(words: Seq<u64>, ids: Seq<Seq<u8>>, b: u64)
    requires
        0 < words.len() <= u32::MAX,
        forall|k: int| 0 <= k < ids.len() ==> (#[trigger] ids[k]).len() == 16,
        b as int / 64 < words.len(),
        bit_at(with_ids(words, bit_mask(words.len()), ids), b),
    ensures
        bit_at(words, b) || exists|k: int|
            0 <= k < ids.len() && is_bit_of(#[trigger] ids[k], words.len(), b),
    decreases ids.len(),
{
    if ids.len() > 0 {
        let t = ids.drop_last();
        let before = with_ids(words, bit_mask(words.len()), t);
        lemma_with_ids(words, t, 0);
        lemma_only_id(before, ids.last(), 7, b);
        if bit_at(before, b) {
            lemma_only_ids(words, t, b);
            if !bit_at(words, b) {
                let k = choose|k: int|
                    0 <= k < t.len() && is_bit_of(#[trigger] t[k], words.len(), b);
                assert(ids[k] == t[k]);
            }
        } else {
            assert(ids[ids.len() - 1] == ids.last());
        }
    }
}

proof fn lemma_one_is_a_power()
    ensures
        crate::bloom::is_power_of_two(1),
{
    assert(1u32 & 0u32 == 0) by (bit_vector);
}

proof fn lemma_words(n: nat)
    requires
        n <= u32::MAX,
    ensures
        0 < words_for(n) <= u32::MAX,
        crate::bloom::is_power_of_two(words_for(n) as u32),
{
    lemma_one_is_a_power();
    lemma_power_from(1, (n * 10 + 63) / 64);
}

proof fn lemma_blank(n: nat, b: u64)
    requires
        b < 64 * n,
    ensures
        !bit_at(Seq::new(n, |i: int| 0u64), b),
{
    let y = b % 64;
    assert(0u64 & (1u64 << y) == 0) by (bit_vector);
}

proof fn lemma_is_key_bit(keys: Seq<Seq<u8>>, b: u64)
    requires
        keys.len() <= u32::MAX,
        forall|k: int| 0 <= k < keys.len() ==> (#[trigger] keys[k]).len() == 16,
        b < 64 * words_for(keys.len()),
        bit_at(filter_of(keys), b),
    ensures
        is_set(keys, b),
{
    let n = words_for(keys.len());
    lemma_words(keys.len());
    lemma_blank(n, b);
    lemma_only_ids(Seq::new(n, |i: int| 0u64), keys, b);
}

proof fn lemma_key_bit(keys: Seq<Seq<u8>>, k: int, i: u64)
    requires
        0 <= k < keys.len() <= u32::MAX,
        keys[k].len() == 16,
        i < 7,
    ensures
        bit_at(filter_of(keys), nth_bit(keys[k], words_for(keys.len()), i)),
{
    let n = words_for(keys.len());
    lemma_words(keys.len());
    let blank = Seq::new(n, |i: int| 0u64);
    lemma_with_ids(blank, keys, k);
    lemma_nth(keys[k], n, i);
    let at = i as int;
    assert(bit_at(
        with_ids(blank, bit_mask(n), keys),
        probe(id_halves(keys[k]), at as nat, bit_mask(n)),
    ));
}

/// A filter has exactly the bits of its keys: seven of each, and no other.
pub proof fn law_a_filter_has_the_bits_of_its_keys(keys: Seq<Seq<u8>>, b: u64)
    requires
        keys.len() <= u32::MAX,
        forall|k: int| 0 <= k < keys.len() ==> (#[trigger] keys[k]).len() == 16,
        b < 64 * words_for(keys.len()),
    ensures
        filter_of(keys).len() == words_for(keys.len()),
        bit_at(filter_of(keys), b) <==> is_set(keys, b),
{
    let n = words_for(keys.len());
    lemma_words(keys.len());
    lemma_with_ids(Seq::new(n, |i: int| 0u64), keys, -1);
    if bit_at(filter_of(keys), b) {
        lemma_is_key_bit(keys, b);
    }
    if is_set(keys, b) {
        let k = choose|k: int| 0 <= k < keys.len() && is_bit_of(#[trigger] keys[k], n, b);
        let i = choose|i: u64| i < 7 && #[trigger] nth_bit(keys[k], n, i) == b;
        lemma_key_bit(keys, k, i);
    }
}

proof fn lemma_bit_in_file(keys: Seq<Seq<u8>>, id: Seq<u8>, i: u64)
    requires
        keys.len() <= u32::MAX,
        forall|k: int| 0 <= k < keys.len() ==> (#[trigger] keys[k]).len() == 16,
        id.len() == 16,
        i < 7,
    ensures
        ({
            let n = words_for(keys.len());
            let bit = probe(id_halves(id), i as nat, bit_mask(n));
            &&& bit == nth_bit(id, n, i)
            &&& is_set(keys, bit) == bit_of(
                word_in(word_bytes(filter_of(keys)), bit as int / 64),
                bit % 64,
            )
        }),
{
    let n = words_for(keys.len());
    let bit = nth_bit(id, n, i);
    lemma_words(keys.len());
    lemma_nth(id, n, i);
    lemma_probe_bound(id_halves(id), i as nat, n);
    law_a_filter_has_the_bits_of_its_keys(keys, bit);
    lemma_word_bytes(filter_of(keys), bit as int / 64);
}

/// A filter as it was written says "maybe" to an id exactly if each of the id's
/// seven bits is one of a key.
pub proof fn law_a_filter_knows_its_keys(keys: Seq<Seq<u8>>, id: Seq<u8>)
    requires
        keys.len() <= u32::MAX,
        forall|k: int| 0 <= k < keys.len() ==> (#[trigger] keys[k]).len() == 16,
        id.len() == 16,
    ensures
        maybe(file_of(filter_of(keys)), id) <==> forall|i: u64|
            i < 7 ==> is_set(keys, #[trigger] nth_bit(id, words_for(keys.len()), i)),
{
    let n = words_for(keys.len());
    let words = filter_of(keys);
    let f = file_of(words);
    lemma_words(keys.len());
    lemma_with_ids(Seq::new(n, |i: int| 0u64), keys, -1);
    lemma_file(words);
    if forall|i: u64| i < 7 ==> is_set(keys, #[trigger] nth_bit(id, n, i)) {
        assert forall|i: int| 0 <= i < 7 implies ({
            let bit = #[trigger] probe(id_halves(id), i as nat, bit_mask(n));
            bit_of(word_in(body_of(f), bit as int / 64), bit % 64)
        }) by {
            lemma_bit_in_file(keys, id, i as u64);
            assert(is_set(keys, nth_bit(id, n, i as u64)));
        }
    }
    if maybe(f, id) {
        assert forall|i: u64| i < 7 implies is_set(keys, #[trigger] nth_bit(id, n, i)) by {
            lemma_bit_in_file(keys, id, i);
            let at = i as int;
            let bit = probe(id_halves(id), at as nat, bit_mask(n));
            assert(bit_of(word_in(body_of(f), bit as int / 64), bit % 64));
        }
    }
}

/// The bit is one of a key.
pub open spec fn is_set(keys: Seq<Seq<u8>>, bit: u64) -> bool {
    exists|k: int| 0 <= k < keys.len() && is_bit_of(#[trigger] keys[k], words_for(keys.len()), bit)
}

proof fn lemma_power(p: nat, e: nat, need: nat)
    requires
        p == pow2(e),
        p == 1 || p < 2 * need,
    ensures
        crate::bloom::power_from(p, need) >= need,
        crate::bloom::power_from(p, need) == 1 || crate::bloom::power_from(p, need) < 2 * need,
        exists|k: nat| #[trigger] pow2(k) == crate::bloom::power_from(p, need),
    decreases
        if p < need {
            need - p
        } else {
            0
        },
{
    vstd::arithmetic::power2::lemma_pow2_pos(e);
    if p < need {
        vstd::arithmetic::power2::lemma_pow2_unfold(e + 1);
        lemma_power(2 * p, e + 1, need);
    }
}

/// A filter has room for ten bits of every key, in a number of words that is a
/// power of two, and no more than it takes: half as many would not do.
pub proof fn law_a_filter_has_room_for_its_keys(n: nat)
    ensures
        64 * words_for(n) >= 10 * n,
        words_for(n) == 1 || 32 * words_for(n) < 10 * n,
        exists|k: nat| #[trigger] pow2(k) == words_for(n),
{
    vstd::arithmetic::power2::lemma2_to64();
    let need = (n * 10 + 63) / 64;
    lemma_power(1, 0, need as nat);
    let w = words_for(n);
    if w != 1 {
        let k = choose|k: nat| #[trigger] pow2(k) == w;
        if k > 0 {
            vstd::arithmetic::power2::lemma_pow2_unfold(k);
            assert(w == 2 * pow2((k - 1) as nat));
        }
        assert(w % 2 == 0);
        assert(w <= 2 * need - 2);
    }
}

proof fn lemma_runs_are_there(c: Column, vals: Seq<Vec<u8>>, n: nat, id: Seq<u8>)
    requires
        n <= vals.len(),
    ensures
        runs_upto(c, vals, n).contains(id) <==> exists|i: int|
            0 <= i < n && c.holds(i) && (#[trigger] vals[i])@ == id,
    decreases n,
{
    if n > 0 {
        let before = runs_upto(c, vals, (n - 1) as nat);
        let now = runs_upto(c, vals, n);
        lemma_runs_are_there(c, vals, (n - 1) as nat, id);
        if before.contains(id) {
            assert(now[before.index_of(id)] == id);
        }
        if now.contains(id) && !before.contains(id) {
            let k = now.index_of(id);
            if k < before.len() {
                assert(before[k] == id);
            }
            assert(vals[n - 1]@ == id && c.holds(n - 1));
        }
        if c.holds(n - 1) && vals[n - 1]@ == id {
            if now.len() > before.len() {
                assert(now[now.len() - 1] == id);
            } else {
                assert(before[before.len() - 1] == id);
                assert(now == before);
            }
        }
    }
}

/// The keys of a filter are the ids that its column holds, and no others.
pub proof fn law_a_filter_is_over_what_is_there(c: Column, vals: Seq<Vec<u8>>, id: Seq<u8>)
    requires
        c.data matches Data::Fixed(v) && v@ == vals,
        forall|k: int| 0 <= k < vals.len() ==> (#[trigger] vals[k])@.len() == 16,
    ensures
        keys_of(c).contains(id) <==> exists|i: int|
            0 <= i < vals.len() && c.holds(i) && (#[trigger] vals[i])@ == id,
{
    lemma_runs_are_there(c, vals, vals.len(), id);
}

/// The file of a filter: the letters `MBLM`, a version, how many bits a key
/// has, two bytes of nothing, the number of words, the checksum of the words,
/// and the words, every number low byte first.
pub proof fn law_a_filter_lies_in_its_file(words: Seq<u64>, i: int)
    requires
        0 <= i < words.len() <= u32::MAX,
    ensures
        ({
            let f = file_of(words);
            &&& f.len() == 16 + 8 * words.len()
            &&& f.take(8) == seq![0x4du8, 0x42, 0x4c, 0x4d, 1, 7, 0, 0]
            &&& spec_u32_from_le_bytes(f.subrange(8, 12)) == words.len()
            &&& spec_u32_from_le_bytes(f.subrange(12, 16)) == crc32(f.skip(16))
            &&& spec_u64_from_le_bytes(f.subrange(16 + 8 * i, 24 + 8 * i)) == words[i]
        }),
{
    lemma_auto_spec_u32_to_from_le_bytes();
    lemma_word_bytes(words, i);
    let body = word_bytes(words);
    let f = file_of(words);
    let n = spec_u32_to_le_bytes(words.len() as u32);
    let c = spec_u32_to_le_bytes(crc32(body));
    assert(n.len() == 4 && c.len() == 4);
    assert(f.take(8) =~= seq![0x4du8, 0x42, 0x4c, 0x4d, 1, 7, 0, 0]);
    assert(f.subrange(8, 12) =~= n);
    assert(f.subrange(12, 16) =~= c);
    assert(f.skip(16) =~= body);
    assert(f.subrange(16 + 8 * i, 24 + 8 * i) =~= body.subrange(8 * i, 8 * i + 8));
}

} // verus!
