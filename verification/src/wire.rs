//! The protobuf wire format: variable-length integers, and the fields of a
//! message.

use vstd::prelude::*;

verus! {

/// A number in base 128, low digit first, every byte but the last marked.
pub open spec fn varint(n: nat) -> Seq<u8>
    decreases n,
{
    if n < 128 {
        seq![n as u8]
    } else {
        seq![(n % 128 + 128) as u8] + varint(n / 128)
    }
}

/// The number at the head of some bytes, and how many bytes it takes. At most
/// `budget` bytes, and none of the last beyond what 64 bits hold.
pub open spec fn read_varint(s: Seq<u8>, budget: nat) -> Option<(nat, nat)>
    decreases budget,
{
    if s.len() == 0 || budget == 0 {
        None
    } else if s[0] < 128 {
        if budget == 1 && s[0] >= 2 {
            None
        } else {
            Some((s[0] as nat, 1))
        }
    } else {
        match read_varint(s.skip(1), (budget - 1) as nat) {
            Some((v, n)) => Some(((s[0] - 128) as nat + 128 * v, n + 1)),
            None => None,
        }
    }
}

/// The longest number takes ten bytes.
pub const VARINT_MAX: usize = 10;

/// `prost::encoding::encode_varint` appends a number to a buffer in base 128,
/// low digit first, every byte but the last marked.
#[verifier::external_body]
pub(crate) fn put_varint(out: &mut Vec<u8>, n: u64)
    ensures
        final(out)@ == old(out)@ + varint(n as nat),
{
    prost::encoding::encode_varint(n, out)
}

/// `prost::encoding::decode_varint` reads a number off the head of a buffer and
/// advances past it. It refuses an empty buffer, a number of more than ten
/// bytes, one that is cut short, and one that exceeds 64 bits.
#[verifier::external_body]
pub(crate) fn take_varint(buf: &[u8]) -> (r: Option<(u64, &[u8])>)
    ensures
        r is Some <==> read_varint(buf@, VARINT_MAX as nat) is Some,
        r matches Some((v, rest)) ==> read_varint(buf@, VARINT_MAX as nat) matches Some((n, used))
            && v == n && used <= buf@.len() && rest@ == buf@.skip(used as int),
{
    let mut rest = buf;
    match prost::encoding::decode_varint(&mut rest) {
        Ok(v) => Some((v, rest)),
        Err(_) => None,
    }
}

/// A number that is read takes at least one byte and no more than there are.
pub proof fn lemma_read_varint_bounds(s: Seq<u8>, budget: nat)
    ensures
        read_varint(s, budget) matches Some((v, n)) ==> 1 <= n <= s.len() && n <= budget,
    decreases budget,
{
    if s.len() > 0 && budget > 0 && s[0] >= 128 {
        lemma_read_varint_bounds(s.skip(1), (budget - 1) as nat);
    }
}

/// A number that is written reads back, whatever follows it.
pub proof fn lemma_varint_round_trip(n: nat, rest: Seq<u8>)
    requires
        n <= u64::MAX,
    ensures
        read_varint(varint(n) + rest, VARINT_MAX as nat) == Some((n, varint(n).len())),
        varint(n).len() >= 1,
{
    assert(n < 128 * 128 * 128 * 128 * 128 * 128 * 128 * 128 * 128 * 2);
    lemma_varint_budget(n, 10, 128 * 128 * 128 * 128 * 128 * 128 * 128 * 128 * 128 * 2, rest);
}

proof fn lemma_varint_budget(n: nat, budget: nat, bound: nat, rest: Seq<u8>)
    requires
        n < bound,
        budget >= 1,
        budget == 1 ==> bound == 2,
        budget > 1 ==> bound % 128 == 0,
        budget == 2 ==> bound == 256,
        budget == 3 ==> bound == 128 * 256,
        budget == 4 ==> bound == 128 * 128 * 256,
        budget == 5 ==> bound == 128 * 128 * 128 * 256,
        budget == 6 ==> bound == 128 * 128 * 128 * 128 * 256,
        budget == 7 ==> bound == 128 * 128 * 128 * 128 * 128 * 256,
        budget == 8 ==> bound == 128 * 128 * 128 * 128 * 128 * 128 * 256,
        budget == 9 ==> bound == 128 * 128 * 128 * 128 * 128 * 128 * 128 * 256,
        budget == 10 ==> bound == 128 * 128 * 128 * 128 * 128 * 128 * 128 * 128 * 256,
        budget <= 10,
    ensures
        read_varint(varint(n) + rest, budget) == Some((n, varint(n).len())),
        varint(n).len() >= 1,
    decreases budget,
{
    let s = varint(n) + rest;
    if n < 128 {
        assert(s[0] == n);
    } else {
        assert(s[0] == (n % 128 + 128) as u8);
        assert(s.skip(1) =~= varint(n / 128) + rest);
        lemma_varint_budget(n / 128, (budget - 1) as nat, bound / 128, rest);
    }
}

/// The tag and the wire type at the head of a field, and how many bytes they
/// take.
pub open spec fn read_key(s: Seq<u8>) -> Option<(nat, nat, nat)> {
    match read_varint(s, VARINT_MAX as nat) {
        Some((k, n)) => if k <= u32::MAX && k % 8 <= 5 && k / 8 >= 1 {
            Some((k / 8, k % 8, n))
        } else {
            None
        },
        None => None,
    }
}

/// The length-delimited run at the head of some bytes, and how many bytes it
/// takes with its length.
pub open spec fn read_run(s: Seq<u8>) -> Option<(Seq<u8>, nat)> {
    match read_varint(s, VARINT_MAX as nat) {
        Some((len, n)) => if n + len <= s.len() {
            Some((s.subrange(n as int, (n + len) as int), n + len))
        } else {
            None
        },
        None => None,
    }
}

/// How many bytes a field of no interest takes after its key.
pub open spec fn skipped(wire: nat, tag: nat, s: Seq<u8>, depth: nat) -> Option<nat>
    decreases s.len(), 1nat,
{
    if depth == 0 {
        None
    } else if wire == 0 {
        match read_varint(s, VARINT_MAX as nat) {
            Some((_, n)) => Some(n),
            None => None,
        }
    } else if wire == 1 {
        if s.len() >= 8 {
            Some(8)
        } else {
            None
        }
    } else if wire == 2 {
        match read_run(s) {
            Some((_, n)) => Some(n),
            None => None,
        }
    } else if wire == 5 {
        if s.len() >= 4 {
            Some(4)
        } else {
            None
        }
    } else if wire == 3 {
        skipped_group(tag, s, depth)
    } else {
        None
    }
}

/// How many bytes a group takes, to the end of its closing key.
pub open spec fn skipped_group(tag: nat, s: Seq<u8>, depth: nat) -> Option<nat>
    decreases s.len(), 0nat,
{
    match read_key(s) {
        None => None,
        Some((t, w, n)) => if n == 0 || n > s.len() {
            None
        } else if w == 4 {
            if t == tag {
                Some(n)
            } else {
                None
            }
        } else if depth == 0 {
            None
        } else {
            match skipped(w, t, s.skip(n as int), (depth - 1) as nat) {
                None => None,
                Some(m) => if n + m > s.len() {
                    None
                } else {
                    match skipped_group(tag, s.skip((n + m) as int), depth) {
                        None => None,
                        Some(k) => Some(n + m + k),
                    }
                },
            }
        },
    }
}

/// A key takes at least one byte and no more than there are.
pub proof fn lemma_read_key_bounds(s: Seq<u8>)
    ensures
        read_key(s) matches Some((t, w, n)) ==> 1 <= n <= s.len() && 1 <= t <= u32::MAX && w <= 5,
{
    lemma_read_varint_bounds(s, VARINT_MAX as nat);
}

/// A run takes at least one byte and no more than there are.
pub proof fn lemma_read_run_bounds(s: Seq<u8>)
    ensures
        read_run(s) matches Some((b, n)) ==> 1 <= n <= s.len() && b.len() < n,
{
    lemma_read_varint_bounds(s, VARINT_MAX as nat);
}

/// What is skipped is there to be skipped.
pub proof fn lemma_skipped_bounds(wire: nat, tag: nat, s: Seq<u8>, depth: nat)
    ensures
        skipped(wire, tag, s, depth) matches Some(n) ==> n <= s.len(),
    decreases s.len(), 1nat,
{
    lemma_read_varint_bounds(s, VARINT_MAX as nat);
    lemma_read_run_bounds(s);
    lemma_skipped_group_bounds(tag, s, depth);
}

proof fn lemma_skipped_group_bounds(tag: nat, s: Seq<u8>, depth: nat)
    ensures
        skipped_group(tag, s, depth) matches Some(n) ==> n <= s.len(),
    decreases s.len(), 0nat,
{
    lemma_read_key_bounds(s);
    if let Some((t, w, n)) = read_key(s) {
        if depth > 0 && w != 4 {
            lemma_skipped_bounds(w, t, s.skip(n as int), (depth - 1) as nat);
            if let Some(m) = skipped(w, t, s.skip(n as int), (depth - 1) as nat) {
                lemma_skipped_group_bounds(tag, s.skip((n + m) as int), depth);
            }
        }
    }
}

/// Read the key at the head of a field.
pub fn take_key(buf: &[u8]) -> (r: Option<(u32, u32, &[u8])>)
    ensures
        r is Some <==> read_key(buf@) is Some,
        r matches Some((tag, wire, rest)) ==> read_key(buf@) matches Some((t, w, n)) && t == tag && w
            == wire && n <= buf@.len() && rest@ == buf@.skip(n as int),
{
    match take_varint(buf) {
        Some((k, rest)) => {
            if k > 0xffff_ffff || k % 8 > 5 || k / 8 == 0 {
                None
            } else {
                Some(((k / 8) as u32, (k % 8) as u32, rest))
            }
        },
        None => None,
    }
}

/// Read a length-delimited run.
pub fn take_run(buf: &[u8]) -> (r: Option<(&[u8], &[u8])>)
    ensures
        r is Some <==> read_run(buf@) is Some,
        r matches Some((body, rest)) ==> read_run(buf@) matches Some((b, n)) && body@ == b && n
            <= buf@.len() && rest@ == buf@.skip(n as int),
{
    match take_varint(buf) {
        Some((len, rest)) => {
            if len > rest.len() as u64 {
                None
            } else {
                let k: usize = len as usize;
                let body = vstd::slice::slice_subrange(rest, 0, k);
                let after = vstd::slice::slice_subrange(rest, k, rest.len());
                proof {
                    let (v, n) = read_varint(buf@, VARINT_MAX as nat).unwrap();
                    assert(body@ =~= buf@.subrange(n as int, (n + v) as int));
                    assert(after@ =~= buf@.skip((n + v) as int));
                }
                Some((body, after))
            }
        },
        None => None,
    }
}

/// Pass over a field of no interest.
pub fn skip_field(wire: u32, tag: u32, buf: &[u8], depth: u32) -> (r: Option<&[u8]>)
    ensures
        r is Some <==> skipped(wire as nat, tag as nat, buf@, depth as nat) is Some,
        r matches Some(rest) ==> skipped(wire as nat, tag as nat, buf@, depth as nat) matches Some(
            n,
        ) && n <= buf@.len() && rest@ == buf@.skip(n as int),
    decreases buf@.len(), 1nat,
{
    proof {
        lemma_skipped_bounds(wire as nat, tag as nat, buf@, depth as nat);
    }
    if depth == 0 {
        None
    } else if wire == 0 {
        match take_varint(buf) {
            Some((_, rest)) => Some(rest),
            None => None,
        }
    } else if wire == 1 {
        if buf.len() < 8 {
            None
        } else {
            let rest = vstd::slice::slice_subrange(buf, 8, buf.len());
            assert(rest@ =~= buf@.skip(8));
            Some(rest)
        }
    } else if wire == 2 {
        match take_run(buf) {
            Some((_, rest)) => Some(rest),
            None => None,
        }
    } else if wire == 5 {
        if buf.len() < 4 {
            None
        } else {
            let rest = vstd::slice::slice_subrange(buf, 4, buf.len());
            assert(rest@ =~= buf@.skip(4));
            Some(rest)
        }
    } else if wire == 3 {
        skip_group(tag, buf, depth)
    } else {
        None
    }
}

fn skip_group(tag: u32, buf: &[u8], depth: u32) -> (r: Option<&[u8]>)
    ensures
        r is Some <==> skipped_group(tag as nat, buf@, depth as nat) is Some,
        r matches Some(rest) ==> skipped_group(tag as nat, buf@, depth as nat) matches Some(n) && n
            <= buf@.len() && rest@ == buf@.skip(n as int),
    decreases buf@.len(), 0nat,
{
    proof {
        lemma_skipped_group_bounds(tag as nat, buf@, depth as nat);
        lemma_read_key_bounds(buf@);
    }
    match take_key(buf) {
        None => None,
        Some((t, w, inner)) => {
            if w == 4 {
                if t == tag {
                    Some(inner)
                } else {
                    None
                }
            } else if depth == 0 {
                None
            } else {
                match skip_field(w, t, inner, depth - 1) {
                    None => None,
                    Some(after) => {
                        proof {
                            let n = read_key(buf@).unwrap().2;
                            let m = skipped(w as nat, t as nat, inner@, (depth - 1) as nat).unwrap();
                            lemma_skipped_bounds(w as nat, t as nat, inner@, (depth - 1) as nat);
                            assert(after@ =~= buf@.skip((n + m) as int));
                            if let Some(k) = skipped_group(tag as nat, after@, depth as nat) {
                                lemma_skipped_group_bounds(tag as nat, after@, depth as nat);
                                assert(after@.skip(k as int) =~= buf@.skip((n + m + k) as int));
                            }
                        }
                        skip_group(tag, after, depth)
                    },
                }
            }
        },
    }
}

} // verus!
