//! Attribute values in the protobuf wire format, written and read back.

use crate::otlp::{pairs, vals, AnyKind, AnyValue, KeyValue, Pair, Val};
use crate::wire::{
    lemma_read_key_bounds, lemma_read_run_bounds, lemma_read_varint_bounds, lemma_skipped_bounds,
    put_varint, read_key, read_run, read_varint, skip_field, skipped, take_key, take_run,
    take_varint, varint, VARINT_MAX,
};
use vstd::bytes::{spec_u64_from_le_bytes, spec_u64_to_le_bytes, u64_from_le_bytes, u64_to_le_bytes};
use vstd::prelude::*;
use vstd::utf8::{decode_utf8, encode_utf8, valid_utf8};

verus! {

/// `std::str::from_utf8` accepts exactly the bytes that are valid UTF-8, and
/// gives back the text they encode.
#[verifier::external_body]
fn text_from(bytes: &[u8]) -> (r: Option<String>)
    ensures
        r is Some <==> valid_utf8(bytes@),
        r matches Some(s) ==> s@ == decode_utf8(bytes@),
{
    match std::str::from_utf8(bytes) {
        Ok(s) => Some(s.to_owned()),
        Err(_) => None,
    }
}

/// How deep messages may nest.
pub const DEPTH: u32 = 100;

/// A 64-bit pattern as the signed number it stands for.
pub open spec fn as_signed(n: nat) -> int {
    if n >= 0x8000_0000_0000_0000 {
        n - 0x1_0000_0000_0000_0000
    } else {
        n as int
    }
}

/// A signed number as its 64-bit pattern.
pub open spec fn as_pattern(i: int) -> nat {
    if i < 0 {
        (i + 0x1_0000_0000_0000_0000) as nat
    } else {
        i as nat
    }
}

fn to_signed(n: u64) -> (r: i64)
    ensures
        r == as_signed(n as nat),
{
    if n >= 0x8000_0000_0000_0000 {
        -((0xffff_ffff_ffff_ffff - n) as i64) - 1
    } else {
        n as i64
    }
}

fn to_pattern(i: i64) -> (r: u64)
    ensures
        r == as_pattern(i as int),
{
    if i < 0 {
        0xffff_ffff_ffff_ffff - ((-(i + 1)) as u64)
    } else {
        i as u64
    }
}

// ---------------------------------------------------------------------------
// Reading.

/// What a value becomes when the fields in `s` are merged into it, one after
/// another: a later field replaces an earlier one, except that two arrays or
/// two key-value lists are joined.
pub open spec fn any_merged(acc: Val, s: Seq<u8>, depth: nat) -> Option<Val>
    decreases s.len(),
{
    if s.len() == 0 {
        Some(acc)
    } else {
        match read_key(s) {
            None => None,
            Some((tag, wire, n)) => if n == 0 || n > s.len() {
                None
            } else {
                match any_field(acc, tag, wire, s.skip(n as int), depth) {
                    None => None,
                    Some((next, m)) => if n + m > s.len() {
                        None
                    } else {
                        any_merged(next, s.skip((n + m) as int), depth)
                    },
                }
            },
        }
    }
}

/// What a value becomes with one field, and how many bytes the field takes
/// after its key.
pub open spec fn any_field(acc: Val, tag: nat, wire: nat, s: Seq<u8>, depth: nat) -> Option<(Val, nat)>
    decreases s.len(),
{
    if tag == 1 {
        match read_run(s) {
            Some((b, n)) => if wire == 2 && valid_utf8(b) {
                Some((Val::Str(decode_utf8(b)), n))
            } else {
                None
            },
            None => None,
        }
    } else if tag == 2 {
        match read_varint(s, VARINT_MAX as nat) {
            Some((v, n)) => if wire == 0 {
                Some((Val::Bool(v != 0), n))
            } else {
                None
            },
            None => None,
        }
    } else if tag == 3 {
        match read_varint(s, VARINT_MAX as nat) {
            Some((v, n)) => if wire == 0 {
                Some((Val::Int(as_signed(v) as i64), n))
            } else {
                None
            },
            None => None,
        }
    } else if tag == 4 {
        if wire == 1 && s.len() >= 8 {
            Some((Val::Double(spec_u64_from_le_bytes(s.take(8))), 8))
        } else {
            None
        }
    } else if tag == 5 {
        match read_run(s) {
            Some((b, n)) => if wire == 2 && depth > 0 && b.len() < s.len() {
                match array_merged(
                    match acc {
                        Val::Array(vs) => vs,
                        _ => Seq::empty(),
                    },
                    b,
                    (depth - 1) as nat,
                ) {
                    Some(vs) => Some((Val::Array(vs), n)),
                    None => None,
                }
            } else {
                None
            },
            None => None,
        }
    } else if tag == 6 {
        match read_run(s) {
            Some((b, n)) => if wire == 2 && depth > 0 && b.len() < s.len() {
                match kvlist_merged(
                    match acc {
                        Val::Kvlist(ps) => ps,
                        _ => Seq::empty(),
                    },
                    b,
                    (depth - 1) as nat,
                ) {
                    Some(ps) => Some((Val::Kvlist(ps), n)),
                    None => None,
                }
            } else {
                None
            },
            None => None,
        }
    } else if tag == 7 {
        match read_run(s) {
            Some((b, n)) => if wire == 2 {
                Some((Val::Bytes(b), n))
            } else {
                None
            },
            None => None,
        }
    } else {
        match skipped(wire, tag, s, depth) {
            Some(n) => Some((acc, n)),
            None => None,
        }
    }
}

/// An array with the values in `s` added to it.
pub open spec fn array_merged(acc: Seq<Val>, s: Seq<u8>, depth: nat) -> Option<Seq<Val>>
    decreases s.len(),
{
    if s.len() == 0 {
        Some(acc)
    } else {
        match read_key(s) {
            None => None,
            Some((tag, wire, n)) => if n == 0 || n > s.len() {
                None
            } else {
                let r = s.skip(n as int);
                if tag == 1 {
                    match read_run(r) {
                        Some((b, m)) => if wire == 2 && depth > 0 && b.len() < s.len() && n + m
                            <= s.len() {
                            match any_merged(Val::Empty, b, (depth - 1) as nat) {
                                Some(v) => array_merged(acc.push(v), s.skip((n + m) as int), depth),
                                None => None,
                            }
                        } else {
                            None
                        },
                        None => None,
                    }
                } else {
                    match skipped(wire, tag, r, depth) {
                        Some(m) => if n + m > s.len() {
                            None
                        } else {
                            array_merged(acc, s.skip((n + m) as int), depth)
                        },
                        None => None,
                    }
                }
            },
        }
    }
}

/// A key-value list with the pairs in `s` added to it.
pub open spec fn kvlist_merged(acc: Seq<Pair>, s: Seq<u8>, depth: nat) -> Option<Seq<Pair>>
    decreases s.len(),
{
    if s.len() == 0 {
        Some(acc)
    } else {
        match read_key(s) {
            None => None,
            Some((tag, wire, n)) => if n == 0 || n > s.len() {
                None
            } else {
                let r = s.skip(n as int);
                if tag == 1 {
                    match read_run(r) {
                        Some((b, m)) => if wire == 2 && depth > 0 && b.len() < s.len() && n + m
                            <= s.len() {
                            match pair_merged(
                                Pair { key: Seq::empty(), value: None },
                                b,
                                (depth - 1) as nat,
                            ) {
                                Some(p) => kvlist_merged(acc.push(p), s.skip((n + m) as int), depth),
                                None => None,
                            }
                        } else {
                            None
                        },
                        None => None,
                    }
                } else {
                    match skipped(wire, tag, r, depth) {
                        Some(m) => if n + m > s.len() {
                            None
                        } else {
                            kvlist_merged(acc, s.skip((n + m) as int), depth)
                        },
                        None => None,
                    }
                }
            },
        }
    }
}

/// A key and its value with the fields in `s` merged into them.
pub open spec fn pair_merged(acc: Pair, s: Seq<u8>, depth: nat) -> Option<Pair>
    decreases s.len(),
{
    if s.len() == 0 {
        Some(acc)
    } else {
        match read_key(s) {
            None => None,
            Some((tag, wire, n)) => if n == 0 || n > s.len() {
                None
            } else {
                let r = s.skip(n as int);
                if tag == 1 {
                    match read_run(r) {
                        Some((b, m)) => if wire == 2 && valid_utf8(b) && n + m <= s.len() {
                            pair_merged(
                                Pair { key: decode_utf8(b), value: acc.value },
                                s.skip((n + m) as int),
                                depth,
                            )
                        } else {
                            None
                        },
                        None => None,
                    }
                } else if tag == 2 {
                    match read_run(r) {
                        Some((b, m)) => if wire == 2 && depth > 0 && b.len() < s.len() && n + m
                            <= s.len() {
                            match any_merged(
                                acc.value.unwrap_or(Val::Empty),
                                b,
                                (depth - 1) as nat,
                            ) {
                                Some(v) => pair_merged(
                                    Pair { key: acc.key, value: Some(v) },
                                    s.skip((n + m) as int),
                                    depth,
                                ),
                                None => None,
                            }
                        } else {
                            None
                        },
                        None => None,
                    }
                } else {
                    match skipped(wire, tag, r, depth) {
                        Some(m) => if n + m > s.len() {
                            None
                        } else {
                            pair_merged(acc, s.skip((n + m) as int), depth)
                        },
                        None => None,
                    }
                }
            },
        }
    }
}

/// The value some bytes encode; `None` where they encode none.
pub open spec fn decoded(s: Seq<u8>) -> Option<Val> {
    any_merged(Val::Empty, s, DEPTH as nat)
}

/// The rest of a slice after a key and its field.
proof fn lemma_skip_skip(s: Seq<u8>, n: int, m: int)
    requires
        0 <= n,
        0 <= m,
        n + m <= s.len(),
    ensures
        s.skip(n).skip(m) == s.skip(n + m),
{
    assert(s.skip(n).skip(m) =~= s.skip(n + m));
}

fn merge_any(acc: AnyValue, s: &[u8], depth: u32) -> (r: Option<AnyValue>)
    ensures
        r is Some <==> any_merged(acc.val(), s@, depth as nat) is Some,
        r matches Some(v) ==> any_merged(acc.val(), s@, depth as nat) == Some(v.val()),
    decreases s@.len(), 1nat,
{
    if s.len() == 0 {
        return Some(acc);
    }
    proof {
        lemma_read_key_bounds(s@);
    }
    let (tag, wire, body) = match take_key(s) {
        Some(k) => k,
        None => {
            return None;
        },
    };
    let ghost n = read_key(s@).unwrap().2 as int;
    let (next, rest) = match merge_any_field(acc, tag, wire, body, depth) {
        Some(x) => x,
        None => {
            return None;
        },
    };
    proof {
        let m = any_field(acc.val(), tag as nat, wire as nat, body@, depth as nat).unwrap().1 as int;
        lemma_skip_skip(s@, n, m);
    }
    merge_any(next, rest, depth)
}

fn merge_any_field(acc: AnyValue, tag: u32, wire: u32, s: &[u8], depth: u32) -> (r: Option<
    (AnyValue, &[u8]),
>)
    ensures
        r is Some <==> any_field(acc.val(), tag as nat, wire as nat, s@, depth as nat) is Some,
        r matches Some((v, rest)) ==> any_field(
            acc.val(),
            tag as nat,
            wire as nat,
            s@,
            depth as nat,
        ) matches Some((w, n)) && w == v.val() && n <= s@.len() && rest@ == s@.skip(n as int),
    decreases s@.len(), 0nat,
{
    proof {
        lemma_read_run_bounds(s@);
        lemma_read_varint_bounds(s@, VARINT_MAX as nat);
        lemma_skipped_bounds(wire as nat, tag as nat, s@, depth as nat);
    }
    if tag == 1 {
        match take_run(s) {
            Some((b, rest)) => {
                if wire != 2 {
                    return None;
                }
                match text_from(b) {
                    Some(t) => Some((AnyValue { value: Some(AnyKind::StringValue(t)) }, rest)),
                    None => None,
                }
            },
            None => None,
        }
    } else if tag == 2 {
        match take_varint(s) {
            Some((v, rest)) => if wire == 0 {
                Some((AnyValue { value: Some(AnyKind::BoolValue(v != 0)) }, rest))
            } else {
                None
            },
            None => None,
        }
    } else if tag == 3 {
        match take_varint(s) {
            Some((v, rest)) => if wire == 0 {
                Some((AnyValue { value: Some(AnyKind::IntValue(to_signed(v))) }, rest))
            } else {
                None
            },
            None => None,
        }
    } else if tag == 4 {
        if wire == 1 && s.len() >= 8 {
            let head = vstd::slice::slice_subrange(s, 0, 8);
            let rest = vstd::slice::slice_subrange(s, 8, s.len());
            assert(head@ =~= s@.take(8));
            assert(rest@ =~= s@.skip(8));
            Some((AnyValue { value: Some(AnyKind::DoubleValue(u64_from_le_bytes(head))) }, rest))
        } else {
            None
        }
    } else if tag == 5 {
        match take_run(s) {
            Some((b, rest)) => {
                if wire != 2 || depth == 0 {
                    return None;
                }
                let ghost was = match acc.val() {
                    Val::Array(vs) => vs,
                    _ => Seq::empty(),
                };
                let start: Vec<AnyValue> = match acc.value {
                    Some(AnyKind::ArrayValue(v)) => v,
                    _ => Vec::new(),
                };
                assert(vals(start@) =~= was);
                match merge_array(start, b, depth - 1) {
                    Some(v) => Some((AnyValue { value: Some(AnyKind::ArrayValue(v)) }, rest)),
                    None => None,
                }
            },
            None => None,
        }
    } else if tag == 6 {
        match take_run(s) {
            Some((b, rest)) => {
                if wire != 2 || depth == 0 {
                    return None;
                }
                let ghost was = match acc.val() {
                    Val::Kvlist(ps) => ps,
                    _ => Seq::empty(),
                };
                let start: Vec<KeyValue> = match acc.value {
                    Some(AnyKind::KvlistValue(v)) => v,
                    _ => Vec::new(),
                };
                assert(pairs(start@) =~= was);
                match merge_kvlist(start, b, depth - 1) {
                    Some(v) => Some((AnyValue { value: Some(AnyKind::KvlistValue(v)) }, rest)),
                    None => None,
                }
            },
            None => None,
        }
    } else if tag == 7 {
        match take_run(s) {
            Some((b, rest)) => if wire == 2 {
                Some(
                    (
                        AnyValue {
                            value: Some(AnyKind::BytesValue(vstd::slice::slice_to_vec(b))),
                        },
                        rest,
                    ),
                )
            } else {
                None
            },
            None => None,
        }
    } else {
        match skip_field(wire, tag, s, depth) {
            Some(rest) => Some((acc, rest)),
            None => None,
        }
    }
}

fn merge_array(acc: Vec<AnyValue>, s: &[u8], depth: u32) -> (r: Option<Vec<AnyValue>>)
    ensures
        r is Some <==> array_merged(vals(acc@), s@, depth as nat) is Some,
        r matches Some(v) ==> array_merged(vals(acc@), s@, depth as nat) == Some(vals(v@)),
    decreases s@.len(), 1nat,
{
    if s.len() == 0 {
        return Some(acc);
    }
    let mut acc = acc;
    proof {
        lemma_read_key_bounds(s@);
    }
    let (tag, wire, body) = match take_key(s) {
        Some(k) => k,
        None => {
            return None;
        },
    };
    let ghost n = read_key(s@).unwrap().2 as int;
    proof {
        lemma_read_run_bounds(body@);
        lemma_skipped_bounds(wire as nat, tag as nat, body@, depth as nat);
    }
    if tag == 1 {
        let (b, rest) = match take_run(body) {
            Some(x) => x,
            None => {
                return None;
            },
        };
        if wire != 2 || depth == 0 {
            return None;
        }
        let v = match merge_any(AnyValue { value: None }, b, depth - 1) {
            Some(v) => v,
            None => {
                return None;
            },
        };
        let ghost was = acc@;
        acc.push(v);
        proof {
            let m = read_run(body@).unwrap().1 as int;
            lemma_skip_skip(s@, n, m);
            assert(acc@.drop_last() =~= was);
        }
        merge_array(acc, rest, depth)
    } else {
        match skip_field(wire, tag, body, depth) {
            Some(rest) => {
                proof {
                    let m = skipped(wire as nat, tag as nat, body@, depth as nat).unwrap() as int;
                    lemma_skip_skip(s@, n, m);
                }
                merge_array(acc, rest, depth)
            },
            None => None,
        }
    }
}

fn merge_kvlist(acc: Vec<KeyValue>, s: &[u8], depth: u32) -> (r: Option<Vec<KeyValue>>)
    ensures
        r is Some <==> kvlist_merged(pairs(acc@), s@, depth as nat) is Some,
        r matches Some(v) ==> kvlist_merged(pairs(acc@), s@, depth as nat) == Some(pairs(v@)),
    decreases s@.len(), 1nat,
{
    if s.len() == 0 {
        return Some(acc);
    }
    let mut acc = acc;
    proof {
        lemma_read_key_bounds(s@);
    }
    let (tag, wire, body) = match take_key(s) {
        Some(k) => k,
        None => {
            return None;
        },
    };
    let ghost n = read_key(s@).unwrap().2 as int;
    proof {
        lemma_read_run_bounds(body@);
        lemma_skipped_bounds(wire as nat, tag as nat, body@, depth as nat);
    }
    if tag == 1 {
        let (b, rest) = match take_run(body) {
            Some(x) => x,
            None => {
                return None;
            },
        };
        if wire != 2 || depth == 0 {
            return None;
        }
        let empty = KeyValue { key: String::new(), value: None };
        let p = match merge_pair(empty, b, depth - 1) {
            Some(p) => p,
            None => {
                return None;
            },
        };
        let ghost was = acc@;
        acc.push(p);
        proof {
            let m = read_run(body@).unwrap().1 as int;
            lemma_skip_skip(s@, n, m);
            assert(acc@.drop_last() =~= was);
        }
        merge_kvlist(acc, rest, depth)
    } else {
        match skip_field(wire, tag, body, depth) {
            Some(rest) => {
                proof {
                    let m = skipped(wire as nat, tag as nat, body@, depth as nat).unwrap() as int;
                    lemma_skip_skip(s@, n, m);
                }
                merge_kvlist(acc, rest, depth)
            },
            None => None,
        }
    }
}

fn merge_pair(acc: KeyValue, s: &[u8], depth: u32) -> (r: Option<KeyValue>)
    ensures
        r is Some <==> pair_merged(acc.pair(), s@, depth as nat) is Some,
        r matches Some(v) ==> pair_merged(acc.pair(), s@, depth as nat) == Some(v.pair()),
    decreases s@.len(), 1nat,
{
    if s.len() == 0 {
        return Some(acc);
    }
    proof {
        lemma_read_key_bounds(s@);
    }
    let (tag, wire, body) = match take_key(s) {
        Some(k) => k,
        None => {
            return None;
        },
    };
    let ghost n = read_key(s@).unwrap().2 as int;
    proof {
        lemma_read_run_bounds(body@);
        lemma_skipped_bounds(wire as nat, tag as nat, body@, depth as nat);
    }
    if tag == 1 {
        let (b, rest) = match take_run(body) {
            Some(x) => x,
            None => {
                return None;
            },
        };
        if wire != 2 {
            return None;
        }
        let key = match text_from(b) {
            Some(t) => t,
            None => {
                return None;
            },
        };
        proof {
            let m = read_run(body@).unwrap().1 as int;
            lemma_skip_skip(s@, n, m);
        }
        merge_pair(KeyValue { key, value: acc.value }, rest, depth)
    } else if tag == 2 {
        let (b, rest) = match take_run(body) {
            Some(x) => x,
            None => {
                return None;
            },
        };
        if wire != 2 || depth == 0 {
            return None;
        }
        let start = match acc.value {
            Some(v) => v,
            None => AnyValue { value: None },
        };
        let v = match merge_any(start, b, depth - 1) {
            Some(v) => v,
            None => {
                return None;
            },
        };
        proof {
            let m = read_run(body@).unwrap().1 as int;
            lemma_skip_skip(s@, n, m);
        }
        merge_pair(KeyValue { key: acc.key, value: Some(v) }, rest, depth)
    } else {
        match skip_field(wire, tag, body, depth) {
            Some(rest) => {
                proof {
                    let m = skipped(wire as nat, tag as nat, body@, depth as nat).unwrap() as int;
                    lemma_skip_skip(s@, n, m);
                }
                merge_pair(acc, rest, depth)
            },
            None => None,
        }
    }
}

/// The value some bytes encode; `None` where they encode none.
pub fn decode_any(bytes: &[u8]) -> (r: Option<AnyValue>)
    ensures
        r is Some <==> decoded(bytes@) is Some,
        r matches Some(v) ==> decoded(bytes@) == Some(v.val()),
{
    merge_any(AnyValue { value: None }, bytes, DEPTH)
}

// ---------------------------------------------------------------------------
// Writing.

/// A length-delimited field.
pub open spec fn run_field(tag: u8, b: Seq<u8>) -> Seq<u8> {
    seq![(tag * 8 + 2) as u8] + varint(b.len()) + b
}

/// The fields of a value: one, or none where there is no value.
pub open spec fn any_bytes(v: Val) -> Seq<u8>
    decreases v,
{
    match v {
        Val::Empty => Seq::empty(),
        Val::Str(s) => run_field(1, encode_utf8(s)),
        Val::Bool(b) => seq![16u8] + varint(if b {
            1
        } else {
            0
        }),
        Val::Int(i) => seq![24u8] + varint(as_pattern(i as int)),
        Val::Double(d) => seq![33u8] + spec_u64_to_le_bytes(d),
        Val::Array(vs) => run_field(5, array_bytes(vs)),
        Val::Kvlist(ps) => run_field(6, kvlist_bytes(ps)),
        Val::Bytes(b) => run_field(7, b),
    }
}

/// The values of an array, one field each.
pub open spec fn array_bytes(vs: Seq<Val>) -> Seq<u8>
    decreases vs,
{
    if vs.len() == 0 {
        Seq::empty()
    } else {
        array_bytes(vs.drop_last()) + run_field(1, any_bytes(vs.last()))
    }
}

/// The pairs of a key-value list, one field each.
pub open spec fn kvlist_bytes(ps: Seq<Pair>) -> Seq<u8>
    decreases ps,
{
    if ps.len() == 0 {
        Seq::empty()
    } else {
        kvlist_bytes(ps.drop_last()) + run_field(1, pair_bytes(ps.last()))
    }
}

/// A key and its value. An empty key and an absent value leave no trace.
pub open spec fn pair_bytes(p: Pair) -> Seq<u8>
    decreases p,
{
    (if p.key.len() == 0 {
        Seq::empty()
    } else {
        run_field(1, encode_utf8(p.key))
    }) + match p.value {
        Some(v) => run_field(2, any_bytes(v)),
        None => Seq::empty(),
    }
}

/// Append a length-delimited field.
pub fn put_run(out: &mut Vec<u8>, tag: u8, b: &[u8])
    requires
        tag < 16,
    ensures
        final(out)@ == old(out)@ + run_field(tag, b@),
{
    out.push(tag * 8 + 2);
    put_varint(out, b.len() as u64);
    append_slice(out, b);
    assert(out@ =~= old(out)@ + run_field(tag, b@));
}

fn append_slice(out: &mut Vec<u8>, b: &[u8])
    ensures
        final(out)@ == old(out)@ + b@,
{
    let mut i: usize = 0;
    while i < b.len()
        invariant
            i <= b@.len(),
            out@ == old(out)@ + b@.take(i as int),
        decreases b@.len() - i,
    {
        out.push(b[i]);
        i = i + 1;
        assert(out@ =~= old(out)@ + b@.take(i as int));
    }
    assert(b@.take(i as int) =~= b@);
}

/// The value as the bytes of its message.
pub fn encode_any(v: &AnyValue) -> (out: Vec<u8>)
    ensures
        out@ == any_bytes(v.val()),
    decreases v,
{
    match &v.value {
        None => Vec::new(),
        Some(k) => encode_kind(k),
    }
}

/// The same, of the value alone.
pub fn encode_kind(k: &AnyKind) -> (out: Vec<u8>)
    ensures
        out@ == any_bytes((AnyValue { value: Some(*k) }).val()),
    decreases k,
{
    let mut out: Vec<u8> = Vec::new();
    match k {
        AnyKind::StringValue(s) => {
            put_run(&mut out, 1, s.as_str().as_bytes());
        },
        AnyKind::BoolValue(b) => {
            out.push(16);
            put_varint(&mut out, if *b {
                1
            } else {
                0
            });
        },
        AnyKind::IntValue(i) => {
            out.push(24);
            put_varint(&mut out, to_pattern(*i));
        },
        AnyKind::DoubleValue(d) => {
            out.push(33);
            let b = u64_to_le_bytes(*d);
            append_slice(&mut out, b.as_slice());
        },
        AnyKind::ArrayValue(v) => {
            let b = encode_array(v);
            put_run(&mut out, 5, b.as_slice());
        },
        AnyKind::KvlistValue(v) => {
            let b = encode_pairs(v);
            put_run(&mut out, 6, b.as_slice());
        },
        AnyKind::BytesValue(b) => {
            put_run(&mut out, 7, b.as_slice());
        },
    }
    assert(out@ =~= any_bytes((AnyValue { value: Some(*k) }).val()));
    out
}

fn encode_array(v: &Vec<AnyValue>) -> (out: Vec<u8>)
    ensures
        out@ == array_bytes(vals(v@)),
    decreases v,
{
    let mut out: Vec<u8> = Vec::new();
    let mut i: usize = 0;
    assert(v@.take(0) =~= Seq::<AnyValue>::empty());
    while i < v.len()
        invariant
            i <= v@.len(),
            out@ == array_bytes(vals(v@.take(i as int))),
            decreases_to!(v => v@),
        decreases v@.len() - i,
    {
        assert(decreases_to!(v@ => v@[i as int]));
        let b = encode_any(&v[i]);
        put_run(&mut out, 1, b.as_slice());
        proof {
            let t = v@.take(i + 1);
            assert(t.drop_last() =~= v@.take(i as int));
            assert(vals(t).drop_last() =~= vals(v@.take(i as int)));
        }
        i = i + 1;
    }
    assert(v@.take(i as int) =~= v@);
    out
}

/// The pairs of a key-value list, one field each.
pub fn encode_pairs(v: &Vec<KeyValue>) -> (out: Vec<u8>)
    ensures
        out@ == kvlist_bytes(pairs(v@)),
    decreases v,
{
    let mut out: Vec<u8> = Vec::new();
    let mut i: usize = 0;
    assert(v@.take(0) =~= Seq::<KeyValue>::empty());
    while i < v.len()
        invariant
            i <= v@.len(),
            out@ == kvlist_bytes(pairs(v@.take(i as int))),
            decreases_to!(v => v@),
        decreases v@.len() - i,
    {
        assert(decreases_to!(v@ => v@[i as int]));
        let b = encode_pair(&v[i]);
        put_run(&mut out, 1, b.as_slice());
        proof {
            let t = v@.take(i + 1);
            assert(t.drop_last() =~= v@.take(i as int));
            assert(pairs(t).drop_last() =~= pairs(v@.take(i as int)));
        }
        i = i + 1;
    }
    assert(v@.take(i as int) =~= v@);
    out
}

/// Pairs as the fields of a message that numbers them `tag`.
pub open spec fn tagged_bytes(tag: u8, ps: Seq<Pair>) -> Seq<u8>
    decreases ps.len(),
{
    if ps.len() == 0 {
        Seq::empty()
    } else {
        tagged_bytes(tag, ps.drop_last()) + run_field(tag, pair_bytes(ps.last()))
    }
}

/// Append pairs as the fields of a message that numbers them `tag`.
pub fn encode_pairs_as(out: &mut Vec<u8>, tag: u8, v: &Vec<KeyValue>)
    requires
        tag < 16,
    ensures
        final(out)@ == old(out)@ + tagged_bytes(tag, pairs(v@)),
{
    let ghost was = out@;
    let mut i: usize = 0;
    assert(v@.take(0) =~= Seq::<KeyValue>::empty());
    assert(was + tagged_bytes(tag, Seq::empty()) =~= was);
    while i < v.len()
        invariant
            i <= v@.len(),
            tag < 16,
            was == old(out)@,
            out@ == was + tagged_bytes(tag, pairs(v@.take(i as int))),
        decreases v@.len() - i,
    {
        let b = encode_pair(&v[i]);
        let ghost before = tagged_bytes(tag, pairs(v@.take(i as int)));
        put_run(out, tag, b.as_slice());
        proof {
            let t = v@.take(i + 1);
            assert(t.drop_last() =~= v@.take(i as int));
            assert(pairs(t).drop_last() =~= pairs(v@.take(i as int)));
            assert(was + before + run_field(tag, b@) =~= was + (before + run_field(tag, b@)));
        }
        i = i + 1;
    }
    assert(v@.take(i as int) =~= v@);
}

fn encode_pair(p: &KeyValue) -> (out: Vec<u8>)
    ensures
        out@ == pair_bytes(p.pair()),
    decreases p,
{
    let mut out: Vec<u8> = Vec::new();
    if !p.key.as_str().is_empty() {
        put_run(&mut out, 1, p.key.as_str().as_bytes());
    }
    if let Some(v) = &p.value {
        let b = encode_any(v);
        put_run(&mut out, 2, b.as_slice());
    }
    assert(out@ =~= pair_bytes(p.pair()));
    out
}

// ---------------------------------------------------------------------------
// What is written reads back.

/// Whether a value nests no deeper than `depth` messages.
pub open spec fn fits(v: Val, depth: nat) -> bool
    decreases v,
{
    match v {
        Val::Array(vs) => depth >= 1 && array_fits(vs, (depth - 1) as nat),
        Val::Kvlist(ps) => depth >= 1 && kvlist_fits(ps, (depth - 1) as nat),
        _ => true,
    }
}

/// Whether the values of an array nest no deeper than `depth` messages.
pub open spec fn array_fits(vs: Seq<Val>, depth: nat) -> bool
    decreases vs,
{
    vs.len() == 0 || (depth >= 1 && fits(vs.last(), (depth - 1) as nat) && array_fits(
        vs.drop_last(),
        depth,
    ))
}

/// Whether the pairs of a list nest no deeper than `depth` messages.
pub open spec fn kvlist_fits(ps: Seq<Pair>, depth: nat) -> bool
    decreases ps,
{
    ps.len() == 0 || (depth >= 1 && pair_fits(ps.last(), (depth - 1) as nat) && kvlist_fits(
        ps.drop_last(),
        depth,
    ))
}

/// Whether a value beside its key nests no deeper than `depth` messages.
pub open spec fn pair_fits(p: Pair, depth: nat) -> bool
    decreases p,
{
    match p.value {
        Some(v) => depth >= 1 && fits(v, (depth - 1) as nat),
        None => true,
    }
}

pub proof fn lemma_run_field_reads(tag: u8, b: Seq<u8>, rest: Seq<u8>)
    requires
        1 <= tag < 16,
        b.len() <= u64::MAX,
    ensures
        read_key(run_field(tag, b) + rest) == Some((tag as nat, 2nat, 1nat)),
        read_run((run_field(tag, b) + rest).skip(1)) == Some(
            (b, (run_field(tag, b).len() - 1) as nat),
        ),
        (run_field(tag, b) + rest).skip(run_field(tag, b).len() as int) == rest,
        run_field(tag, b).len() > b.len() + 1,
{
    let f = run_field(tag, b);
    let s = f + rest;
    let k = (tag * 8 + 2) as nat;
    if k < 128 {
        assert(varint(k) =~= seq![k as u8]);
    }
    assert(s[0] == k);
    reveal_with_fuel(read_varint, 2);
    assert(read_varint(s, 10) == Some((k, 1nat)));
    let r = s.skip(1);
    assert(r =~= varint(b.len()) + (b + rest));
    crate::wire::lemma_varint_round_trip(b.len(), b + rest);
    let n = varint(b.len()).len();
    assert(r.subrange(n as int, (n + b.len()) as int) =~= b);
    assert(s.skip(f.len() as int) =~= rest);
}

proof fn lemma_any_round_trip(v: Val, depth: nat)
    requires
        fits(v, depth),
        any_bytes(v).len() <= u64::MAX,
    ensures
        any_merged(Val::Empty, any_bytes(v), depth) == Some(v),
    decreases v,
{
    let s = any_bytes(v);
    let none = Seq::<u8>::empty();
    assert(s + none =~= s);
    reveal_with_fuel(any_merged, 2);
    match v {
        Val::Empty => {},
        Val::Str(t) => {
            lemma_run_field_reads(1, encode_utf8(t), none);
            vstd::utf8::encode_utf8_valid_utf8(t);
            vstd::utf8::encode_utf8_decode_utf8(t);
        },
        Val::Bool(b) => {
            let n: nat = if b {
                1
            } else {
                0
            };
            crate::wire::lemma_varint_round_trip(n, none);
            assert(varint(n) + none =~= varint(n));
            assert(s.skip(1) =~= varint(n));
            reveal_with_fuel(read_varint, 2);
            assert(read_key(s) == Some((2nat, 0nat, 1nat)));
            assert(s.skip((1 + varint(n).len()) as int) =~= none);
        },
        Val::Int(i) => {
            let n = as_pattern(i as int);
            crate::wire::lemma_varint_round_trip(n, none);
            assert(varint(n) + none =~= varint(n));
            assert(s.skip(1) =~= varint(n));
            reveal_with_fuel(read_varint, 2);
            assert(read_key(s) == Some((3nat, 0nat, 1nat)));
            assert(s.skip((1 + varint(n).len()) as int) =~= none);
        },
        Val::Double(d) => {
            vstd::bytes::lemma_auto_spec_u64_to_from_le_bytes();
            reveal_with_fuel(read_varint, 2);
            assert(read_key(s) == Some((4nat, 1nat, 1nat)));
            assert(s.skip(1).take(8) =~= spec_u64_to_le_bytes(d));
            assert(s.skip(9) =~= none);
        },
        Val::Array(vs) => {
            lemma_run_field_reads(5, array_bytes(vs), none);
            lemma_array_round_trip(Seq::empty(), vs, none, (depth - 1) as nat);
            assert(array_bytes(vs) + none =~= array_bytes(vs));
            assert(Seq::<Val>::empty() + vs =~= vs);
        },
        Val::Kvlist(ps) => {
            lemma_run_field_reads(6, kvlist_bytes(ps), none);
            lemma_kvlist_round_trip(Seq::empty(), ps, none, (depth - 1) as nat);
            assert(kvlist_bytes(ps) + none =~= kvlist_bytes(ps));
            assert(Seq::<Pair>::empty() + ps =~= ps);
        },
        Val::Bytes(b) => {
            lemma_run_field_reads(7, b, none);
        },
    }
}

pub proof fn lemma_array_round_trip(acc: Seq<Val>, vs: Seq<Val>, rest: Seq<u8>, depth: nat)
    requires
        array_fits(vs, depth),
        array_bytes(vs).len() <= u64::MAX,
    ensures
        array_merged(acc, array_bytes(vs) + rest, depth) == array_merged(acc + vs, rest, depth),
    decreases vs,
{
    if vs.len() == 0 {
        assert(array_bytes(vs) + rest =~= rest);
        assert(acc + vs =~= acc);
    } else {
        let t = vs.drop_last();
        let item = any_bytes(vs.last());
        let f = run_field(1, item);
        assert(f.len() > item.len());
        lemma_array_round_trip(acc, t, f + rest, depth);
        assert(array_bytes(vs) + rest =~= array_bytes(t) + (f + rest));
        lemma_run_field_reads(1, item, rest);
        lemma_any_round_trip(vs.last(), (depth - 1) as nat);
        assert((acc + t).push(vs.last()) =~= acc + vs);
    }
}

pub proof fn lemma_kvlist_round_trip(acc: Seq<Pair>, ps: Seq<Pair>, rest: Seq<u8>, depth: nat)
    requires
        kvlist_fits(ps, depth),
        kvlist_bytes(ps).len() <= u64::MAX,
    ensures
        kvlist_merged(acc, kvlist_bytes(ps) + rest, depth) == kvlist_merged(acc + ps, rest, depth),
    decreases ps,
{
    if ps.len() == 0 {
        assert(kvlist_bytes(ps) + rest =~= rest);
        assert(acc + ps =~= acc);
    } else {
        let t = ps.drop_last();
        let item = pair_bytes(ps.last());
        let f = run_field(1, item);
        assert(f.len() > item.len());
        lemma_kvlist_round_trip(acc, t, f + rest, depth);
        assert(kvlist_bytes(ps) + rest =~= kvlist_bytes(t) + (f + rest));
        lemma_run_field_reads(1, item, rest);
        lemma_pair_round_trip(ps.last(), (depth - 1) as nat);
        assert((acc + t).push(ps.last()) =~= acc + ps);
    }
}

pub proof fn lemma_pair_round_trip(p: Pair, depth: nat)
    requires
        pair_fits(p, depth),
        pair_bytes(p).len() <= u64::MAX,
    ensures
        pair_merged(Pair { key: Seq::empty(), value: None }, pair_bytes(p), depth) == Some(p),
    decreases p,
{
    let none = Seq::<u8>::empty();
    let start = Pair { key: Seq::<char>::empty(), value: None::<Val> };
    let tail = match p.value {
        Some(v) => run_field(2, any_bytes(v)),
        None => none,
    };
    let keyed = Pair { key: p.key, value: None::<Val> };
    vstd::utf8::encode_utf8_valid_utf8(p.key);
    vstd::utf8::encode_utf8_decode_utf8(p.key);
    if p.key.len() == 0 {
        assert(pair_bytes(p) =~= tail);
        assert(p.key =~= Seq::<char>::empty());
        assert(keyed == start);
    } else {
        lemma_run_field_reads(1, encode_utf8(p.key), tail);
        assert(pair_merged(start, pair_bytes(p), depth) == pair_merged(keyed, tail, depth));
    }
    match p.value {
        Some(v) => {
            assert(tail + none =~= tail);
            lemma_run_field_reads(2, any_bytes(v), none);
            lemma_any_round_trip(v, (depth - 1) as nat);
            assert(pair_merged(keyed, tail, depth) == pair_merged(p, none, depth));
        },
        None => {},
    }
}

/// A value that is written reads back as itself, as long as it nests no deeper
/// than messages may and its bytes can be counted.
pub proof fn law_any_round_trip(v: Val)
    requires
        fits(v, DEPTH as nat),
        any_bytes(v).len() <= u64::MAX,
    ensures
        decoded(any_bytes(v)) == Some(v),
{
    lemma_any_round_trip(v, DEPTH as nat);
}

} // verus!
