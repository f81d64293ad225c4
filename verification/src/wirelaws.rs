//! How values lie in the bytes of a message, and what a reader makes of fields
//! that come twice or that it does not know.

use crate::otlp::{Pair, Val};
use crate::proto::{
    any_bytes, any_field, any_merged, array_bytes, array_fits, array_merged, as_pattern,
    kvlist_bytes, kvlist_fits, kvlist_merged, lemma_array_round_trip, lemma_kvlist_round_trip,
    lemma_run_field_reads, pair_bytes, run_field,
};
use crate::wire::{lemma_varint_round_trip, read_key, read_run, read_varint, skipped, varint};
use vstd::bytes::spec_u64_to_le_bytes;
use vstd::prelude::*;
use vstd::utf8::encode_utf8;

verus! {

/// A run of bytes behind a key: its length, and the bytes.
pub open spec fn is_run(s: Seq<u8>, key: u8, b: Seq<u8>) -> bool {
    &&& s.len() > 0
    &&& s[0] == key
    &&& s.skip(1) == varint(b.len()) + b
}

proof fn lemma_is_run(tag: u8, b: Seq<u8>)
    requires
        1 <= tag < 16,
    ensures
        is_run(run_field(tag, b), (8 * tag + 2) as u8, b),
{
    assert(run_field(tag, b).skip(1) =~= varint(b.len()) + b);
}

/// A value is written as one field: a text under the first number, a truth
/// value under the second, an integer under the third, a double under the
/// fourth, an array, a list of pairs and bytes under those that follow. What is
/// negative is written as its 64 bits, and a double low byte first.
pub proof fn law_a_value_lies_under_its_number(v: Val)
    ensures
        match v {
            Val::Empty => any_bytes(v).len() == 0,
            Val::Str(t) => is_run(any_bytes(v), 0x0a, encode_utf8(t)),
            Val::Bool(b) => any_bytes(v) == seq![
                0x10u8,
                if b {
                    1
                } else {
                    0
                },
            ],
            Val::Int(i) => any_bytes(v).len() > 0 && any_bytes(v)[0] == 0x18 && any_bytes(v).skip(1)
                == varint(
                if i < 0 {
                    (0x1_0000_0000_0000_0000 + i) as nat
                } else {
                    i as nat
                },
            ),
            Val::Double(d) => any_bytes(v).len() == 9 && any_bytes(v)[0] == 0x21 && any_bytes(
                v,
            ).skip(1) == spec_u64_to_le_bytes(d),
            Val::Array(vs) => is_run(any_bytes(v), 0x2a, array_bytes(vs)),
            Val::Kvlist(ps) => is_run(any_bytes(v), 0x32, kvlist_bytes(ps)),
            Val::Bytes(b) => is_run(any_bytes(v), 0x3a, b),
        },
{
    vstd::bytes::lemma_auto_spec_u64_to_from_le_bytes();
    match v {
        Val::Empty => {},
        Val::Str(t) => {
            lemma_is_run(1, encode_utf8(t));
        },
        Val::Bool(b) => {
            assert(any_bytes(v) =~= seq![
                0x10u8,
                if b {
                    1
                } else {
                    0
                },
            ]);
        },
        Val::Int(i) => {
            assert(any_bytes(v).skip(1) =~= varint(as_pattern(i as int)));
        },
        Val::Double(d) => {
            assert(any_bytes(v).skip(1) =~= spec_u64_to_le_bytes(d));
        },
        Val::Array(vs) => {
            lemma_is_run(5, array_bytes(vs));
        },
        Val::Kvlist(ps) => {
            lemma_is_run(6, kvlist_bytes(ps));
        },
        Val::Bytes(b) => {
            lemma_is_run(7, b);
        },
    }
}

/// The values of an array are runs one after another, and so are the pairs of a
/// list; a pair is its key, where it has one, and its value, where there is one.
pub proof fn law_what_is_nested_lies_in_runs(vs: Seq<Val>, v: Val, ps: Seq<Pair>, p: Pair) -> (r: (
    Seq<u8>,
    Seq<u8>,
))
    ensures
        array_bytes(vs.push(v)) == array_bytes(vs) + r.0,
        is_run(r.0, 0x0a, any_bytes(v)),
        kvlist_bytes(ps.push(p)) == kvlist_bytes(ps) + r.1,
        is_run(r.1, 0x0a, pair_bytes(p)),
        p.key.len() == 0 && p.value is None ==> pair_bytes(p).len() == 0,
        p.key.len() > 0 && p.value is None ==> is_run(pair_bytes(p), 0x0a, encode_utf8(p.key)),
        p.key.len() == 0 && p.value is Some ==> is_run(pair_bytes(p), 0x12, any_bytes(p.value->0)),
        p.key.len() > 0 && p.value is Some ==> exists|a: Seq<u8>, b: Seq<u8>|
            pair_bytes(p) == a + b && #[trigger] is_run(a, 0x0a, encode_utf8(p.key))
                && #[trigger] is_run(b, 0x12, any_bytes(p.value->0)),
{
    let a = run_field(1, any_bytes(v));
    let b = run_field(1, pair_bytes(p));
    lemma_is_run(1, any_bytes(v));
    lemma_is_run(1, pair_bytes(p));
    assert(vs.push(v).drop_last() =~= vs);
    assert(ps.push(p).drop_last() =~= ps);
    lemma_is_run(1, encode_utf8(p.key));
    let none = Seq::<u8>::empty();
    match p.value {
        None => {
            if p.key.len() > 0 {
                assert(pair_bytes(p) =~= run_field(1, encode_utf8(p.key)));
            }
        },
        Some(w) => {
            lemma_is_run(2, any_bytes(w));
            if p.key.len() == 0 {
                assert(pair_bytes(p) =~= run_field(2, any_bytes(w)));
            } else {
                assert(pair_bytes(p) == run_field(1, encode_utf8(p.key)) + run_field(
                    2,
                    any_bytes(w),
                ));
            }
        },
    }
    (a, b)
}

proof fn lemma_one_field(acc: Val, s: Seq<u8>, tag: nat, wire: nat, n: nat, next: Val, m: nat, depth: nat)
    requires
        read_key(s) == Some((tag, wire, n)),
        0 < n,
        n + m <= s.len(),
        any_field(acc, tag, wire, s.skip(n as int), depth) == Some((next, m)),
    ensures
        any_merged(acc, s, depth) == any_merged(next, s.skip((n + m) as int), depth),
{
    reveal_with_fuel(any_merged, 2);
}

/// Of a value that is sent twice the later one counts, whatever came before.
pub proof fn law_a_later_value_counts(acc: Val, v: Val, rest: Seq<u8>, depth: nat)
    requires
        v is Str || v is Bool || v is Int || v is Double || v is Bytes,
        any_bytes(v).len() <= u64::MAX,
    ensures
        any_merged(acc, any_bytes(v) + rest, depth) == any_merged(v, rest, depth),
{
    let s = any_bytes(v) + rest;
    match v {
        Val::Str(t) => {
            let b = encode_utf8(t);
            lemma_run_field_reads(1, b, rest);
            vstd::utf8::encode_utf8_valid_utf8(t);
            vstd::utf8::encode_utf8_decode_utf8(t);
            lemma_one_field(acc, s, 1, 2, 1, v, (run_field(1, b).len() - 1) as nat, depth);
        },
        Val::Bool(b) => {
            let n: nat = if b {
                1
            } else {
                0
            };
            lemma_varint_round_trip(n, rest);
            assert(s.skip(1) =~= varint(n) + rest);
            reveal_with_fuel(read_varint, 2);
            assert(read_key(s) == Some((2nat, 0nat, 1nat)));
            assert(s.skip((1 + varint(n).len()) as int) =~= rest);
            lemma_one_field(acc, s, 2, 0, 1, v, varint(n).len(), depth);
        },
        Val::Int(i) => {
            let n = as_pattern(i as int);
            lemma_varint_round_trip(n, rest);
            assert(s.skip(1) =~= varint(n) + rest);
            reveal_with_fuel(read_varint, 2);
            assert(read_key(s) == Some((3nat, 0nat, 1nat)));
            assert(s.skip((1 + varint(n).len()) as int) =~= rest);
            lemma_one_field(acc, s, 3, 0, 1, v, varint(n).len(), depth);
        },
        Val::Double(d) => {
            vstd::bytes::lemma_auto_spec_u64_to_from_le_bytes();
            reveal_with_fuel(read_varint, 2);
            assert(read_key(s) == Some((4nat, 1nat, 1nat)));
            assert(s.skip(1).take(8) =~= spec_u64_to_le_bytes(d));
            assert(s.skip(9) =~= rest);
            lemma_one_field(acc, s, 4, 1, 1, v, 8, depth);
        },
        Val::Bytes(b) => {
            lemma_run_field_reads(7, b, rest);
            lemma_one_field(acc, s, 7, 2, 1, v, (run_field(7, b).len() - 1) as nat, depth);
        },
        _ => {},
    }
}

proof fn lemma_arrays_joined(vs: Seq<Val>, ws: Seq<Val>, rest: Seq<u8>, depth: nat)
    requires
        depth > 0,
        array_fits(ws, (depth - 1) as nat),
        array_bytes(ws).len() <= u64::MAX,
    ensures
        any_merged(Val::Array(vs), any_bytes(Val::Array(ws)) + rest, depth) == any_merged(
            Val::Array(vs + ws),
            rest,
            depth,
        ),
{
    let none = Seq::<u8>::empty();
    let b = array_bytes(ws);
    let n = run_field(5, b).len();
    lemma_run_field_reads(5, b, rest);
    lemma_array_round_trip(vs, ws, none, (depth - 1) as nat);
    assert(b + none =~= b);
    assert(array_merged(vs, b, (depth - 1) as nat) == Some(vs + ws));
    lemma_one_field(
        Val::Array(vs),
        run_field(5, b) + rest,
        5,
        2,
        1,
        Val::Array(vs + ws),
        (n - 1) as nat,
        depth,
    );
}

proof fn lemma_lists_joined(ps: Seq<Pair>, qs: Seq<Pair>, rest: Seq<u8>, depth: nat)
    requires
        depth > 0,
        kvlist_fits(qs, (depth - 1) as nat),
        kvlist_bytes(qs).len() <= u64::MAX,
    ensures
        any_merged(Val::Kvlist(ps), any_bytes(Val::Kvlist(qs)) + rest, depth) == any_merged(
            Val::Kvlist(ps + qs),
            rest,
            depth,
        ),
{
    let none = Seq::<u8>::empty();
    let b = kvlist_bytes(qs);
    let n = run_field(6, b).len();
    lemma_run_field_reads(6, b, rest);
    lemma_kvlist_round_trip(ps, qs, none, (depth - 1) as nat);
    assert(b + none =~= b);
    assert(kvlist_merged(ps, b, (depth - 1) as nat) == Some(ps + qs));
    lemma_one_field(
        Val::Kvlist(ps),
        run_field(6, b) + rest,
        6,
        2,
        1,
        Val::Kvlist(ps + qs),
        (n - 1) as nat,
        depth,
    );
}

/// Two arrays that are sent one after the other are one, and so are two lists of
/// pairs.
pub proof fn law_arrays_and_lists_are_joined(
    vs: Seq<Val>,
    ws: Seq<Val>,
    ps: Seq<Pair>,
    qs: Seq<Pair>,
    rest: Seq<u8>,
    depth: nat,
)
    requires
        depth > 0,
        array_fits(ws, (depth - 1) as nat),
        kvlist_fits(qs, (depth - 1) as nat),
        array_bytes(ws).len() <= u64::MAX,
        kvlist_bytes(qs).len() <= u64::MAX,
    ensures
        any_merged(Val::Array(vs), any_bytes(Val::Array(ws)) + rest, depth) == any_merged(
            Val::Array(vs + ws),
            rest,
            depth,
        ),
        any_merged(Val::Kvlist(ps), any_bytes(Val::Kvlist(qs)) + rest, depth) == any_merged(
            Val::Kvlist(ps + qs),
            rest,
            depth,
        ),
{
    lemma_arrays_joined(vs, ws, rest, depth);
    lemma_lists_joined(ps, qs, rest, depth);
}

/// What a field of no interest holds, by its wire type: a number, eight bytes, a
/// run, or four bytes.
pub open spec fn is_payload(wire: nat, s: Seq<u8>) -> bool {
    ||| wire == 0 && exists|n: nat| n <= u64::MAX && s == #[trigger] varint(n)
    ||| wire == 1 && s.len() == 8
    ||| wire == 2 && exists|b: Seq<u8>| b.len() <= u64::MAX && s == #[trigger] counted(b)
    ||| wire == 5 && s.len() == 4
}

/// Bytes behind their count.
pub open spec fn counted(b: Seq<u8>) -> Seq<u8> {
    varint(b.len()) + b
}

/// A field whose number is none of a value's is passed over, whatever it holds.
pub proof fn law_unknown_fields_are_passed_over(
    acc: Val,
    tag: nat,
    wire: nat,
    payload: Seq<u8>,
    rest: Seq<u8>,
    depth: nat,
)
    requires
        7 < tag < 0x2000_0000,
        is_payload(wire, payload),
        depth > 0,
    ensures
        any_merged(acc, varint(8 * tag + wire) + payload + rest, depth) == any_merged(
            acc,
            rest,
            depth,
        ),
{
    let k = 8 * tag + wire;
    let s = varint(k) + payload + rest;
    let tail = payload + rest;
    assert(s =~= varint(k) + tail);
    lemma_varint_round_trip(k, tail);
    let n = varint(k).len();
    assert(read_key(s) == Some((tag, wire, n)));
    assert(s.skip(n as int) =~= tail);
    if wire == 0 {
        let m = choose|m: nat| m <= u64::MAX && payload == #[trigger] varint(m);
        lemma_varint_round_trip(m, rest);
    } else if wire == 2 {
        let b = choose|b: Seq<u8>| b.len() <= u64::MAX && payload == #[trigger] counted(b);
        assert(tail =~= varint(b.len()) + (b + rest));
        lemma_varint_round_trip(b.len(), b + rest);
        assert(read_run(tail) is Some);
    }
    assert(skipped(wire, tag, tail, depth) == Some(payload.len()));
    assert(s.skip((n + payload.len()) as int) =~= rest);
    lemma_one_field(acc, s, tag, wire, n, acc, payload.len(), depth);
}

} // verus!
