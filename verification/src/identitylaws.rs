//! Which attributes identify a resource, key by key.

use crate::identity::{
    found, identity_bytes, identity_from, identity_of, key_bytes, key_of_bytes, keys_bytes,
    optional_keys, qualifies, required_keys, value_bytes, CANDIDATES, NO_IDENTITY,
};
use crate::order::{lemma_utf8_injective, utf8};
use crate::otlp::{Pair, Val};
use vstd::prelude::*;

verus! {

/// Whether an attribute of the key is present.
pub open spec fn has(ps: Seq<Pair>, key: Seq<char>) -> bool {
    exists|i: int| 0 <= i < ps.len() && (#[trigger] ps[i]).key == key
}

/// The text under the first attribute of a key is this one.
pub open spec fn says(ps: Seq<Pair>, key: Seq<char>, text: Seq<char>) -> bool {
    exists|i: int| #[trigger] says_at(ps, key, text, i)
}

/// The first attribute of the key stands at `i` and is this text.
pub open spec fn says_at(ps: Seq<Pair>, key: Seq<char>, text: Seq<char>, i: int) -> bool {
    &&& 0 <= i < ps.len()
    &&& ps[i].key == key
    &&& ps[i].value == Some(Val::Str(text))
    &&& forall|j: int| 0 <= j < i ==> (#[trigger] ps[j]).key != key
}

/// The level a resource is identified at: the most specific of the six whose
/// attributes it has. Six where it has none.
pub open spec fn level(ps: Seq<Pair>) -> int {
    if has(ps, "service.name"@) && has(ps, "service.instance.id"@) {
        0
    } else if has(ps, "k8s.pod.uid"@) {
        1
    } else if has(ps, "container.id"@) {
        2
    } else if has(ps, "host.id"@) {
        3
    } else if has(ps, "host.name"@) {
        4
    } else if has(ps, "service.name"@) {
        5
    } else {
        6
    }
}

/// The attributes that identify a resource at a level.
pub open spec fn level_keys(n: int) -> Seq<Seq<char>> {
    if n == 0 {
        seq!["service.name"@, "service.instance.id"@, "service.namespace"@]
    } else if n == 1 {
        seq!["k8s.pod.uid"@, "k8s.container.name"@]
    } else if n == 2 {
        seq!["container.id"@]
    } else if n == 3 {
        seq!["host.id"@, "process.pid"@]
    } else if n == 4 {
        seq!["host.name"@, "process.pid"@]
    } else if n == 5 {
        seq!["service.name"@, "service.namespace"@]
    } else {
        Seq::empty()
    }
}

/// What a resource has of the attributes of a level are texts without a zero
/// character.
pub open spec fn plain(ps: Seq<Pair>, n: int) -> bool {
    forall|k: int|
        0 <= k < level_keys(n).len() && has(ps, #[trigger] level_keys(n)[k]) ==> exists|t: Seq<char>|
            #[trigger] says(ps, level_keys(n)[k], t) && !t.contains('\0')
}

proof fn lemma_found(ps: Seq<Pair>, key: Seq<char>)
    ensures
        found(ps, key) is Some <==> has(ps, key),
        forall|t: Seq<char>| #[trigger]
            says(ps, key, t) <==> found(ps, key) == Some(Some(Val::Str(t))),
    decreases ps.len(),
{
    if ps.len() > 0 {
        let rest = ps.skip(1);
        lemma_found(rest, key);
        if has(rest, key) {
            let i = choose|i: int| 0 <= i < rest.len() && (#[trigger] rest[i]).key == key;
            assert(ps[i + 1].key == key);
        }
        if has(ps, key) && ps[0].key != key {
            let i = choose|i: int| 0 <= i < ps.len() && (#[trigger] ps[i]).key == key;
            assert(rest[i - 1].key == key);
        }
        assert forall|t: Seq<char>| #[trigger] says(ps, key, t) <==> found(ps, key) == Some(
            Some(Val::Str(t)),
        ) by {
            if ps[0].key == key {
                if ps[0].value == Some(Val::Str(t)) {
                    assert(says_at(ps, key, t, 0));
                }
                if says(ps, key, t) {
                    let i = choose|i: int| #[trigger] says_at(ps, key, t, i);
                    if i > 0 {
                        assert(ps[0].key != key);
                    }
                }
            } else {
                if says(rest, key, t) {
                    let i = choose|i: int| #[trigger] says_at(rest, key, t, i);
                    assert forall|j: int| 0 <= j < i + 1 implies (#[trigger] ps[j]).key != key by {
                        if j > 0 {
                            assert(rest[j - 1].key != key);
                        }
                    }
                    assert(says_at(ps, key, t, i + 1));
                }
                if says(ps, key, t) {
                    let i = choose|i: int| #[trigger] says_at(ps, key, t, i);
                    assert forall|j: int| 0 <= j < i - 1 implies (#[trigger] rest[j]).key != key by {
                        assert(ps[j + 1].key != key);
                    }
                    assert(says_at(rest, key, t, i - 1));
                }
            }
        }
    } else {
        assert forall|t: Seq<char>| #[trigger] says(ps, key, t) implies false by {
            let i = choose|i: int| #[trigger] says_at(ps, key, t, i);
        }
    }
}

/// The bytes that identify a resource, at the level it is identified at.
pub open spec fn hashed(ps: Seq<Pair>) -> Seq<u8> {
    identity_bytes(ps, level(ps))
}

proof fn lemma_level(ps: Seq<Pair>)
    ensures
        level(ps) == 6 ==> identity_of(ps) == NO_IDENTITY,
        level(ps) < 6 ==> identity_of(ps) == key_of_bytes(hashed(ps)),
        forall|n: int| 0 <= n < 6 ==> #[trigger] level_keys(n) == required_keys(n) + optional_keys(n),
{
    reveal_with_fuel(identity_from, 8);
    assert forall|n: int| 0 <= n < 6 implies #[trigger] level_keys(n) == required_keys(n)
        + optional_keys(n) by {
        assert(level_keys(n) =~= required_keys(n) + optional_keys(n));
    }
    lemma_found(ps, "service.name"@);
    lemma_found(ps, "service.instance.id"@);
    lemma_found(ps, "k8s.pod.uid"@);
    lemma_found(ps, "container.id"@);
    lemma_found(ps, "host.id"@);
    lemma_found(ps, "host.name"@);
    assert(qualifies(ps, 0) <==> has(ps, "service.name"@) && has(ps, "service.instance.id"@)) by {
        assert(required_keys(0)[0] == "service.name"@ && required_keys(0)[1]
            == "service.instance.id"@);
    }
    assert(qualifies(ps, 1) <==> has(ps, "k8s.pod.uid"@)) by {
        assert(required_keys(1)[0] == "k8s.pod.uid"@);
    }
    assert(qualifies(ps, 2) <==> has(ps, "container.id"@)) by {
        assert(required_keys(2)[0] == "container.id"@);
    }
    assert(qualifies(ps, 3) <==> has(ps, "host.id"@)) by {
        assert(required_keys(3)[0] == "host.id"@);
    }
    assert(qualifies(ps, 4) <==> has(ps, "host.name"@)) by {
        assert(required_keys(4)[0] == "host.name"@);
    }
    assert(qualifies(ps, 5) <==> has(ps, "service.name"@)) by {
        assert(required_keys(5)[0] == "service.name"@);
    }
}

/// A resource that has the attributes of no level has no identity. One that has
/// those of a level has the hash of what identifies it there, and never the
/// sentinel.
pub proof fn law_the_most_specific_level_identifies(ps: Seq<Pair>)
    ensures
        level(ps) == 6 <==> identity_of(ps) == 0,
        level(ps) < 6 ==> identity_of(ps) == key_of_bytes(hashed(ps)),
{
    lemma_level(ps);
}

// ---------------------------------------------------------------------------
// Bytes without a zero, and what they are marked off by.

spec fn zero_free(b: Seq<u8>) -> bool {
    forall|i: int| 0 <= i < b.len() ==> #[trigger] b[i] != 0
}

spec fn closed_off(b: Seq<u8>) -> bool {
    b.len() == 0 || b.last() == 0
}

proof fn lemma_scalar_zero_free(c: u32)
    requires
        c != 0,
    ensures
        zero_free(vstd::utf8::encode_scalar(c)),
{
    lemma_scalar(c);
}

proof fn lemma_scalar(c: u32)
    requires
        c != 0,
    ensures
        vstd::utf8::has_width_1_encoding(c) ==> vstd::utf8::leading_byte_width_1(c) != 0,
        vstd::utf8::leading_byte_width_2(c) != 0,
        vstd::utf8::leading_byte_width_3(c) != 0,
        vstd::utf8::leading_byte_width_4(c) != 0,
        vstd::utf8::last_continuation_byte(c) != 0,
        vstd::utf8::second_last_continuation_byte(c) != 0,
        vstd::utf8::third_last_continuation_byte(c) != 0,
{
    assert(0 < c <= 0x7f ==> (c & 0x7f) as u8 != 0) by (bit_vector);
    assert(0xc0u8 | ((c >> 6) & 0x1f) as u8 != 0) by (bit_vector);
    assert(0xe0u8 | ((c >> 12) & 0x0f) as u8 != 0) by (bit_vector);
    assert(0xf0u8 | ((c >> 18) & 0x07) as u8 != 0) by (bit_vector);
    assert(0x80u8 | (c & 0x3f) as u8 != 0) by (bit_vector);
    assert(0x80u8 | ((c >> 6) & 0x3f) as u8 != 0) by (bit_vector);
    assert(0x80u8 | ((c >> 12) & 0x3f) as u8 != 0) by (bit_vector);
}

proof fn lemma_text_zero_free(s: Seq<char>)
    requires
        !s.contains('\0'),
    ensures
        zero_free(utf8(s)),
    decreases s.len(),
{
    if s.len() > 0 {
        let rest = s.drop_first();
        assert(s.contains(s[0]));
        assert(!rest.contains('\0')) by {
            if rest.contains('\0') {
                assert(s[rest.index_of('\0') + 1] == '\0');
            }
        }
        lemma_text_zero_free(rest);
        vstd::utf8::char_u32_cast(s[0], s[0] as u32);
        lemma_scalar_zero_free(s[0] as u32);
        let (a, b) = (vstd::utf8::encode_scalar(s[0] as u32), utf8(rest));
        assert(utf8(s) == a + b);
        assert forall|i: int| 0 <= i < utf8(s).len() implies #[trigger] utf8(s)[i] != 0 by {
            if i < a.len() {
                assert(a[i] != 0);
            } else {
                assert(b[i - a.len()] != 0);
            }
        }
    }
}

proof fn lemma_strip(x: Seq<u8>, u: Seq<u8>, y: Seq<u8>, w: Seq<u8>)
    requires
        closed_off(x),
        closed_off(y),
        zero_free(u),
        zero_free(w),
        x + u + seq![0u8] == y + w + seq![0u8],
    ensures
        x == y,
        u == w,
{
    let a = x + u + seq![0u8];
    let b = y + w + seq![0u8];
    assert(a.len() == x.len() + u.len() + 1);
    assert(b.len() == y.len() + w.len() + 1);
    if x.len() > y.len() {
        assert(a[x.len() - 1] == 0);
        assert(b[x.len() - 1] == w[x.len() - 1 - y.len()]);
    }
    if y.len() > x.len() {
        assert(b[y.len() - 1] == 0);
        assert(a[y.len() - 1] == u[y.len() - 1 - x.len()]);
    }
    assert(x =~= a.take(x.len() as int));
    assert(y =~= b.take(y.len() as int));
    assert(u =~= a.subrange(x.len() as int, a.len() - 1));
    assert(w =~= b.subrange(y.len() as int, b.len() - 1));
}

/// What is there of several keys contributes no zero byte.
spec fn marked_off(ps: Seq<Pair>, keys: Seq<Seq<char>>) -> bool {
    &&& forall|k: int| 0 <= k < keys.len() ==> !(#[trigger] keys[k]).contains('\0')
    &&& forall|k: int|
        0 <= k < keys.len() ==> (found(ps, #[trigger] keys[k]) matches Some(v) ==> zero_free(
            value_bytes(v),
        ))
}

proof fn lemma_shorter(ps: Seq<Pair>, keys: Seq<Seq<char>>)
    requires
        keys.len() > 0,
        marked_off(ps, keys),
    ensures
        marked_off(ps, keys.drop_last()),
{
    let t = keys.drop_last();
    assert(forall|k: int| 0 <= k < t.len() ==> (#[trigger] t[k]) == keys[k]);
}

proof fn lemma_closed_off(ps: Seq<Pair>, keys: Seq<Seq<char>>)
    ensures
        closed_off(keys_bytes(ps, keys)),
    decreases keys.len(),
{
    if keys.len() > 0 {
        lemma_closed_off(ps, keys.drop_last());
        let a = keys_bytes(ps, keys.drop_last());
        let b = key_bytes(ps, keys.last());
        if b.len() == 0 {
            assert(a + b =~= a);
        } else {
            assert((a + b).last() == b.last());
        }
    }
}

/// The last key that is there, with what stands before it.
proof fn lemma_last_there(ps: Seq<Pair>, keys: Seq<Seq<char>>) -> (j: int)
    requires
        keys_bytes(ps, keys).len() > 0,
    ensures
        0 <= j < keys.len(),
        found(ps, keys[j]) is Some,
        keys_bytes(ps, keys) == keys_bytes(ps, keys.take(j)) + key_bytes(ps, keys[j]),
    decreases keys.len(),
{
    if keys.len() == 0 {
        0
    } else if found(ps, keys.last()) is Some {
        assert(keys.take(keys.len() - 1) =~= keys.drop_last());
        keys.len() - 1
    } else {
        let t = keys.drop_last();
        assert(keys_bytes(ps, t) + Seq::<u8>::empty() =~= keys_bytes(ps, t));
        let j = lemma_last_there(ps, t);
        assert(t.take(j) =~= keys.take(j));
        j
    }
}

/// The key and the value that closed-off bytes end in.
proof fn lemma_tail(x: Seq<u8>, k: Seq<char>, u: Seq<u8>, y: Seq<u8>, m: Seq<char>, w: Seq<u8>)
    requires
        closed_off(x),
        closed_off(y),
        !k.contains('\0'),
        !m.contains('\0'),
        zero_free(u),
        zero_free(w),
        x + (utf8(k) + seq![0u8] + u + seq![0u8]) == y + (utf8(m) + seq![0u8] + w + seq![0u8]),
    ensures
        x == y,
        k == m,
        u == w,
{
    lemma_text_zero_free(k);
    lemma_text_zero_free(m);
    let a = x + utf8(k) + seq![0u8];
    let b = y + utf8(m) + seq![0u8];
    assert(x + (utf8(k) + seq![0u8] + u + seq![0u8]) =~= a + u + seq![0u8]);
    assert(y + (utf8(m) + seq![0u8] + w + seq![0u8]) =~= b + w + seq![0u8]);
    assert(a.last() == 0 && b.last() == 0);
    lemma_strip(a, u, b, w);
    lemma_strip(x, utf8(k), y, utf8(m));
    lemma_utf8_injective(k, m);
}

/// What a key contributes, where it is there.
pub open spec fn contribution(ps: Seq<Pair>, key: Seq<char>) -> Option<Seq<u8>> {
    match found(ps, key) {
        Some(v) => Some(value_bytes(v)),
        None => None,
    }
}

proof fn lemma_bytes_tell(ps: Seq<Pair>, qs: Seq<Pair>, keys: Seq<Seq<char>>)
    requires
        marked_off(ps, keys),
        marked_off(qs, keys),
        keys.no_duplicates(),
        keys_bytes(ps, keys) == keys_bytes(qs, keys),
    ensures
        forall|k: int|
            0 <= k < keys.len() ==> contribution(ps, #[trigger] keys[k]) == contribution(
                qs,
                keys[k],
            ),
    decreases keys.len(),
{
    if keys.len() > 0 {
        let t = keys.drop_last();
        let last = keys[keys.len() - 1];
        lemma_shorter(ps, keys);
        lemma_shorter(qs, keys);
        lemma_closed_off(ps, t);
        lemma_closed_off(qs, t);
        let (a, b) = (found(ps, last) is Some, found(qs, last) is Some);
        if a && b {
            let u = value_bytes(found(ps, last)->0);
            let w = value_bytes(found(qs, last)->0);
            lemma_tail(keys_bytes(ps, t), last, u, keys_bytes(qs, t), last, w);
        } else if a {
            lemma_one_sided(ps, qs, keys);
        } else if b {
            lemma_one_sided(qs, ps, keys);
        } else {
            assert(keys_bytes(ps, t) + Seq::<u8>::empty() =~= keys_bytes(ps, t));
            assert(keys_bytes(qs, t) + Seq::<u8>::empty() =~= keys_bytes(qs, t));
        }
        assert(t.no_duplicates());
        lemma_bytes_tell(ps, qs, t);
        assert forall|k: int| 0 <= k < keys.len() implies contribution(ps, #[trigger] keys[k])
            == contribution(qs, keys[k]) by {
            if k < t.len() {
                assert(t[k] == keys[k]);
            }
        }
    }
}

/// The last key cannot be there on one side only.
proof fn lemma_one_sided(ps: Seq<Pair>, qs: Seq<Pair>, keys: Seq<Seq<char>>)
    requires
        keys.len() > 0,
        marked_off(ps, keys),
        marked_off(qs, keys),
        keys.no_duplicates(),
        keys_bytes(ps, keys) == keys_bytes(qs, keys),
        found(ps, keys.last()) is Some,
    ensures
        found(qs, keys.last()) is Some,
{
    let t = keys.drop_last();
    let last = keys[keys.len() - 1];
    let u = value_bytes(found(ps, last)->0);
    assert(keys_bytes(ps, keys).len() > 0) by {
        assert(keys_bytes(ps, keys).last() == 0);
    }
    let j = lemma_last_there(qs, keys);
    let w = value_bytes(found(qs, keys[j])->0);
    lemma_closed_off(ps, t);
    lemma_closed_off(qs, keys.take(j));
    lemma_tail(keys_bytes(ps, t), last, u, keys_bytes(qs, keys.take(j)), keys[j], w);
    assert(j == keys.len() - 1);
}

proof fn lemma_level_keys(n: int)
    requires
        0 <= n < 6,
    ensures
        level_keys(n).no_duplicates(),
        forall|k: int| 0 <= k < level_keys(n).len() ==> !(#[trigger] level_keys(n)[k]).contains('\0'),
{
    reveal_strlit("service.name");
    reveal_strlit("service.instance.id");
    reveal_strlit("service.namespace");
    reveal_strlit("k8s.pod.uid");
    reveal_strlit("k8s.container.name");
    reveal_strlit("container.id");
    reveal_strlit("host.id");
    reveal_strlit("host.name");
    reveal_strlit("process.pid");
    assert("service.name"@.len() == 12 && "service.instance.id"@.len() == 19
        && "service.namespace"@.len() == 17);
    assert("k8s.pod.uid"@.len() == 11 && "k8s.container.name"@.len() == 18);
    assert("host.id"@.len() == 7 && "host.name"@.len() == 9 && "process.pid"@.len() == 11);
}

/// What the attributes of a level contribute holds no zero byte: what marks one
/// off from the next.
pub open spec fn is_marked_off(ps: Seq<Pair>, n: int) -> bool {
    forall|k: int, i: int|
        0 <= k < level_keys(n).len() && #[trigger] contribution(ps, level_keys(n)[k]) is Some && 0
            <= i < contribution(ps, level_keys(n)[k])->0.len() ==> (#[trigger] contribution(
            ps,
            level_keys(n)[k],
        )->0[i]) != 0
}

/// Two resources identified at one level hash different bytes wherever one of
/// the attributes that identify there is present in one of them only, or
/// contributes other bytes in one than in the other: those of a text as it
/// stands, those of its message for any other value.
pub proof fn law_what_is_contributed_tells_apart(ps: Seq<Pair>, qs: Seq<Pair>, k: int)
    requires
        level(ps) == level(qs),
        level(ps) < 6,
        is_marked_off(ps, level(ps)),
        is_marked_off(qs, level(qs)),
        0 <= k < level_keys(level(ps)).len(),
        contribution(ps, level_keys(level(ps))[k]) != contribution(qs, level_keys(level(ps))[k]),
    ensures
        identity_of(ps) == key_of_bytes(hashed(ps)),
        identity_of(qs) == key_of_bytes(hashed(qs)),
        hashed(ps) != hashed(qs),
{
    let n = level(ps);
    let keys = level_keys(n);
    lemma_level(ps);
    lemma_level(qs);
    lemma_level_keys(n);
    assert(keys == required_keys(n) + optional_keys(n));
    lemma_marked_off(ps, n);
    lemma_marked_off(qs, n);
    if hashed(ps) == hashed(qs) {
        let (a, b) = (keys_bytes(ps, keys), keys_bytes(qs, keys));
        assert(a =~= (seq![n as u8] + a).skip(1));
        assert(b =~= (seq![n as u8] + b).skip(1));
        lemma_bytes_tell(ps, qs, keys);
    }
}

proof fn lemma_marked_off(ps: Seq<Pair>, n: int)
    requires
        0 <= n < 6,
        is_marked_off(ps, n),
    ensures
        marked_off(ps, level_keys(n)),
{
    let keys = level_keys(n);
    lemma_level_keys(n);
    assert forall|k: int| 0 <= k < keys.len() implies (found(ps, #[trigger] keys[k]) matches Some(v)
        ==> zero_free(value_bytes(v))) by {
        if let Some(v) = found(ps, keys[k]) {
            assert(contribution(ps, level_keys(n)[k]) == Some(value_bytes(v)));
            assert forall|i: int| 0 <= i < value_bytes(v).len() implies #[trigger] value_bytes(v)[i]
                != 0 by {
                assert(contribution(ps, level_keys(n)[k])->0[i] != 0);
            }
        }
    }
}

/// Two resources identified at one level, of which one has a text that the other
/// has not under one of the attributes that identify there, hash different
/// bytes. The texts must not hold a zero character, which is what marks them
/// off.
pub proof fn law_what_identifies_tells_apart(
    ps: Seq<Pair>,
    qs: Seq<Pair>,
    k: int,
    text: Seq<char>,
)
    requires
        level(ps) == level(qs),
        level(ps) < 6,
        plain(ps, level(ps)),
        plain(qs, level(qs)),
        0 <= k < level_keys(level(ps)).len(),
        says(ps, level_keys(level(ps))[k], text),
        !says(qs, level_keys(level(ps))[k], text),
    ensures
        identity_of(ps) == key_of_bytes(hashed(ps)),
        identity_of(qs) == key_of_bytes(hashed(qs)),
        hashed(ps) != hashed(qs),
{
    let n = level(ps);
    let key = level_keys(n)[k];
    lemma_plain(ps, n);
    lemma_plain(qs, n);
    lemma_found(ps, key);
    lemma_found(qs, key);
    if contribution(ps, key) == contribution(qs, key) {
        assert(has(qs, key));
        let other = choose|t: Seq<char>| #[trigger] says(qs, level_keys(n)[k], t) && !t.contains('\0');
        lemma_utf8_injective(text, other);
    }
    law_what_is_contributed_tells_apart(ps, qs, k);
}

proof fn lemma_plain(ps: Seq<Pair>, n: int)
    requires
        0 <= n < 6,
        plain(ps, n),
    ensures
        is_marked_off(ps, n),
{
    assert forall|k: int, i: int|
        0 <= k < level_keys(n).len() && #[trigger] contribution(ps, level_keys(n)[k]) is Some && 0
            <= i < contribution(ps, level_keys(n)[k])->0.len() implies (#[trigger] contribution(
        ps,
        level_keys(n)[k],
    )->0[i]) != 0 by {
        lemma_found(ps, level_keys(n)[k]);
        assert(has(ps, level_keys(n)[k]));
        let t = choose|t: Seq<char>| #[trigger] says(ps, level_keys(n)[k], t) && !t.contains('\0');
        lemma_text_zero_free(t);
        assert(contribution(ps, level_keys(n)[k])->0 == utf8(t));
    }
}

/// Two resources identified at different levels hash different bytes, whatever
/// their attributes hold.
pub proof fn law_levels_tell_apart(ps: Seq<Pair>, qs: Seq<Pair>)
    requires
        level(ps) < 6,
        level(qs) < 6,
        level(ps) != level(qs),
    ensures
        hashed(ps) != hashed(qs),
{
    assert(hashed(ps)[0] == level(ps) as u8);
    assert(hashed(qs)[0] == level(qs) as u8);
}

/// An attribute that is not of the nine that can identify changes nothing,
/// wherever it is listed.
pub proof fn law_nine_keys_identify(ps: Seq<Pair>, i: int, extra: Pair)
    requires
        0 <= i <= ps.len(),
        extra.key != "service.name"@,
        extra.key != "service.instance.id"@,
        extra.key != "service.namespace"@,
        extra.key != "k8s.pod.uid"@,
        extra.key != "k8s.container.name"@,
        extra.key != "container.id"@,
        extra.key != "host.id"@,
        extra.key != "host.name"@,
        extra.key != "process.pid"@,
    ensures
        identity_of(ps.insert(i, extra)) == identity_of(ps),
{
    lemma_level(ps);
    assert(!crate::identity::is_identifying(extra.key)) by {
        if crate::identity::is_identifying(extra.key) {
            let n = choose|n: int|
                0 <= n < CANDIDATES && #[trigger] (required_keys(n) + optional_keys(n)).contains(
                    extra.key,
                );
            assert(level_keys(n) == required_keys(n) + optional_keys(n));
            let k = level_keys(n).index_of(extra.key);
            assert(level_keys(n)[k] == extra.key);
        }
    }
    crate::identity::law_identity_survives_drift(ps, i, extra);
}

} // verus!
