//! Stable entity identity: the join key that makes correlation work across
//! blocks.
//!
//! Interning gives a resource a number that is local to a block. Correlation
//! needs the opposite: a value that is identical whenever two resources denote
//! the same running thing, in any block, forever. Attribute-set equality is not
//! that value, because one extra attribute would make an entity two. So
//! identity is a hash of only the attributes that identify, taken at the most
//! specific level that is present.

use crate::order::{same_text, utf8};
use crate::otlp::{lemma_pairs, pairs, AnyKind, AnyValue, KeyValue, Pair, Val};
use crate::proto::{any_bytes, encode_kind};
use vstd::prelude::*;

verus! {

/// The 64-bit FNV-1a state after one byte.
pub open spec fn fnv_step(h: u64, b: u8) -> u64 {
    (h ^ (b as u64)).wrapping_mul(0x0000_0100_0000_01b3)
}

/// The 64-bit FNV-1a state after a run of bytes.
pub open spec fn fnv(h: u64, bytes: Seq<u8>) -> u64
    decreases bytes.len(),
{
    if bytes.len() == 0 {
        h
    } else {
        fnv_step(fnv(h, bytes.drop_last()), bytes.last())
    }
}

/// The state before any byte.
pub const FNV_BASIS: u64 = 0xcbf2_9ce4_8422_2325;

/// The splitmix64 finalizer.
pub open spec fn mixed(z: u64) -> u64 {
    let a = (z ^ (z >> 30)).wrapping_mul(0xbf58_476d_1ce4_e5b9);
    let b = (a ^ (a >> 27)).wrapping_mul(0x94d0_49bb_1331_11eb);
    b ^ (b >> 31)
}

/// What [`hash64`] returns.
pub open spec fn hash_of(bytes: Seq<u8>) -> u64 {
    mixed(fnv(FNV_BASIS, bytes))
}

/// The splitmix64 finalizer, which carries every input bit to every output
/// bit.
pub fn mix(z: u64) -> (r: u64)
    ensures
        r == mixed(z),
{
    let a: u64 = (z ^ (z >> 30)).wrapping_mul(0xbf58_476d_1ce4_e5b9);
    let b: u64 = (a ^ (a >> 27)).wrapping_mul(0x94d0_49bb_1331_11eb);
    b ^ (b >> 31)
}

/// FNV-1a 64 with a splitmix64 finalizer. The same bytes hash the same way in
/// every build, which a hasher of the standard library does not promise.
pub struct Fnv {
    pub state: u64,
}

impl Fnv {
    pub fn new() -> (h: Fnv)
        ensures
            h.state == FNV_BASIS,
    {
        Fnv { state: FNV_BASIS }
    }

    /// Take in a run of bytes.
    pub fn write(&mut self, bytes: &[u8])
        ensures
            final(self).state == fnv(old(self).state, bytes@),
    {
        let mut i: usize = 0;
        assert(bytes@.take(0) =~= Seq::<u8>::empty());
        while i < bytes.len()
            invariant
                i <= bytes@.len(),
                self.state == fnv(old(self).state, bytes@.take(i as int)),
            decreases bytes@.len() - i,
        {
            assert(bytes@.take(i + 1).drop_last() =~= bytes@.take(i as int));
            self.state = (self.state ^ (bytes[i] as u64)).wrapping_mul(0x0000_0100_0000_01b3);
            i = i + 1;
        }
        assert(bytes@.take(i as int) =~= bytes@);
    }

    pub fn finish(self) -> (r: u64)
        ensures
            r == mixed(self.state),
    {
        mix(self.state)
    }
}

/// FNV-1a 64 with a splitmix64 finalizer over raw bytes.
pub fn hash64(bytes: &[u8]) -> (r: u64)
    ensures
        r == hash_of(bytes@),
{
    let mut h = Fnv::new();
    h.write(bytes);
    h.finish()
}

/// Taking in two runs one after the other is taking in their concatenation.
pub proof fn lemma_fnv_concat(h: u64, a: Seq<u8>, b: Seq<u8>)
    ensures
        fnv(fnv(h, a), b) == fnv(h, a + b),
    decreases b.len(),
{
    if b.len() == 0 {
        assert(a + b =~= a);
    } else {
        lemma_fnv_concat(h, a, b.drop_last());
        assert((a + b).drop_last() =~= a + b.drop_last());
    }
}

// ---------------------------------------------------------------------------
// The identity of a resource.

/// No candidate matched, so the resource has no stable identity and correlation
/// by entity is not answerable for it. A hash of the whole attribute set would
/// change with every attribute added; a sentinel makes a query refuse instead.
pub const NO_IDENTITY: u64 = 0;

/// How many identity candidates there are.
pub const CANDIDATES: usize = 6;

/// The keys a candidate requires, most specific candidate first.
pub open spec fn required_keys(n: int) -> Seq<Seq<char>> {
    if n == 0 {
        seq!["service.name"@, "service.instance.id"@]
    } else if n == 1 {
        seq!["k8s.pod.uid"@]
    } else if n == 2 {
        seq!["container.id"@]
    } else if n == 3 {
        seq!["host.id"@]
    } else if n == 4 {
        seq!["host.name"@]
    } else {
        seq!["service.name"@]
    }
}

/// The keys that join a candidate's hash where they are present.
pub open spec fn optional_keys(n: int) -> Seq<Seq<char>> {
    if n == 0 {
        seq!["service.namespace"@]
    } else if n == 1 {
        seq!["k8s.container.name"@]
    } else if n == 2 {
        Seq::empty()
    } else if n == 3 {
        seq!["process.pid"@]
    } else if n == 4 {
        seq!["process.pid"@]
    } else {
        seq!["service.namespace"@]
    }
}

/// The value under the first pair of a key: there with or without a value, or
/// not there.
pub open spec fn found(ps: Seq<Pair>, key: Seq<char>) -> Option<Option<Val>>
    decreases ps.len(),
{
    if ps.len() == 0 {
        None
    } else if ps[0].key == key {
        Some(ps[0].value)
    } else {
        found(ps.skip(1), key)
    }
}

/// Whether all the keys a candidate requires are present.
pub open spec fn qualifies(ps: Seq<Pair>, n: int) -> bool {
    forall|k: int| 0 <= k < required_keys(n).len() ==> found(ps, #[trigger] required_keys(n)[k]) is Some
}

/// The bytes a value contributes: those of a string as it stands, those of the
/// message of anything else, none where there is no value.
pub open spec fn value_bytes(v: Option<Val>) -> Seq<u8> {
    match v {
        Some(Val::Str(s)) => utf8(s),
        Some(Val::Empty) => Seq::empty(),
        Some(x) => any_bytes(x),
        None => Seq::empty(),
    }
}

/// The bytes one key contributes: none where it is not present.
pub open spec fn key_bytes(ps: Seq<Pair>, key: Seq<char>) -> Seq<u8> {
    match found(ps, key) {
        Some(v) => utf8(key) + seq![0u8] + value_bytes(v) + seq![0u8],
        None => Seq::empty(),
    }
}

/// The bytes several keys contribute.
pub open spec fn keys_bytes(ps: Seq<Pair>, keys: Seq<Seq<char>>) -> Seq<u8>
    decreases keys.len(),
{
    if keys.len() == 0 {
        Seq::empty()
    } else {
        keys_bytes(ps, keys.drop_last()) + key_bytes(ps, keys.last())
    }
}

/// The bytes that a candidate hashes. Its number goes first, so that one value
/// under two identifying keys makes two entities.
pub open spec fn identity_bytes(ps: Seq<Pair>, n: int) -> Seq<u8> {
    seq![n as u8] + keys_bytes(ps, required_keys(n) + optional_keys(n))
}

/// The hash of some bytes, kept off the sentinel.
pub open spec fn key_of_bytes(b: Seq<u8>) -> u64 {
    if hash_of(b) == NO_IDENTITY {
        1
    } else {
        hash_of(b)
    }
}

/// The identity by the first candidate from `n` on that qualifies.
pub open spec fn identity_from(ps: Seq<Pair>, n: int) -> u64
    decreases CANDIDATES - n,
{
    if n >= CANDIDATES {
        NO_IDENTITY
    } else if qualifies(ps, n) {
        key_of_bytes(identity_bytes(ps, n))
    } else {
        identity_from(ps, n + 1)
    }
}

/// The identity of the entity that some attributes describe.
pub open spec fn identity_of(ps: Seq<Pair>) -> u64 {
    identity_from(ps, 0)
}

fn required(n: usize) -> (r: Vec<&'static str>)
    requires
        n < CANDIDATES,
    ensures
        r@.map_values(|s: &'static str| s@) == required_keys(n as int),
{
    let mut out: Vec<&'static str> = Vec::new();
    if n == 0 {
        out.push("service.name");
        out.push("service.instance.id");
    } else if n == 1 {
        out.push("k8s.pod.uid");
    } else if n == 2 {
        out.push("container.id");
    } else if n == 3 {
        out.push("host.id");
    } else if n == 4 {
        out.push("host.name");
    } else {
        out.push("service.name");
    }
    assert(out@.map_values(|s: &'static str| s@) =~= required_keys(n as int));
    out
}

fn optional(n: usize) -> (r: Vec<&'static str>)
    requires
        n < CANDIDATES,
    ensures
        r@.map_values(|s: &'static str| s@) == optional_keys(n as int),
{
    let mut out: Vec<&'static str> = Vec::new();
    if n == 0 {
        out.push("service.namespace");
    } else if n == 1 {
        out.push("k8s.container.name");
    } else if n == 2 {
    } else if n == 3 {
        out.push("process.pid");
    } else if n == 4 {
        out.push("process.pid");
    } else {
        out.push("service.namespace");
    }
    assert(out@.map_values(|s: &'static str| s@) =~= optional_keys(n as int));
    out
}

/// What the value under a key is, where there is one.
pub open spec fn found_as(v: Option<&AnyValue>) -> Option<Val> {
    match v {
        Some(x) => Some(x.val()),
        None => None,
    }
}

/// The value under the first attribute of a key.
fn find<'a>(attrs: &'a Vec<KeyValue>, key: &str) -> (r: Option<Option<&'a AnyValue>>)
    ensures
        r is Some <==> found(pairs(attrs@), key@) is Some,
        r matches Some(v) ==> found(pairs(attrs@), key@) == Some(found_as(v)),
{
    let ghost ps = pairs(attrs@);
    proof {
        lemma_pairs(attrs@);
    }
    let mut i: usize = 0;
    assert(ps.skip(0) =~= ps);
    while i < attrs.len()
        invariant
            i <= attrs@.len(),
            ps == pairs(attrs@),
            ps.len() == attrs@.len(),
            forall|k: int| 0 <= k < attrs@.len() ==> #[trigger] ps[k] == attrs@[k].pair(),
            found(ps, key@) == found(ps.skip(i as int), key@),
        decreases attrs@.len() - i,
    {
        assert(ps.skip(i as int)[0] == ps[i as int]);
        assert(ps.skip(i as int).skip(1) =~= ps.skip(i + 1));
        if same_text(attrs[i].key.as_str(), key) {
            return match &attrs[i].value {
                Some(v) => Some(Some(v)),
                None => Some(None),
            };
        }
        i = i + 1;
    }
    None
}

impl Fnv {
    /// Take in an attribute value. Strings are the whole identity set in
    /// practice and go in as they are.
    pub fn value(&mut self, v: Option<&AnyValue>)
        ensures
            final(self).state == fnv(old(self).state, value_bytes(found_as(v))),
    {
        if let Some(x) = v {
            if let Some(k) = &x.value {
                match k {
                    AnyKind::StringValue(s) => {
                        self.write(s.as_str().as_bytes());
                    },
                    _ => {
                        let b = encode_kind(k);
                        assert((AnyValue { value: Some(*k) }).val() == x.val());
                        self.write(b.as_slice());
                    },
                }
            }
        }
    }

    /// Take in one key and its value, if it is present.
    fn entry(&mut self, attrs: &Vec<KeyValue>, key: &str)
        ensures
            final(self).state == fnv(old(self).state, key_bytes(pairs(attrs@), key@)),
    {
        let ghost h = self.state;
        if let Some(v) = find(attrs, key) {
            let zero: [u8; 1] = [0];
            assert(zero@ =~= seq![0u8]);
            self.write(key.as_bytes());
            self.write(vstd::array::array_as_slice(&zero));
            self.value(v);
            self.write(vstd::array::array_as_slice(&zero));
            proof {
                let k = utf8(key@);
                let b = value_bytes(found_as(v));
                lemma_fnv_concat(h, k, seq![0u8]);
                lemma_fnv_concat(h, k + seq![0u8], b);
                lemma_fnv_concat(h, k + seq![0u8] + b, seq![0u8]);
            }
        }
    }

    /// Take in several keys and their values.
    fn entries(&mut self, attrs: &Vec<KeyValue>, keys: &Vec<&'static str>)
        ensures
            final(self).state == fnv(
                old(self).state,
                keys_bytes(pairs(attrs@), keys@.map_values(|s: &'static str| s@)),
            ),
    {
        let ghost ks = keys@.map_values(|s: &'static str| s@);
        let ghost h = self.state;
        let ghost ps = pairs(attrs@);
        let mut i: usize = 0;
        assert(ks.take(0) =~= Seq::<Seq<char>>::empty());
        while i < keys.len()
            invariant
                i <= keys@.len(),
                ks == keys@.map_values(|s: &'static str| s@),
                ps == pairs(attrs@),
                self.state == fnv(h, keys_bytes(ps, ks.take(i as int))),
            decreases keys@.len() - i,
        {
            assert(ks.take(i + 1).drop_last() =~= ks.take(i as int));
            assert(ks.take(i + 1).last() == keys@[i as int]@);
            self.entry(attrs, keys[i]);
            proof {
                lemma_fnv_concat(h, keys_bytes(ps, ks.take(i as int)), key_bytes(ps, ks[i as int]));
            }
            i = i + 1;
        }
        assert(ks.take(i as int) =~= ks);
    }
}

fn all_present(attrs: &Vec<KeyValue>, keys: &Vec<&'static str>) -> (r: bool)
    ensures
        r <==> forall|k: int|
            0 <= k < keys@.len() ==> found(pairs(attrs@), (#[trigger] keys@[k])@) is Some,
{
    let mut i: usize = 0;
    while i < keys.len()
        invariant
            i <= keys@.len(),
            forall|k: int| 0 <= k < i ==> found(pairs(attrs@), (#[trigger] keys@[k])@) is Some,
        decreases keys@.len() - i,
    {
        if find(attrs, keys[i]).is_none() {
            assert(found(pairs(attrs@), keys@[i as int]@) is None);
            return false;
        }
        i = i + 1;
    }
    true
}

proof fn lemma_keys_bytes_concat(ps: Seq<Pair>, a: Seq<Seq<char>>, b: Seq<Seq<char>>)
    ensures
        keys_bytes(ps, a + b) == keys_bytes(ps, a) + keys_bytes(ps, b),
    decreases b.len(),
{
    if b.len() == 0 {
        assert(a + b =~= a);
        assert(keys_bytes(ps, a) + keys_bytes(ps, b) =~= keys_bytes(ps, a));
    } else {
        lemma_keys_bytes_concat(ps, a, b.drop_last());
        assert((a + b).drop_last() =~= a + b.drop_last());
        assert(keys_bytes(ps, a + b) =~= keys_bytes(ps, a) + keys_bytes(ps, b));
    }
}

/// The stable 64-bit identity of the entity described by `attrs`, or
/// [`NO_IDENTITY`] if nothing identifying is present.
pub fn resource_key(attrs: &Vec<KeyValue>) -> (r: u64)
    ensures
        r == identity_of(pairs(attrs@)),
{
    let ghost ps = pairs(attrs@);
    let mut n: usize = 0;
    while n < CANDIDATES
        invariant
            n <= CANDIDATES,
            ps == pairs(attrs@),
            identity_of(ps) == identity_from(ps, n as int),
        decreases CANDIDATES - n,
    {
        let must = required(n);
        let ghost keys = must@.map_values(|s: &'static str| s@);
        let present = all_present(attrs, &must);
        proof {
            assert(keys == required_keys(n as int));
            assert(keys.len() == must@.len());
            if present {
                assert forall|k: int| 0 <= k < required_keys(n as int).len() implies found(
                    ps,
                    #[trigger] required_keys(n as int)[k],
                ) is Some by {
                    assert(required_keys(n as int)[k] == must@[k]@);
                }
            } else {
                let k = choose|k: int|
                    0 <= k < must@.len() && found(pairs(attrs@), (#[trigger] must@[k])@) is None;
                assert(required_keys(n as int)[k] == must@[k]@);
            }
        }
        if present {
            let may = optional(n);
            let mut h = Fnv::new();
            let first: [u8; 1] = [n as u8];
            assert(first@ =~= seq![n as u8]);
            h.write(vstd::array::array_as_slice(&first));
            h.entries(attrs, &must);
            h.entries(attrs, &may);
            proof {
                let a = keys_bytes(ps, required_keys(n as int));
                let b = keys_bytes(ps, optional_keys(n as int));
                lemma_fnv_concat(FNV_BASIS, seq![n as u8], a);
                lemma_fnv_concat(FNV_BASIS, seq![n as u8] + a, b);
                lemma_keys_bytes_concat(ps, required_keys(n as int), optional_keys(n as int));
                assert(identity_bytes(ps, n as int) =~= seq![n as u8] + a + b);
            }
            let key: u64 = h.finish();
            return if key == NO_IDENTITY {
                1
            } else {
                key
            };
        }
        n = n + 1;
    }
    NO_IDENTITY
}

// ---------------------------------------------------------------------------
// What an identity is good for.

/// Whether a key can take part in an identity.
pub open spec fn is_identifying(key: Seq<char>) -> bool {
    exists|n: int|
        0 <= n < CANDIDATES && #[trigger] (required_keys(n) + optional_keys(n)).contains(key)
}

proof fn lemma_same_keys_bytes(ps: Seq<Pair>, qs: Seq<Pair>, keys: Seq<Seq<char>>)
    requires
        forall|k: int| 0 <= k < keys.len() ==> found(ps, #[trigger] keys[k]) == found(qs, keys[k]),
    ensures
        keys_bytes(ps, keys) == keys_bytes(qs, keys),
    decreases keys.len(),
{
    if keys.len() > 0 {
        let t = keys.drop_last();
        assert forall|k: int| 0 <= k < t.len() implies found(ps, #[trigger] t[k]) == found(qs, t[k]) by {
            assert(t[k] == keys[k]);
        }
        lemma_same_keys_bytes(ps, qs, t);
        assert(found(ps, keys[keys.len() - 1]) == found(qs, keys[keys.len() - 1]));
    }
}

proof fn lemma_identity_from(ps: Seq<Pair>, qs: Seq<Pair>, n: int)
    requires
        0 <= n <= CANDIDATES,
        forall|key: Seq<char>|
            #[trigger] is_identifying(key) ==> found(ps, key) == found(qs, key),
    ensures
        identity_from(ps, n) == identity_from(qs, n),
    decreases CANDIDATES - n,
{
    if n < CANDIDATES {
        lemma_identity_from(ps, qs, n + 1);
        let req = required_keys(n);
        let all = required_keys(n) + optional_keys(n);
        assert forall|k: int| 0 <= k < all.len() implies found(ps, #[trigger] all[k]) == found(
            qs,
            all[k],
        ) by {
            assert(all.contains(all[k]));
            assert(is_identifying(all[k]));
        }
        assert forall|k: int| 0 <= k < req.len() implies found(ps, #[trigger] req[k]) == found(
            qs,
            req[k],
        ) by {
            assert(all[k] == req[k]);
        }
        assert(qualifies(ps, n) == qualifies(qs, n));
        lemma_same_keys_bytes(ps, qs, all);
    }
}

/// Two attribute lists that agree on the identifying keys have one identity.
pub proof fn law_identity_is_of_the_identifying_keys(ps: Seq<Pair>, qs: Seq<Pair>)
    requires
        forall|key: Seq<char>|
            #[trigger] is_identifying(key) ==> found(ps, key) == found(qs, key),
    ensures
        identity_of(ps) == identity_of(qs),
{
    lemma_identity_from(ps, qs, 0);
}

proof fn lemma_found_insert(ps: Seq<Pair>, i: int, extra: Pair, key: Seq<char>)
    requires
        0 <= i <= ps.len(),
        extra.key != key,
    ensures
        found(ps.insert(i, extra), key) == found(ps, key),
    decreases ps.len(),
{
    let q = ps.insert(i, extra);
    if i == 0 {
        assert(q.skip(1) =~= ps);
    } else {
        assert(q[0] == ps[0]);
        assert(q.skip(1) =~= ps.skip(1).insert(i - 1, extra));
        lemma_found_insert(ps.skip(1), i - 1, extra, key);
    }
}

/// An attribute that does not identify can come or go, anywhere in the list,
/// without forking the entity.
pub proof fn law_identity_survives_drift(ps: Seq<Pair>, i: int, extra: Pair)
    requires
        0 <= i <= ps.len(),
        !is_identifying(extra.key),
    ensures
        identity_of(ps.insert(i, extra)) == identity_of(ps),
{
    let q = ps.insert(i, extra);
    assert forall|key: Seq<char>| #[trigger] is_identifying(key) implies found(q, key) == found(
        ps,
        key,
    ) by {
        lemma_found_insert(ps, i, extra, key);
    }
    law_identity_is_of_the_identifying_keys(q, ps);
}

proof fn lemma_found_swap(ps: Seq<Pair>, i: int, key: Seq<char>)
    requires
        0 <= i < ps.len() - 1,
        ps[i].key != ps[i + 1].key,
    ensures
        found(ps.update(i, ps[i + 1]).update(i + 1, ps[i]), key) == found(ps, key),
    decreases ps.len(),
{
    let q = ps.update(i, ps[i + 1]).update(i + 1, ps[i]);
    reveal_with_fuel(found, 3);
    if i == 0 {
        assert(q[0] == ps[1]);
        assert(q.skip(1)[0] == ps[0]);
        assert(ps.skip(1)[0] == ps[1]);
        assert(q.skip(1).skip(1) =~= ps.skip(1).skip(1));
    } else {
        let t = ps.skip(1);
        assert(q[0] == ps[0]);
        assert(q.skip(1) =~= t.update(i - 1, t[i]).update(i, t[i - 1]));
        lemma_found_swap(t, i - 1, key);
    }
}

/// The order in which attributes are listed does not matter: two neighbours
/// with different keys can change places.
pub proof fn law_identity_survives_reordering(ps: Seq<Pair>, i: int)
    requires
        0 <= i < ps.len() - 1,
        ps[i].key != ps[i + 1].key,
    ensures
        identity_of(ps.update(i, ps[i + 1]).update(i + 1, ps[i])) == identity_of(ps),
{
    let q = ps.update(i, ps[i + 1]).update(i + 1, ps[i]);
    assert forall|key: Seq<char>| #[trigger] is_identifying(key) implies found(q, key) == found(
        ps,
        key,
    ) by {
        lemma_found_swap(ps, i, key);
    }
    law_identity_is_of_the_identifying_keys(q, ps);
}

proof fn lemma_sentinel(ps: Seq<Pair>, n: int)
    requires
        0 <= n <= CANDIDATES,
    ensures
        identity_from(ps, n) == NO_IDENTITY <==> forall|m: int|
            n <= m < CANDIDATES ==> !#[trigger] qualifies(ps, m),
    decreases CANDIDATES - n,
{
    if n < CANDIDATES {
        lemma_sentinel(ps, n + 1);
        if !qualifies(ps, n) && identity_from(ps, n + 1) == NO_IDENTITY {
            assert forall|m: int| n <= m < CANDIDATES implies !#[trigger] qualifies(ps, m) by {
                if m > n {
                    assert(!qualifies(ps, m));
                }
            }
        }
    }
}

/// The sentinel is the identity of exactly those resources of which nothing
/// identifying is present: no hash can reach it.
pub proof fn law_the_sentinel_means_unidentified(ps: Seq<Pair>)
    ensures
        identity_of(ps) == NO_IDENTITY <==> forall|n: int|
            0 <= n < CANDIDATES ==> !#[trigger] qualifies(ps, n),
{
    lemma_sentinel(ps, 0);
}

/// Two candidates never hash the same bytes, whatever the values under their
/// keys.
pub proof fn law_candidates_hash_different_bytes(ps: Seq<Pair>, qs: Seq<Pair>, n: int, m: int)
    requires
        0 <= n < m < CANDIDATES,
    ensures
        identity_bytes(ps, n) != identity_bytes(qs, m),
{
    assert(identity_bytes(ps, n)[0] == n as u8);
    assert(identity_bytes(qs, m)[0] == m as u8);
}

} // verus!
