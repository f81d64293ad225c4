//! Resources and scopes are told apart by everything they say: no two that
//! differ have one message, and so no two share a number.

use crate::cells::{has_attr, u32_at, u64_at};
use crate::identity::identity_of;
use crate::interning::{
    count_field, resource_bytes, resource_dropped, resource_pairs, scope_bytes, scope_pairs,
    text_field, Interned,
};
use crate::internlaws::{describes, has_attrs, is_number_of, row_is, tells_resource, tells_scope};
use crate::order::{lemma_utf8_injective, utf8};
use crate::otlp::{lemma_pairs, pairs, InstrumentationScope, Pair, Resource, Val};
use crate::proto::{
    array_fits, fits, kvlist_bytes, kvlist_fits, lemma_pair_round_trip, lemma_run_field_reads,
    pair_bytes, pair_fits, run_field, tagged_bytes,
};
use crate::scan::{table_named, Named};
use crate::wire::{lemma_varint_round_trip, varint};
use vstd::prelude::*;

verus! {

// ---------------------------------------------------------------------------
// Every value nests to some depth.

proof fn lemma_fits_deeper(v: Val, d: nat, e: nat)
    requires
        fits(v, d),
        d <= e,
    ensures
        fits(v, e),
    decreases v,
{
    match v {
        Val::Array(vs) => {
            lemma_array_fits_deeper(vs, (d - 1) as nat, (e - 1) as nat);
        },
        Val::Kvlist(ps) => {
            lemma_kvlist_fits_deeper(ps, (d - 1) as nat, (e - 1) as nat);
        },
        _ => {},
    }
}

proof fn lemma_array_fits_deeper(vs: Seq<Val>, d: nat, e: nat)
    requires
        array_fits(vs, d),
        d <= e,
    ensures
        array_fits(vs, e),
    decreases vs,
{
    if vs.len() > 0 {
        lemma_fits_deeper(vs.last(), (d - 1) as nat, (e - 1) as nat);
        lemma_array_fits_deeper(vs.drop_last(), d, e);
    }
}

proof fn lemma_kvlist_fits_deeper(ps: Seq<Pair>, d: nat, e: nat)
    requires
        kvlist_fits(ps, d),
        d <= e,
    ensures
        kvlist_fits(ps, e),
    decreases ps,
{
    if ps.len() > 0 {
        lemma_pair_fits_deeper(ps.last(), (d - 1) as nat, (e - 1) as nat);
        lemma_kvlist_fits_deeper(ps.drop_last(), d, e);
    }
}

proof fn lemma_pair_fits_deeper(p: Pair, d: nat, e: nat)
    requires
        pair_fits(p, d),
        d <= e,
    ensures
        pair_fits(p, e),
    decreases p,
{
    if let Some(v) = p.value {
        lemma_fits_deeper(v, (d - 1) as nat, (e - 1) as nat);
    }
}

proof fn lemma_depth(v: Val) -> (d: nat)
    ensures
        fits(v, d),
    decreases v,
{
    match v {
        Val::Array(vs) => lemma_array_depth(vs) + 1,
        Val::Kvlist(ps) => lemma_kvlist_depth(ps) + 1,
        _ => 0,
    }
}

proof fn lemma_array_depth(vs: Seq<Val>) -> (d: nat)
    ensures
        array_fits(vs, d),
    decreases vs,
{
    if vs.len() == 0 {
        0
    } else {
        let a = lemma_depth(vs.last());
        let b = lemma_array_depth(vs.drop_last());
        lemma_fits_deeper(vs.last(), a, a + b);
        lemma_array_fits_deeper(vs.drop_last(), b, a + b + 1);
        a + b + 1
    }
}

proof fn lemma_kvlist_depth(ps: Seq<Pair>) -> (d: nat)
    ensures
        kvlist_fits(ps, d),
    decreases ps,
{
    if ps.len() == 0 {
        0
    } else {
        let a = lemma_pair_depth(ps.last());
        let b = lemma_kvlist_depth(ps.drop_last());
        lemma_pair_fits_deeper(ps.last(), a, a + b);
        lemma_kvlist_fits_deeper(ps.drop_last(), b, a + b + 1);
        a + b + 1
    }
}

proof fn lemma_pair_depth(p: Pair) -> (d: nat)
    ensures
        pair_fits(p, d),
    decreases p,
{
    match p.value {
        Some(v) => lemma_depth(v) + 1,
        None => 0,
    }
}

// ---------------------------------------------------------------------------
// Fields, one after another.

proof fn lemma_pair_told(p: Pair, q: Pair)
    requires
        pair_bytes(p) == pair_bytes(q),
        pair_bytes(p).len() <= u64::MAX,
    ensures
        p == q,
{
    let a = lemma_pair_depth(p);
    let b = lemma_pair_depth(q);
    lemma_pair_fits_deeper(p, a, a + b);
    lemma_pair_fits_deeper(q, b, a + b);
    lemma_pair_round_trip(p, a + b);
    lemma_pair_round_trip(q, a + b);
}

proof fn lemma_run_told(tag: u8, u: Seq<u8>, x: Seq<u8>, v: Seq<u8>, y: Seq<u8>)
    requires
        1 <= tag < 16,
        run_field(tag, u) + x == run_field(tag, v) + y,
        (run_field(tag, u) + x).len() <= u64::MAX,
    ensures
        u == v,
        x == y,
{
    assert(run_field(tag, u).len() > u.len());
    assert(run_field(tag, v).len() > v.len());
    lemma_run_field_reads(tag, u, x);
    lemma_run_field_reads(tag, v, y);
}

proof fn lemma_count_told(tag: u8, n: u32, m: u32)
    requires
        1 <= tag < 16,
        count_field(tag, n) == count_field(tag, m),
    ensures
        n == m,
{
    let none = Seq::<u8>::empty();
    lemma_varint_round_trip(n as nat, none);
    lemma_varint_round_trip(m as nat, none);
    if n != 0 {
        assert(count_field(tag, n).skip(1) =~= varint(n as nat) + none);
    }
    if m != 0 {
        assert(count_field(tag, m).skip(1) =~= varint(m as nat) + none);
    }
}

/// What follows does not start with the key of a run of this number.
spec fn starts_otherwise(tag: u8, s: Seq<u8>) -> bool {
    s.len() == 0 || s[0] != (tag * 8 + 2) as u8
}

proof fn lemma_text_told(tag: u8, s: Seq<char>, x: Seq<u8>, t: Seq<char>, y: Seq<u8>)
    requires
        1 <= tag < 16,
        text_field(tag, s) + x == text_field(tag, t) + y,
        (text_field(tag, s) + x).len() <= u64::MAX,
        starts_otherwise(tag, x),
        starts_otherwise(tag, y),
    ensures
        s == t,
        x == y,
{
    let none = Seq::<u8>::empty();
    if s.len() == 0 {
        assert(text_field(tag, s) + x =~= x);
    }
    if t.len() == 0 {
        assert(text_field(tag, t) + y =~= y);
    }
    if s.len() > 0 && t.len() > 0 {
        lemma_run_told(tag, utf8(s), x, utf8(t), y);
        lemma_utf8_injective(s, t);
    } else if s.len() > 0 {
        assert((text_field(tag, s) + x)[0] == (tag * 8 + 2) as u8);
    } else if t.len() > 0 {
        assert((text_field(tag, t) + y)[0] == (tag * 8 + 2) as u8);
    } else {
        assert(s =~= t);
    }
}

proof fn lemma_tagged_front(tag: u8, ps: Seq<Pair>)
    requires
        ps.len() > 0,
    ensures
        tagged_bytes(tag, ps) == run_field(tag, pair_bytes(ps[0])) + tagged_bytes(tag, ps.skip(1)),
    decreases ps.len(),
{
    let t = ps.drop_last();
    let none = Seq::<u8>::empty();
    if t.len() == 0 {
        assert(tagged_bytes(tag, t) =~= none);
        assert(tagged_bytes(tag, ps.skip(1)) =~= none);
        assert(ps.last() == ps[0]);
        assert(tagged_bytes(tag, ps) =~= run_field(tag, pair_bytes(ps[0])) + none);
    } else {
        lemma_tagged_front(tag, t);
        assert(ps.skip(1).drop_last() =~= t.skip(1));
        assert(ps.skip(1).last() == ps.last());
        assert(tagged_bytes(tag, ps) =~= run_field(tag, pair_bytes(ps[0])) + tagged_bytes(
            tag,
            ps.skip(1),
        ));
    }
}

proof fn lemma_pairs_told(tag: u8, ps: Seq<Pair>, x: Seq<u8>, qs: Seq<Pair>, y: Seq<u8>)
    requires
        1 <= tag < 16,
        tagged_bytes(tag, ps) + x == tagged_bytes(tag, qs) + y,
        (tagged_bytes(tag, ps) + x).len() <= u64::MAX,
        starts_otherwise(tag, x),
        starts_otherwise(tag, y),
    ensures
        ps == qs,
        x == y,
    decreases ps.len(),
{
    let s = tagged_bytes(tag, ps) + x;
    if ps.len() == 0 {
        assert(s =~= x);
    } else {
        lemma_tagged_front(tag, ps);
        assert(s[0] == (tag * 8 + 2) as u8);
    }
    if qs.len() == 0 {
        assert(tagged_bytes(tag, qs) + y =~= y);
    } else {
        lemma_tagged_front(tag, qs);
        assert((tagged_bytes(tag, qs) + y)[0] == (tag * 8 + 2) as u8);
    }
    if ps.len() > 0 && qs.len() > 0 {
        let u = pair_bytes(ps[0]);
        let v = pair_bytes(qs[0]);
        let p = tagged_bytes(tag, ps.skip(1)) + x;
        let q = tagged_bytes(tag, qs.skip(1)) + y;
        assert(s =~= run_field(tag, u) + p);
        assert(s =~= run_field(tag, v) + q);
        assert(run_field(tag, u).len() > u.len());
        lemma_run_told(tag, u, p, v, q);
        lemma_pair_told(ps[0], qs[0]);
        lemma_pairs_told(tag, ps.skip(1), x, qs.skip(1), y);
        assert(ps =~= seq![ps[0]] + ps.skip(1));
        assert(qs =~= seq![qs[0]] + qs.skip(1));
    } else {
        assert(ps =~= qs);
    }
}

proof fn lemma_list_is_tagged(ps: Seq<Pair>)
    ensures
        kvlist_bytes(ps) == tagged_bytes(1, ps),
    decreases ps.len(),
{
    if ps.len() > 0 {
        lemma_list_is_tagged(ps.drop_last());
    }
}

// ---------------------------------------------------------------------------
// What has one message is one.

/// Two resources have one message only if they have the same attributes, in the
/// same order, and have dropped as many. (Messages whose bytes can be counted.)
pub proof fn law_resources_are_told_apart(a: Option<Resource>, b: Option<Resource>)
    requires
        resource_bytes(a) == resource_bytes(b),
        resource_bytes(a).len() <= u64::MAX,
    ensures
        resource_pairs(a) == resource_pairs(b),
        resource_dropped(a) == resource_dropped(b),
{
    lemma_list_is_tagged(resource_pairs(a));
    lemma_list_is_tagged(resource_pairs(b));
    let x = count_field(2, resource_dropped(a));
    let y = count_field(2, resource_dropped(b));
    lemma_pairs_told(1, resource_pairs(a), x, resource_pairs(b), y);
    lemma_count_told(2, resource_dropped(a), resource_dropped(b));
}

/// The parts of a scope; one that is not there has none.
pub open spec fn parts_of(s: Option<InstrumentationScope>) -> (
    Seq<char>,
    Seq<char>,
    Seq<Pair>,
    u32,
) {
    match s {
        Some(x) => (x.name@, x.version@, pairs(x.attributes@), x.dropped_attributes_count),
        None => (Seq::empty(), Seq::empty(), Seq::empty(), 0),
    }
}

proof fn lemma_scope_message(s: Option<InstrumentationScope>)
    ensures
        ({
            let (name, version, ps, n) = parts_of(s);
            scope_bytes(s) == text_field(1, name) + (text_field(2, version) + (tagged_bytes(3, ps)
                + count_field(4, n)))
        }),
{
    let (name, version, ps, n) = parts_of(s);
    assert(scope_bytes(s) =~= text_field(1, name) + (text_field(2, version) + (tagged_bytes(3, ps)
        + count_field(4, n))));
}

proof fn lemma_starts(tag: u8, ps: Seq<Pair>, x: Seq<u8>)
    requires
        tag < 16,
    ensures
        ps.len() > 0 ==> (tagged_bytes(tag, ps) + x)[0] == (tag * 8 + 2) as u8,
        ps.len() == 0 ==> tagged_bytes(tag, ps) + x == x,
{
    if ps.len() > 0 {
        lemma_tagged_front(tag, ps);
    } else {
        assert(tagged_bytes(tag, ps) + x =~= x);
    }
}

/// Two scopes have one message only if they have the same name, the same version
/// and the same attributes, and have dropped as many. (Messages whose bytes can
/// be counted.)
pub proof fn law_scopes_are_told_apart(a: Option<InstrumentationScope>, b: Option<InstrumentationScope>)
    requires
        scope_bytes(a) == scope_bytes(b),
        scope_bytes(a).len() <= u64::MAX,
    ensures
        parts_of(a) == parts_of(b),
{
    let (name, version, ps, n) = parts_of(a);
    let (name2, version2, ps2, n2) = parts_of(b);
    lemma_scope_message(a);
    lemma_scope_message(b);
    let x = count_field(4, n);
    let x2 = count_field(4, n2);
    let y = tagged_bytes(3, ps) + x;
    let y2 = tagged_bytes(3, ps2) + x2;
    let z = text_field(2, version) + y;
    let z2 = text_field(2, version2) + y2;
    lemma_starts(3, ps, x);
    lemma_starts(3, ps2, x2);
    if version.len() == 0 {
        assert(z =~= y);
    } else {
        assert(z[0] == 18);
    }
    if version2.len() == 0 {
        assert(z2 =~= y2);
    } else {
        assert(z2[0] == 18);
    }
    lemma_text_told(1, name, z, name2, z2);
    lemma_text_told(2, version, y, version2, y2);
    lemma_pairs_told(3, ps, x, ps2, x2);
    lemma_count_told(4, n, n2);
}

/// The number that a resource has stands for that resource: the identity, the
/// attributes and the count under it are its own.
pub proof fn law_a_number_stands_for_its_resource(rs: Interned, n: int, r: Option<Resource>)
    requires
        is_number_of(rs, n, r),
        resource_bytes(r).len() <= u64::MAX,
    ensures
        row_is(rs, n, r),
{
    let x = choose|x: Option<Resource>| #[trigger]
        resource_bytes(x) == resource_bytes(r) && row_is(rs, n, x);
    law_resources_are_told_apart(x, r);
}

/// The tables of a block that tell of a resource under a number have there what
/// was sent: how many attributes it lost, and every attribute it has.
pub proof fn law_the_resource_in_the_tables_was_sent(tables: Seq<Named>, n: int, r: Resource, k: int)
    requires
        tells_resource(tables, n, Some(r)),
        resource_bytes(Some(r)).len() <= u64::MAX,
    ensures
        table_named(tables, "resources"@) matches Some(t) && u32_at(
            t,
            "dropped_attributes_count"@,
            n,
            r.dropped_attributes_count as int,
        ) && u64_at(t, "key"@, n, identity_of(pairs(r.attributes@)) as int),
        0 <= k < r.attributes@.len() ==> has_attr(
            tables,
            "resource_attrs"@,
            n,
            r.attributes@[k].pair(),
        ),
{
    let x = choose|x: Option<Resource>| #[trigger]
        resource_bytes(x) == resource_bytes(Some(r)) && describes(tables, n, x);
    law_resources_are_told_apart(x, Some(r));
    lemma_pairs(r.attributes@);
    if 0 <= k < r.attributes@.len() {
        assert(resource_pairs(Some(r))[k] == r.attributes@[k].pair());
    }
}

/// The tables of a block that tell of a scope under a number have there what was
/// sent: every attribute it has, and its name and its version, where it has
/// them, as attributes of their own.
pub proof fn law_the_scope_in_the_tables_was_sent(
    tables: Seq<Named>,
    n: int,
    s: InstrumentationScope,
    k: int,
)
    requires
        tells_scope(tables, n, Some(s)),
        scope_bytes(Some(s)).len() <= u64::MAX,
    ensures
        0 <= k < s.attributes@.len() ==> has_attr(
            tables,
            "scope_attrs"@,
            n,
            s.attributes@[k].pair(),
        ),
        s.name@.len() > 0 ==> has_attr(
            tables,
            "scope_attrs"@,
            n,
            Pair { key: "otel.scope.name"@, value: Some(Val::Str(s.name@)) },
        ),
        s.version@.len() > 0 ==> has_attr(
            tables,
            "scope_attrs"@,
            n,
            Pair { key: "otel.scope.version"@, value: Some(Val::Str(s.version@)) },
        ),
{
    let x = choose|x: Option<InstrumentationScope>| #[trigger]
        scope_bytes(x) == scope_bytes(Some(s)) && has_attrs(
            tables,
            "scope_attrs"@,
            n,
            scope_pairs(x),
        );
    law_scopes_are_told_apart(x, Some(s));
    lemma_pairs(s.attributes@);
    let ps = scope_pairs(x);
    assert(ps =~= scope_pairs(Some(s)));
    if 0 <= k < s.attributes@.len() {
        assert(ps[k] == s.attributes@[k].pair());
    }
    let own = s.attributes@.len() as int;
    if s.name@.len() > 0 {
        assert(ps[own] == Pair { key: "otel.scope.name"@, value: Some(Val::Str(s.name@)) });
    }
    if s.version@.len() > 0 {
        assert(ps[ps.len() - 1] == Pair {
            key: "otel.scope.version"@,
            value: Some(Val::Str(s.version@)),
        });
    }
}

} // verus!
