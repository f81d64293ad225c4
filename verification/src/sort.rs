//! Keeping things in order.

use vstd::prelude::*;
use vstd::seq_lib::*;

verus! {

/// Things that are put in order. `a.ahead(b)` says that `a` comes strictly
/// before `b`; two things neither of which is ahead keep the order they came
/// in.
pub trait Ranked: Sized {
    spec fn ahead(self, other: Self) -> bool;

    proof fn lemma_order(a: Self, b: Self, c: Self)
        ensures
            !a.ahead(a),
            a.ahead(b) ==> !b.ahead(a),
            a.ahead(b) && b.ahead(c) ==> a.ahead(c),
            a.ahead(c) ==> a.ahead(b) || b.ahead(c),
    ;

    fn is_ahead(&self, other: &Self) -> (r: bool)
        ensures
            r == self.ahead(*other),
    ;
}

/// A thing put into a sequence that is in order: behind everything it is not
/// ahead of.
pub open spec fn inserted<T: Ranked>(s: Seq<T>, e: T) -> Seq<T>
    decreases s.len(),
{
    if s.len() > 0 && e.ahead(s.last()) {
        inserted(s.drop_last(), e).push(s.last())
    } else {
        s.push(e)
    }
}

/// A sequence put in order.
pub open spec fn ranked<T: Ranked>(s: Seq<T>) -> Seq<T>
    decreases s.len(),
{
    if s.len() == 0 {
        s
    } else {
        inserted(ranked(s.drop_last()), s.last())
    }
}

/// Whether a sequence is in order.
pub open spec fn in_order<T: Ranked>(s: Seq<T>) -> bool {
    forall|i: int, j: int| 0 <= i < j < s.len() ==> !(#[trigger] s[j]).ahead(#[trigger] s[i])
}

/// Insertion keeps the order and adds one item.
pub proof fn lemma_inserted<T: Ranked>(s: Seq<T>, e: T)
    requires
        in_order(s),
    ensures
        in_order(inserted(s, e)),
        inserted(s, e).len() == s.len() + 1,
        inserted(s, e).to_multiset() == s.to_multiset().insert(e),
    decreases s.len(),
{
    broadcast use group_to_multiset_ensures;

    if s.len() > 0 && e.ahead(s.last()) {
        let t = s.drop_last();
        assert(in_order(t));
        lemma_inserted(t, e);
        let u = inserted(t, e);
        let r = u.push(s.last());
        assert(t.push(s.last()) =~= s);
        assert(r.to_multiset() =~= s.to_multiset().insert(e));
        assert forall|i: int, j: int| 0 <= i < j < r.len() implies !(#[trigger] r[j]).ahead(
            #[trigger] r[i],
        ) by {
            if j == u.len() {
                assert(u.to_multiset().contains(u[i]));
                assert(t.to_multiset().insert(e).contains(u[i]));
                if u[i] == e {
                    T::lemma_order(e, s.last(), e);
                } else {
                    assert(t.to_multiset().contains(u[i]));
                    assert(t.contains(u[i]));
                    let k = t.index_of(u[i]);
                    assert(s[k] == u[i]);
                    assert(!s[s.len() - 1].ahead(s[k]));
                }
            }
        }
    } else {
        let r = s.push(e);
        assert forall|i: int, j: int| 0 <= i < j < r.len() implies !(#[trigger] r[j]).ahead(
            #[trigger] r[i],
        ) by {
            if j == s.len() && i < s.len() - 1 {
                T::lemma_order(e, s.last(), s[i]);
                assert(!s[s.len() - 1].ahead(s[i]));
            }
        }
    }
}

/// Putting a sequence in order orders it, and neither loses nor invents
/// anything.
pub proof fn lemma_ranked<T: Ranked>(s: Seq<T>)
    ensures
        in_order(ranked(s)),
        ranked(s).len() == s.len(),
        ranked(s).to_multiset() == s.to_multiset(),
    decreases s.len(),
{
    broadcast use group_to_multiset_ensures;

    if s.len() > 0 {
        lemma_ranked(s.drop_last());
        lemma_inserted(ranked(s.drop_last()), s.last());
        assert(s.drop_last().push(s.last()) =~= s);
    }
}

/// What is in a sequence is in it when it is put in order, and nothing else.
pub proof fn lemma_ranked_contains<T: Ranked>(s: Seq<T>, x: T)
    ensures
        ranked(s).contains(x) <==> s.contains(x),
{
    broadcast use group_to_multiset_ensures;

    lemma_ranked(s);
    assert(ranked(s).contains(x) <==> ranked(s).to_multiset().contains(x));
    assert(s.contains(x) <==> s.to_multiset().contains(x));
}

/// Only the first `n` matter to the first `n` of what comes next.
pub proof fn lemma_inserted_head<T: Ranked>(s: Seq<T>, e: T, n: nat)
    requires
        in_order(s),
    ensures
        first(inserted(s, e), n) == first(inserted(first(s, n), e), n),
    decreases s.len(),
{
    if s.len() > n {
        let t = s.drop_last();
        assert(in_order(t));
        lemma_inserted_head(t, e, n);
        assert(first(t, n) =~= first(s, n));
        if e.ahead(s.last()) {
            lemma_inserted(t, e);
            assert(first(inserted(s, e), n) =~= first(inserted(t, e), n));
        } else {
            assert(first(s.push(e), n) =~= first(s, n));
            let h = first(s, n);
            if h.len() == 0 {
                assert(first(inserted(h, e), n) =~= h);
            } else {
                assert(h.last() == s[n - 1]);
                if e.ahead(h.last()) {
                    T::lemma_order(e, s.last(), h.last());
                    assert(!s[s.len() - 1].ahead(s[n - 1]));
                }
                assert(first(inserted(h, e), n) =~= h);
            }
        }
    } else {
        assert(first(s, n) =~= s);
    }
}

/// The first `n` of a sequence, or all of it where it is shorter.
pub open spec fn first<T>(s: Seq<T>, n: nat) -> Seq<T> {
    if s.len() <= n {
        s
    } else {
        s.take(n as int)
    }
}

/// Put a thing into a vector that is in order.
pub fn insert_ranked<T: Ranked>(v: &mut Vec<T>, e: T)
    ensures
        final(v)@ == inserted(old(v)@, e),
{
    let mut i: usize = v.len();
    assert(v@.take(i as int) =~= v@);
    assert(inserted(v@, e) =~= inserted(v@.take(i as int), e) + v@.skip(i as int));
    while i > 0 && e.is_ahead(&v[i - 1])
        invariant
            i <= v@.len(),
            v@ == old(v)@,
            inserted(v@, e) == inserted(v@.take(i as int), e) + v@.skip(i as int),
        decreases i,
    {
        let ghost t = v@.take(i as int);
        assert(t.drop_last() =~= v@.take(i - 1));
        assert(inserted(t, e) =~= inserted(v@.take(i - 1), e).push(v@[i - 1]));
        assert(inserted(t, e) + v@.skip(i as int) =~= inserted(v@.take(i - 1), e) + v@.skip(i - 1));
        i = i - 1;
    }
    proof {
        let t = v@.take(i as int);
        if i > 0 {
            assert(t.last() == v@[i - 1]);
        }
        assert(inserted(t, e) == t.push(e));
        assert(v@.insert(i as int, e) =~= t.push(e) + v@.skip(i as int));
    }
    v.insert(i, e);
}

/// Put a vector in order.
pub fn sort_ranked<T: Ranked>(v: Vec<T>) -> (r: Vec<T>)
    ensures
        r@ == ranked(v@),
{
    let ghost s = v@;
    let mut rest = v;
    let mut back: Vec<T> = Vec::new();
    while rest.len() > 0
        invariant
            rest@.len() + back@.len() == s.len(),
            rest@ == s.take(rest@.len() as int),
            forall|i: int| 0 <= i < back@.len() ==> back@[i] == s[s.len() - 1 - i],
        decreases rest@.len(),
    {
        match rest.pop() {
            Some(x) => back.push(x),
            None => {},
        }
        assert(rest@ =~= s.take(rest@.len() as int));
    }
    let mut out: Vec<T> = Vec::new();
    assert(s.take(0) =~= Seq::<T>::empty());
    while back.len() > 0
        invariant
            back@.len() <= s.len(),
            forall|i: int| 0 <= i < back@.len() ==> back@[i] == s[s.len() - 1 - i],
            out@ == ranked(s.take(s.len() - back@.len())),
        decreases back@.len(),
    {
        let ghost k = s.len() - back@.len();
        match back.pop() {
            Some(x) => {
                assert(x == s[k]);
                assert(s.take(k + 1).drop_last() =~= s.take(k));
                insert_ranked(&mut out, x);
            },
            None => {},
        }
    }
    assert(s.take(s.len() as int) =~= s);
    out
}

} // verus!
