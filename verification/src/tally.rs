//! Values by key, kept in key order.

use crate::sort::Ranked;
use vstd::prelude::*;

verus! {

/// Keys of which one of any two different ones is ahead.
pub trait Key: Ranked + Copy {
    proof fn lemma_same(a: Self, b: Self)
        requires
            !a.ahead(b),
            !b.ahead(a),
        ensures
            a == b,
    ;
}

impl Ranked for u64 {
    open spec fn ahead(self, other: u64) -> bool {
        self < other
    }

    proof fn lemma_order(a: u64, b: u64, c: u64) {
    }

    fn is_ahead(&self, other: &u64) -> (r: bool) {
        *self < *other
    }
}

impl Key for u64 {
    proof fn lemma_same(a: u64, b: u64) {
    }
}

/// Who calls, and who is called.
#[derive(Debug, Clone, Copy, PartialEq, Eq, Structural)]
pub struct Call {
    pub from: u64,
    pub to: u64,
}

impl Ranked for Call {
    /// By the caller, then by the called.
    open spec fn ahead(self, other: Call) -> bool {
        self.from < other.from || (self.from == other.from && self.to < other.to)
    }

    proof fn lemma_order(a: Call, b: Call, c: Call) {
    }

    fn is_ahead(&self, other: &Call) -> (r: bool) {
        self.from < other.from || (self.from == other.from && self.to < other.to)
    }
}

impl Key for Call {
    proof fn lemma_same(a: Call, b: Call) {
    }
}

/// The value under a key.
pub open spec fn value_of<K: Key, V>(s: Seq<(K, V)>, k: K) -> Option<V>
    decreases s.len(),
{
    if s.len() == 0 {
        None
    } else if s[0].0 == k {
        Some(s[0].1)
    } else {
        value_of(s.skip(1), k)
    }
}

/// The entries with a value put under a key: in the place of the one that is
/// there, or where the order wants it.
pub open spec fn with_value<K: Key, V>(s: Seq<(K, V)>, k: K, v: V) -> Seq<(K, V)>
    decreases s.len(),
{
    if s.len() == 0 || k.ahead(s[0].0) {
        seq![(k, v)] + s
    } else if s[0].0 == k {
        seq![(k, v)] + s.skip(1)
    } else {
        seq![s[0]] + with_value(s.skip(1), k, v)
    }
}

/// Keys strictly ascending.
pub open spec fn keys_ascend<K: Key, V>(s: Seq<(K, V)>) -> bool {
    forall|i: int, j: int| 0 <= i < j < s.len() ==> (#[trigger] s[i]).0.ahead((#[trigger] s[j]).0)
}

/// Every key before position `i` is ahead of `k`, and from there on none is.
spec fn is_slot<K: Key, V>(s: Seq<(K, V)>, k: K, i: int) -> bool {
    &&& 0 <= i <= s.len()
    &&& forall|j: int| 0 <= j < i ==> (#[trigger] s[j]).0.ahead(k)
    &&& forall|j: int| i <= j < s.len() ==> !(#[trigger] s[j]).0.ahead(k)
}

proof fn lemma_slot<K: Key, V>(s: Seq<(K, V)>, k: K, v: V, i: int)
    requires
        keys_ascend(s),
        is_slot(s, k, i),
    ensures
        i < s.len() && s[i].0 == k ==> value_of(s, k) == Some(s[i].1) && with_value(s, k, v)
            == s.update(i, (k, v)),
        !(i < s.len() && s[i].0 == k) ==> value_of(s, k) is None && with_value(s, k, v) == s.insert(
            i,
            (k, v),
        ),
    decreases s.len(),
{
    if s.len() > 0 {
        let t = s.skip(1);
        K::lemma_order(s[0].0, k, s[0].0);
        if i > 0 {
            assert(s[0].0.ahead(k));
            assert(keys_ascend(t)) by {
                assert forall|a: int, b: int| 0 <= a < b < t.len() implies (#[trigger] t[a]).0.ahead(
                    (#[trigger] t[b]).0,
                ) by {
                    assert(t[a] == s[a + 1] && t[b] == s[b + 1]);
                }
            }
            assert(is_slot(t, k, i - 1)) by {
                assert forall|j: int| 0 <= j < i - 1 implies (#[trigger] t[j]).0.ahead(k) by {
                    assert(t[j] == s[j + 1]);
                }
                assert forall|j: int| i - 1 <= j < t.len() implies !(#[trigger] t[j]).0.ahead(k) by {
                    assert(t[j] == s[j + 1]);
                }
            }
            lemma_slot(t, k, v, i - 1);
            assert(s[0].0 != k);
            if i < s.len() {
                assert(t[i - 1] == s[i]);
            }
            if i < s.len() && s[i].0 == k {
                assert(seq![s[0]] + t.update(i - 1, (k, v)) =~= s.update(i, (k, v)));
            } else {
                assert(seq![s[0]] + t.insert(i - 1, (k, v)) =~= s.insert(i, (k, v)));
            }
        } else if s[0].0 == k {
            assert(seq![(k, v)] + s.skip(1) =~= s.update(0, (k, v)));
        } else {
            assert(!s[0].0.ahead(k));
            if !k.ahead(s[0].0) {
                K::lemma_same(k, s[0].0);
            }
            lemma_absent(s, k);
            assert(seq![(k, v)] + s =~= s.insert(0, (k, v)));
        }
    } else {
        assert(seq![(k, v)] + s =~= s.insert(0, (k, v)));
    }
}

proof fn lemma_absent<K: Key, V>(s: Seq<(K, V)>, k: K)
    requires
        forall|j: int| 0 <= j < s.len() ==> (#[trigger] s[j]).0 != k,
    ensures
        value_of(s, k) is None,
    decreases s.len(),
{
    if s.len() > 0 {
        let t = s.skip(1);
        assert forall|j: int| 0 <= j < t.len() implies (#[trigger] t[j]).0 != k by {
            assert(t[j] == s[j + 1]);
        }
        assert(s[0].0 != k);
        lemma_absent(t, k);
    }
}

/// Values by key, in key order.
pub struct Tally<K: Key, V> {
    entries: Vec<(K, V)>,
}

impl<K: Key, V> View for Tally<K, V> {
    type V = Seq<(K, V)>;

    closed spec fn view(&self) -> Seq<(K, V)> {
        self.entries@
    }
}

impl<K: Key, V: Copy> Tally<K, V> {
    /// The keys ascend.
    pub closed spec fn wf(&self) -> bool {
        keys_ascend(self.entries@)
    }

    pub fn new() -> (r: Tally<K, V>)
        ensures
            r.wf(),
            r@ == Seq::<(K, V)>::empty(),
    {
        Tally { entries: Vec::new() }
    }

    /// How many keys there are.
    pub fn len(&self) -> (n: usize)
        ensures
            n == self@.len(),
    {
        self.entries.len()
    }

    /// The entry at a position.
    pub fn entry(&self, i: usize) -> (r: &(K, V))
        requires
            i < self@.len(),
        ensures
            *r == self@[i as int],
    {
        &self.entries[i]
    }

    /// Where a key is, or belongs.
    fn slot(&self, k: K) -> (i: usize)
        requires
            self.wf(),
        ensures
            is_slot(self.entries@, k, i as int),
    {
        let ghost s = self.entries@;
        let mut lo: usize = 0;
        let mut hi: usize = self.entries.len();
        while lo < hi
            invariant
                self.wf(),
                s == self.entries@,
                lo <= hi <= s.len(),
                forall|j: int| 0 <= j < lo ==> (#[trigger] s[j]).0.ahead(k),
                forall|j: int| hi <= j < s.len() ==> !(#[trigger] s[j]).0.ahead(k),
            decreases hi - lo,
        {
            let mid = lo + (hi - lo) / 2;
            if self.entries[mid].0.is_ahead(&k) {
                proof {
                    assert forall|j: int| 0 <= j < mid + 1 implies (#[trigger] s[j]).0.ahead(k) by {
                        if j < mid {
                            K::lemma_order(s[j].0, s[mid as int].0, k);
                        }
                    }
                }
                lo = mid + 1;
            } else {
                proof {
                    assert forall|j: int| mid <= j < s.len() implies !(#[trigger] s[j]).0.ahead(k) by {
                        if j > mid && s[j].0.ahead(k) {
                            K::lemma_order(s[mid as int].0, s[j].0, k);
                        }
                    }
                }
                hi = mid;
            }
        }
        lo
    }

    /// The value under a key.
    pub fn get(&self, k: K) -> (r: Option<V>)
        requires
            self.wf(),
        ensures
            r == value_of(self@, k),
    {
        let i = self.slot(k);
        if i < self.entries.len() {
            let (at, v) = self.entries[i];
            proof {
                lemma_slot(self.entries@, k, v, i as int);
                K::lemma_order(at, k, at);
                if !k.ahead(at) {
                    K::lemma_same(at, k);
                }
            }
            if k.is_ahead(&at) {
                None
            } else {
                Some(v)
            }
        } else {
            proof {
                lemma_absent_past(self.entries@, k);
            }
            None
        }
    }

    /// Put a value under a key.
    pub fn put(&mut self, k: K, v: V)
        requires
            old(self).wf(),
        ensures
            final(self).wf(),
            final(self)@ == with_value(old(self)@, k, v),
    {
        let i = self.slot(k);
        let ghost s = self.entries@;
        proof {
            lemma_slot(s, k, v, i as int);
        }
        let mut there = false;
        if i < self.entries.len() {
            let at = self.entries[i].0;
            there = !k.is_ahead(&at);
            proof {
                K::lemma_order(at, k, at);
                if there {
                    K::lemma_same(at, k);
                }
            }
        }
        if there {
            self.entries.set(i, (k, v));
            assert(self.entries@ == s.update(i as int, (k, v)));
            assert(keys_ascend(self.entries@)) by {
                let t = self.entries@;
                assert forall|a: int, b: int| 0 <= a < b < t.len() implies (#[trigger] t[a]).0.ahead(
                    (#[trigger] t[b]).0,
                ) by {
                    assert(t[a].0 == s[a].0 && t[b].0 == s[b].0);
                }
            }
        } else {
            self.entries.insert(i, (k, v));
            proof {
                let t = self.entries@;
                assert forall|a: int, b: int| 0 <= a < b < t.len() implies (#[trigger] t[a]).0.ahead(
                    (#[trigger] t[b]).0,
                ) by {
                    if a < i && b > i {
                        assert(t[a] == s[a] && t[b] == s[b - 1]);
                    } else if b < i {
                        assert(t[a] == s[a] && t[b] == s[b]);
                    } else if a > i {
                        assert(t[a] == s[a - 1] && t[b] == s[b - 1]);
                    } else if a == i {
                        assert(t[b] == s[b - 1]);
                        assert(!s[b - 1].0.ahead(k));
                        if b - 1 > i {
                            assert(s[i as int].0.ahead(s[b - 1].0));
                            K::lemma_order(k, s[i as int].0, s[b - 1].0);
                            if !k.ahead(s[i as int].0) {
                                assert(!s[i as int].0.ahead(k));
                                K::lemma_same(k, s[i as int].0);
                            }
                        } else {
                            if !k.ahead(s[i as int].0) {
                                K::lemma_same(k, s[i as int].0);
                            }
                        }
                    } else {
                        assert(t[a] == s[a]);
                    }
                }
            }
        }
    }
}

proof fn lemma_absent_past<K: Key, V>(s: Seq<(K, V)>, k: K)
    requires
        is_slot(s, k, s.len() as int),
    ensures
        value_of(s, k) is None,
{
    assert forall|j: int| 0 <= j < s.len() implies (#[trigger] s[j]).0 != k by {
        K::lemma_order(s[j].0, k, k);
    }
    lemma_absent(s, k);
}

/// Putting a value under a key changes what is under that key and nothing else,
/// and keeps the order.
pub proof fn law_put_then_get<K: Key, V>(s: Seq<(K, V)>, k: K, v: V, other: K)
    requires
        keys_ascend(s),
    ensures
        keys_ascend(with_value(s, k, v)),
        value_of(with_value(s, k, v), other) == if other == k {
            Some(v)
        } else {
            value_of(s, other)
        },
    decreases s.len(),
{
    let w = with_value(s, k, v);
    if s.len() == 0 || k.ahead(s[0].0) {
        assert(w.skip(1) =~= s);
        assert forall|a: int, b: int| 0 <= a < b < w.len() implies (#[trigger] w[a]).0.ahead(
            (#[trigger] w[b]).0,
        ) by {
            assert(w[b] == s[b - 1]);
            if a == 0 {
                if b > 1 {
                    K::lemma_order(k, s[0].0, s[b - 1].0);
                }
            } else {
                assert(w[a] == s[a - 1]);
            }
        }
    } else {
        let t = s.skip(1);
        assert forall|a: int, b: int| 0 <= a < b < t.len() implies (#[trigger] t[a]).0.ahead(
            (#[trigger] t[b]).0,
        ) by {
            assert(t[a] == s[a + 1] && t[b] == s[b + 1]);
        }
        if s[0].0 == k {
            assert(w.skip(1) =~= t);
            assert forall|a: int, b: int| 0 <= a < b < w.len() implies (#[trigger] w[a]).0.ahead(
                (#[trigger] w[b]).0,
            ) by {
                assert(w[a].0 == s[a].0 && w[b].0 == s[b].0);
            }
        } else {
            law_put_then_get(t, k, v, other);
            let u = with_value(t, k, v);
            assert(w.skip(1) =~= u);
            if !s[0].0.ahead(k) {
                K::lemma_same(s[0].0, k);
            }
            lemma_first_stays(t, k, v, s[0].0);
            assert forall|a: int, b: int| 0 <= a < b < w.len() implies (#[trigger] w[a]).0.ahead(
                (#[trigger] w[b]).0,
            ) by {
                assert(w[b] == u[b - 1]);
                if a > 0 {
                    assert(w[a] == u[a - 1]);
                }
            }
        }
    }
}

/// What is ahead of every key stays so.
proof fn lemma_first_stays<K: Key, V>(s: Seq<(K, V)>, k: K, v: V, low: K)
    requires
        low.ahead(k),
        forall|j: int| 0 <= j < s.len() ==> low.ahead((#[trigger] s[j]).0),
    ensures
        forall|j: int|
            0 <= j < with_value(s, k, v).len() ==> low.ahead((#[trigger] with_value(s, k, v)[j]).0),
    decreases s.len(),
{
    let w = with_value(s, k, v);
    if s.len() == 0 || k.ahead(s[0].0) {
        assert forall|j: int| 0 <= j < w.len() implies low.ahead((#[trigger] w[j]).0) by {
            if j > 0 {
                assert(w[j] == s[j - 1]);
            }
        }
    } else if s[0].0 == k {
        assert forall|j: int| 0 <= j < w.len() implies low.ahead((#[trigger] w[j]).0) by {
            if j > 0 {
                assert(w[j] == s[j]);
            }
        }
    } else {
        let t = s.skip(1);
        assert forall|j: int| 0 <= j < t.len() implies low.ahead((#[trigger] t[j]).0) by {
            assert(t[j] == s[j + 1]);
        }
        lemma_first_stays(t, k, v, low);
        let u = with_value(t, k, v);
        assert forall|j: int| 0 <= j < w.len() implies low.ahead((#[trigger] w[j]).0) by {
            if j == 0 {
                assert(w[0] == s[0]);
            } else {
                assert(w[j] == u[j - 1]);
            }
        }
    }
}

} // verus!
