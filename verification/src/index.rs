//! A set of byte strings, each numbered in the order it arrived.
//!
//! This is what interning is made of: the dictionaries of a column, the
//! distinct resources of a block, the bucket boundaries of its histograms. The
//! strings themselves are kept, so two of them share a number only if they are
//! byte-identical; the hash only says where to look.

use crate::identity::{hash64, hash_of};
use crate::order::same_bytes;
use std::collections::HashMap;
use vstd::prelude::*;

verus! {

broadcast use vstd::std_specs::hash::group_hash_axioms;

/// Byte strings, all distinct, in the order they were added.
pub struct ByteIndex {
    keys: Vec<Vec<u8>>,
    slots: HashMap<u64, Vec<usize>>,
}

impl View for ByteIndex {
    type V = Seq<Seq<u8>>;

    closed spec fn view(&self) -> Seq<Seq<u8>> {
        self.keys@.map_values(|k: Vec<u8>| k@)
    }
}

impl ByteIndex {
    /// The strings are distinct, and each can be found under its hash.
    pub closed spec fn wf(&self) -> bool {
        &&& forall|i: int, j: int|
            0 <= i < j < self.keys@.len() ==> #[trigger] self.keys@[i]@ != #[trigger] self.keys@[j]@
        &&& forall|i: int|
            0 <= i < self.keys@.len() ==> {
                let h = hash_of(#[trigger] self.keys@[i]@);
                self.slots@.contains_key(h) && exists|s: int|
                    0 <= s < self.slots@[h]@.len() && #[trigger] self.slots@[h]@[s] == i
            }
        &&& forall|h: u64, s: int|
            self.slots@.contains_key(h) && 0 <= s < self.slots@[h]@.len()
                ==> #[trigger] self.slots@[h]@[s] < self.keys@.len()
    }

    pub fn new() -> (r: ByteIndex)
        ensures
            r.wf(),
            r@ == Seq::<Seq<u8>>::empty(),
    {
        let r = ByteIndex { keys: Vec::new(), slots: HashMap::new() };
        assert(r@ =~= Seq::<Seq<u8>>::empty());
        r
    }

    /// How many strings there are.
    pub fn len(&self) -> (n: usize)
        ensures
            n == self@.len(),
    {
        self.keys.len()
    }

    /// The number of a string, if it is there.
    pub fn find(&self, key: &[u8]) -> (r: Option<usize>)
        requires
            self.wf(),
        ensures
            r matches Some(i) ==> i < self@.len() && self@[i as int] == key@,
            r is None ==> !self@.contains(key@),
    {
        let h = hash64(key);
        match self.slots.get(&h) {
            None => {
                assert forall|i: int| 0 <= i < self@.len() implies self@[i] != key@ by {
                    assert(self@[i] == self.keys@[i]@);
                }
                None
            },
            Some(slot) => {
                let mut s: usize = 0;
                while s < slot.len()
                    invariant
                        self.wf(),
                        h == hash_of(key@),
                        self.slots@.contains_key(h),
                        *slot == self.slots@[h],
                        s <= slot@.len(),
                        forall|t: int| 0 <= t < s ==> self.keys@[#[trigger] slot@[t] as int]@ != key@,
                    decreases slot@.len() - s,
                {
                    let i = slot[s];
                    assert(self.slots@[h]@[s as int] < self.keys@.len());
                    if same_bytes(self.keys[i].as_slice(), key) {
                        assert(self@[i as int] == self.keys@[i as int]@);
                        return Some(i);
                    }
                    s = s + 1;
                }
                assert forall|i: int| 0 <= i < self@.len() implies self@[i] != key@ by {
                    assert(self@[i] == self.keys@[i]@);
                    if self.keys@[i]@ == key@ {
                        let t = choose|t: int|
                            0 <= t < self.slots@[h]@.len() && #[trigger] self.slots@[h]@[t] == i;
                        assert(slot@[t] == i);
                    }
                }
                None
            },
        }
    }

    /// Add a string that is not there yet. Its number is the count before.
    pub fn push(&mut self, key: Vec<u8>)
        requires
            old(self).wf(),
            !old(self)@.contains(key@),
        ensures
            final(self).wf(),
            final(self)@ == old(self)@.push(key@),
    {
        let ghost before = *self;
        let n = self.keys.len();
        let h = hash64(key.as_slice());
        let mut slot: Vec<usize> = match self.slots.remove(&h) {
            Some(v) => v,
            None => Vec::new(),
        };
        let ghost was = slot@;
        slot.push(n);
        self.slots.insert(h, slot);
        self.keys.push(key);
        proof {
            assert(self@ =~= before@.push(key@));
            assert forall|i: int, j: int| 0 <= i < j < self.keys@.len() implies
                #[trigger] self.keys@[i]@ != #[trigger] self.keys@[j]@ by {
                if j == n {
                    assert(before@[i] == before.keys@[i]@);
                    assert(before@.contains(before@[i]));
                }
            }
            assert(self.slots@[h]@ == was.push(n));
            assert forall|i: int| 0 <= i < self.keys@.len() implies {
                let g = hash_of(#[trigger] self.keys@[i]@);
                self.slots@.contains_key(g) && exists|s: int|
                    0 <= s < self.slots@[g]@.len() && #[trigger] self.slots@[g]@[s] == i
            } by {
                let g = hash_of(self.keys@[i]@);
                if i < n {
                    let s = choose|s: int|
                        0 <= s < before.slots@[g]@.len() && #[trigger] before.slots@[g]@[s] == i;
                    assert(self.keys@[i]@ == before.keys@[i]@);
                    assert(self.slots@[g]@[s] == i);
                } else {
                    assert(self.slots@[g]@[was.len() as int] == n);
                }
            }
            assert forall|g: u64, s: int|
                self.slots@.contains_key(g) && 0 <= s < self.slots@[g]@.len() implies
                #[trigger] self.slots@[g]@[s] < self.keys@.len() by {
                if g == h {
                    if s < was.len() {
                        assert(before.slots@[g]@[s] < before.keys@.len());
                    }
                } else {
                    assert(before.slots@[g]@[s] < before.keys@.len());
                }
            }
        }
    }

    /// The strings are distinct.
    pub proof fn lemma_distinct(&self)
        requires
            self.wf(),
        ensures
            self@.no_duplicates(),
    {
        assert forall|i: int, j: int|
            0 <= i < self@.len() && 0 <= j < self@.len() && i != j implies self@[i] != self@[j] by {
            assert(self@[i] == self.keys@[i]@ && self@[j] == self.keys@[j]@);
        }
    }
}

} // verus!
