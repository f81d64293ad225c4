//! Columns under construction.
//!
//! Each of these takes one value or null per row and gives out a finished
//! column without being consumed, because the same code serves the seal of a
//! block and the snapshot of one that goes on accumulating.

use crate::index::ByteIndex;
use crate::order::{lemma_utf8_injective, utf8};
use crate::table::{Column, Data};
use vstd::prelude::*;

verus! {

// ---------------------------------------------------------------------------
// Copies.

/// A vector with the same items.
pub fn copy_all<T: Copy>(v: &Vec<T>) -> (r: Vec<T>)
    ensures
        r@ == v@,
{
    let mut out: Vec<T> = Vec::new();
    let mut i: usize = 0;
    while i < v.len()
        invariant
            i <= v@.len(),
            out@ == v@.take(i as int),
        decreases v@.len() - i,
    {
        out.push(v[i]);
        assert(out@ =~= v@.take(i + 1));
        i = i + 1;
    }
    assert(out@ =~= v@);
    out
}

/// Byte strings by what they hold.
pub open spec fn byte_views(v: Seq<Vec<u8>>) -> Seq<Seq<u8>> {
    v.map_values(|b: Vec<u8>| b@)
}

/// Texts by what they hold.
pub open spec fn text_views(v: Seq<String>) -> Seq<Seq<char>> {
    v.map_values(|s: String| s@)
}

/// A vector of the same byte strings.
pub fn copy_bytes(v: &Vec<Vec<u8>>) -> (r: Vec<Vec<u8>>)
    ensures
        byte_views(r@) == byte_views(v@),
{
    let mut out: Vec<Vec<u8>> = Vec::new();
    let mut i: usize = 0;
    while i < v.len()
        invariant
            i <= v@.len(),
            out@.len() == i,
            forall|k: int| 0 <= k < i ==> (#[trigger] out@[k])@ == v@[k]@,
        decreases v@.len() - i,
    {
        out.push(copy_all(&v[i]));
        i = i + 1;
    }
    assert(byte_views(out@) =~= byte_views(v@));
    out
}

/// A vector of the same texts.
pub fn copy_texts(v: &Vec<String>) -> (r: Vec<String>)
    ensures
        text_views(r@) == text_views(v@),
{
    let mut out: Vec<String> = Vec::new();
    let mut i: usize = 0;
    while i < v.len()
        invariant
            i <= v@.len(),
            out@.len() == i,
            forall|k: int| 0 <= k < i ==> (#[trigger] out@[k])@ == v@[k]@,
        decreases v@.len() - i,
    {
        out.push(v[i].as_str().to_owned());
        i = i + 1;
    }
    assert(text_views(out@) =~= text_views(v@));
    out
}

// ---------------------------------------------------------------------------
// Counting bytes.

/// A count, wrapped at the width of a word.
pub open spec fn wrapped_count(n: nat) -> usize {
    (n % (usize::MAX as nat + 1)) as usize
}

/// A count that fits a word is not wrapped.
pub proof fn lemma_small_count(n: usize)
    ensures
        wrapped_count(n as nat) == n,
{
    vstd::arithmetic::div_mod::lemma_small_mod(n as nat, usize::MAX as nat + 1);
}

/// Add to a wrapped count.
pub(crate) fn add_count(a: usize, b: usize, Ghost(n): Ghost<nat>) -> (r: usize)
    requires
        a == wrapped_count(n),
    ensures
        r == wrapped_count(n + b as nat),
{
    let r: usize = a.wrapping_add(b);
    proof {
        let m = usize::MAX as nat + 1;
        let q = n / m;
        vstd::arithmetic::div_mod::lemma_fundamental_div_mod(n as int, m as int);
        if a + b < m {
            assert(n + b == q * m + (a + b)) by (nonlinear_arith)
                requires
                    n == m * q + a,
            ;
            vstd::arithmetic::div_mod::lemma_fundamental_div_mod_converse(
                (n + b) as int,
                m as int,
                q as int,
                a + b,
            );
        } else {
            assert(n + b == (q + 1) * m + (a + b - m)) by (nonlinear_arith)
                requires
                    n == m * q + a,
            ;
            vstd::arithmetic::div_mod::lemma_fundamental_div_mod_converse(
                (n + b) as int,
                m as int,
                (q + 1) as int,
                a + b - m,
            );
        }
    }
    r
}

/// The bytes of several byte strings together.
pub open spec fn total_bytes(s: Seq<Seq<u8>>) -> nat
    decreases s.len(),
{
    if s.len() == 0 {
        0
    } else {
        total_bytes(s.drop_last()) + s.last().len()
    }
}

// ---------------------------------------------------------------------------
// Columns of plain values.

/// A column of plain values, some of them null.
pub struct Slots<T> {
    pub vals: Vec<T>,
    pub valid: Vec<bool>,
}

impl<T: Copy> Slots<T> {
    pub open spec fn wf(&self) -> bool {
        self.vals@.len() == self.valid@.len()
    }

    /// What each slot holds.
    pub open spec fn slots(&self) -> Seq<Option<T>> {
        Seq::new(
            self.vals@.len(),
            |i: int|
                if self.valid@[i] {
                    Some(self.vals@[i])
                } else {
                    None
                },
        )
    }

    pub fn new() -> (r: Slots<T>)
        ensures
            r.wf(),
            r.slots() == Seq::<Option<T>>::empty(),
    {
        let r = Slots { vals: Vec::new(), valid: Vec::new() };
        assert(r.slots() =~= Seq::<Option<T>>::empty());
        r
    }

    /// Add a slot. A null one holds `filler` underneath.
    pub fn push(&mut self, v: Option<T>, filler: T)
        requires
            old(self).wf(),
        ensures
            final(self).wf(),
            final(self).slots() == old(self).slots().push(v),
    {
        let ghost before = self.slots();
        match v {
            Some(x) => {
                self.vals.push(x);
                self.valid.push(true);
            },
            None => {
                self.vals.push(filler);
                self.valid.push(false);
            },
        }
        assert(self.slots() =~= before.push(v));
    }
}

/// A finished column of plain values: its marks are those of the slots, and
/// where a slot holds a value that is what stands there.
pub open spec fn marks_are<T>(c: Column, slots: Seq<Option<T>>) -> bool {
    &&& c.valid matches Some(v) && v@.len() == slots.len() && forall|i: int|
        0 <= i < slots.len() ==> (#[trigger] v@[i]) == (slots[i] is Some)
}

// ---------------------------------------------------------------------------
// Columns of byte strings.

/// A column of byte strings, some of them null, that knows how many bytes it
/// holds.
pub struct ByteSlots {
    pub vals: Vec<Vec<u8>>,
    pub valid: Vec<bool>,
    pub heap: usize,
}

impl ByteSlots {
    pub open spec fn wf(&self) -> bool {
        &&& self.vals@.len() == self.valid@.len()
        &&& self.heap == wrapped_count(total_bytes(byte_views(self.vals@)))
        &&& forall|i: int|
            0 <= i < self.vals@.len() && !#[trigger] self.valid@[i] ==> self.vals@[i]@.len() == 0
    }

    /// What each slot holds.
    pub open spec fn slots(&self) -> Seq<Option<Seq<u8>>> {
        Seq::new(
            self.vals@.len(),
            |i: int|
                if self.valid@[i] {
                    Some(self.vals@[i]@)
                } else {
                    None
                },
        )
    }

    pub fn new() -> (r: ByteSlots)
        ensures
            r.wf(),
            r.slots() == Seq::<Option<Seq<u8>>>::empty(),
    {
        let r = ByteSlots { vals: Vec::new(), valid: Vec::new(), heap: 0 };
        assert(byte_views(r.vals@) =~= Seq::<Seq<u8>>::empty());
        assert(wrapped_count(0) == 0);
        assert(r.slots() =~= Seq::<Option<Seq<u8>>>::empty());
        r
    }

    fn add(&mut self, v: Vec<u8>, valid: bool)
        requires
            old(self).wf(),
            !valid ==> v@.len() == 0,
        ensures
            final(self).wf(),
            final(self).slots() == old(self).slots().push(if valid {
                Some(v@)
            } else {
                None
            }),
    {
        let ghost before = *self;
        let ghost all = byte_views(self.vals@);
        let n: usize = v.len();
        self.heap = add_count(self.heap, n, Ghost(total_bytes(all)));
        self.vals.push(v);
        self.valid.push(valid);
        proof {
            assert(byte_views(self.vals@) =~= all.push(v@));
            assert(all.push(v@).drop_last() =~= all);
            assert(self.slots() =~= before.slots().push(if valid {
                Some(v@)
            } else {
                None
            }));
            assert forall|i: int|
                0 <= i < self.vals@.len() && !#[trigger] self.valid@[i] implies self.vals@[i]@.len() == 0 by {
                if i < before.vals@.len() {
                    assert(before.valid@[i] == self.valid@[i]);
                }
            }
        }
    }

    pub fn push(&mut self, v: Vec<u8>)
        requires
            old(self).wf(),
        ensures
            final(self).wf(),
            final(self).slots() == old(self).slots().push(Some(v@)),
    {
        self.add(v, true)
    }

    pub fn push_null(&mut self)
        requires
            old(self).wf(),
        ensures
            final(self).wf(),
            final(self).slots() == old(self).slots().push(None),
    {
        self.add(Vec::new(), false)
    }

    /// The finished column.
    pub fn finish(&self) -> (c: Column)
        requires
            self.wf(),
        ensures
            marks_are(c, self.slots()),
            c.data matches Data::Binary(v) && byte_views(v@) == byte_views(self.vals@),
            c.spec_len() == self.vals@.len(),
    {
        let data = copy_bytes(&self.vals);
        assert(byte_views(data@).len() == byte_views(self.vals@).len());
        Column { valid: Some(copy_all(&self.valid)), data: Data::Binary(data) }
    }
}

/// The bytes that the slots of a column hold together.
pub open spec fn slot_bytes(s: Seq<Option<Seq<u8>>>) -> nat
    decreases s.len(),
{
    if s.len() == 0 {
        0
    } else {
        slot_bytes(s.drop_last()) + match s.last() {
            Some(b) => b.len(),
            None => 0,
        }
    }
}

/// What a column of byte strings counts is what its slots hold.
pub proof fn lemma_slot_bytes(c: ByteSlots)
    requires
        c.wf(),
    ensures
        c.heap == wrapped_count(slot_bytes(c.slots())),
{
    lemma_slot_bytes_upto(c, c.vals@.len());
    assert(byte_views(c.vals@).take(c.vals@.len() as int) =~= byte_views(c.vals@));
    assert(c.slots().take(c.vals@.len() as int) =~= c.slots());
}

proof fn lemma_slot_bytes_upto(c: ByteSlots, n: nat)
    requires
        c.wf(),
        n <= c.vals@.len(),
    ensures
        total_bytes(byte_views(c.vals@).take(n as int)) == slot_bytes(c.slots().take(n as int)),
    decreases n,
{
    if n > 0 {
        lemma_slot_bytes_upto(c, (n - 1) as nat);
        let a = byte_views(c.vals@).take(n as int);
        let b = c.slots().take(n as int);
        assert(a.drop_last() =~= byte_views(c.vals@).take(n - 1));
        assert(b.drop_last() =~= c.slots().take(n - 1));
        assert(c.valid@[n - 1] || c.vals@[n - 1]@.len() == 0);
    }
}

// ---------------------------------------------------------------------------
// Dictionaries.

/// The distinct texts of a sequence, in the order they first occur.
pub open spec fn firsts(s: Seq<Option<Seq<char>>>) -> Seq<Seq<char>>
    decreases s.len(),
{
    if s.len() == 0 {
        Seq::empty()
    } else {
        let before = firsts(s.drop_last());
        match s.last() {
            Some(t) => if before.contains(t) {
                before
            } else {
                before.push(t)
            },
            None => before,
        }
    }
}

/// Texts, each numbered when it first occurs.
pub struct TextIndex {
    pub index: ByteIndex,
    pub texts: Vec<String>,
}

impl TextIndex {
    pub open spec fn wf(&self) -> bool {
        &&& self.index.wf()
        &&& self.index@.len() == self.texts@.len()
        &&& forall|i: int| 0 <= i < self.texts@.len() ==> #[trigger] self.index@[i] == utf8(self.texts@[i]@)
    }

    /// The texts, in order.
    pub open spec fn all(&self) -> Seq<Seq<char>> {
        text_views(self.texts@)
    }

    pub fn new() -> (r: TextIndex)
        ensures
            r.wf(),
            r.all() == Seq::<Seq<char>>::empty(),
    {
        let r = TextIndex { index: ByteIndex::new(), texts: Vec::new() };
        assert(r.all() =~= Seq::<Seq<char>>::empty());
        r
    }

    /// Where a text stands.
    pub fn find(&self, s: &str) -> (r: Option<usize>)
        requires
            self.wf(),
        ensures
            r matches Some(i) ==> i < self.all().len() && self.all()[i as int] == s@,
            r is None ==> !self.all().contains(s@),
    {
        let r = self.index.find(s.as_bytes());
        proof {
            match r {
                Some(i) => {
                    lemma_utf8_injective(self.texts@[i as int]@, s@);
                },
                None => {
                    if self.all().contains(s@) {
                        let k = self.all().index_of(s@);
                        assert(self.index@[k] == utf8(s@));
                        assert(self.index@.contains(utf8(s@)));
                    }
                },
            }
        }
        r
    }

    /// Add a text that is not there yet.
    pub fn push(&mut self, s: &str)
        requires
            old(self).wf(),
            !old(self).all().contains(s@),
        ensures
            final(self).wf(),
            final(self).all() == old(self).all().push(s@),
    {
        let ghost before = *self;
        let mut key: Vec<u8> = Vec::new();
        let bytes = s.as_bytes();
        let mut i: usize = 0;
        while i < bytes.len()
            invariant
                i <= bytes@.len(),
                key@ == bytes@.take(i as int),
            decreases bytes@.len() - i,
        {
            key.push(bytes[i]);
            assert(key@ =~= bytes@.take(i + 1));
            i = i + 1;
        }
        assert(key@ =~= bytes@);
        proof {
            if self.index@.contains(key@) {
                let k = self.index@.index_of(key@);
                lemma_utf8_injective(self.texts@[k]@, s@);
                assert(self.all()[k] == s@);
            }
        }
        self.index.push(key);
        self.texts.push(s.to_owned());
        proof {
            assert(self.all() =~= before.all().push(s@));
            assert forall|i: int| 0 <= i < self.texts@.len() implies #[trigger] self.index@[i] == utf8(
                self.texts@[i]@,
            ) by {
                if i < before.texts@.len() {
                    assert(self.index@[i] == before.index@[i]);
                }
            }
        }
    }

    /// The texts are distinct.
    pub proof fn lemma_distinct(&self)
        requires
            self.wf(),
        ensures
            self.all().no_duplicates(),
    {
        self.index.lemma_distinct();
        assert forall|i: int, j: int|
            0 <= i < self.all().len() && 0 <= j < self.all().len() && i != j implies self.all()[i]
            != self.all()[j] by {
            assert(self.index@[i] != self.index@[j]);
        }
    }
}

// ---------------------------------------------------------------------------
// Columns of texts.

/// The bytes that the slots of a column of texts hold together.
pub open spec fn slot_text_bytes(s: Seq<Option<Seq<char>>>) -> nat
    decreases s.len(),
{
    if s.len() == 0 {
        0
    } else {
        slot_text_bytes(s.drop_last()) + match s.last() {
            Some(t) => utf8(t).len(),
            None => 0,
        }
    }
}

/// A column of texts, some of them null, that knows how many bytes it holds.
pub struct TextSlots {
    pub vals: Vec<String>,
    pub valid: Vec<bool>,
    pub heap: usize,
}

impl TextSlots {
    pub open spec fn wf(&self) -> bool {
        &&& self.vals@.len() == self.valid@.len()
        &&& self.heap == wrapped_count(slot_text_bytes(self.slots()))
    }

    /// What each slot holds.
    pub open spec fn slots(&self) -> Seq<Option<Seq<char>>> {
        Seq::new(
            self.vals@.len(),
            |i: int|
                if self.valid@[i] {
                    Some(self.vals@[i]@)
                } else {
                    None
                },
        )
    }

    pub fn new() -> (r: TextSlots)
        ensures
            r.wf(),
            r.slots() == Seq::<Option<Seq<char>>>::empty(),
    {
        let r = TextSlots { vals: Vec::new(), valid: Vec::new(), heap: 0 };
        assert(r.slots() =~= Seq::<Option<Seq<char>>>::empty());
        assert(wrapped_count(0) == 0);
        r
    }

    /// Add a slot.
    pub fn push(&mut self, v: Option<&String>)
        requires
            old(self).wf(),
        ensures
            final(self).wf(),
            final(self).slots() == old(self).slots().push(
                match v {
                    Some(s) => Some(s@),
                    None => None,
                },
            ),
    {
        let ghost before = self.slots();
        match v {
            Some(s) => {
                self.heap = add_count(
                    self.heap,
                    s.as_str().as_bytes().len(),
                    Ghost(slot_text_bytes(before)),
                );
                self.vals.push(s.as_str().to_owned());
                self.valid.push(true);
                assert(self.slots() =~= before.push(Some(s@)));
                assert(before.push(Some(s@)).drop_last() =~= before);
            },
            None => {
                self.vals.push(String::new());
                self.valid.push(false);
                assert(self.slots() =~= before.push(None));
                assert(before.push(None).drop_last() =~= before);
            },
        }
    }

    /// The finished column.
    pub fn finish(&self) -> (c: Column)
        requires
            self.wf(),
        ensures
            c.wf(),
            marks_are(c, self.slots()),
            c.data matches Data::Text(v) && text_views(v@) == text_views(self.vals@),
            c.spec_len() == self.vals@.len(),
    {
        let data = copy_texts(&self.vals);
        assert(text_views(data@).len() == text_views(self.vals@).len());
        Column { valid: Some(copy_all(&self.valid)), data: Data::Text(data) }
    }
}

// ---------------------------------------------------------------------------
// Columns of byte strings of one width.

/// The byte string of the right width, or none: anything that is neither empty
/// nor the exact width is malformed and becomes null rather than an error.
pub open spec fn of_width(v: Seq<u8>, width: nat) -> Option<Seq<u8>> {
    if v.len() == width {
        Some(v)
    } else {
        None
    }
}

/// A column of byte strings of one width, some of them null.
pub struct FixedSlots {
    pub vals: Vec<Vec<u8>>,
    pub valid: Vec<bool>,
    pub width: usize,
}

impl FixedSlots {
    pub open spec fn wf(&self) -> bool {
        &&& self.vals@.len() == self.valid@.len()
        &&& forall|i: int| 0 <= i < self.vals@.len() ==> (#[trigger] self.vals@[i])@.len() == self.width
    }

    /// What each slot holds.
    pub open spec fn slots(&self) -> Seq<Option<Seq<u8>>> {
        Seq::new(
            self.vals@.len(),
            |i: int|
                if self.valid@[i] {
                    Some(self.vals@[i]@)
                } else {
                    None
                },
        )
    }

    pub fn new(width: usize) -> (r: FixedSlots)
        ensures
            r.wf(),
            r.width == width,
            r.slots() == Seq::<Option<Seq<u8>>>::empty(),
    {
        let r = FixedSlots { vals: Vec::new(), valid: Vec::new(), width };
        assert(r.slots() =~= Seq::<Option<Seq<u8>>>::empty());
        r
    }

    /// Add an id, which becomes null where it is not of the column's width: a
    /// bad id must not cost the caller the whole export.
    pub fn append_fixed(&mut self, v: &Vec<u8>)
        requires
            old(self).wf(),
        ensures
            final(self).wf(),
            final(self).width == old(self).width,
            final(self).slots() == old(self).slots().push(of_width(v@, old(self).width as nat)),
    {
        let ghost before = *self;
        if v.len() == self.width {
            self.vals.push(copy_all(v));
            self.valid.push(true);
        } else {
            let mut zeros: Vec<u8> = Vec::new();
            let mut i: usize = 0;
            while i < self.width
                invariant
                    i <= self.width,
                    zeros@.len() == i,
                decreases self.width - i,
            {
                zeros.push(0);
                i = i + 1;
            }
            self.vals.push(zeros);
            self.valid.push(false);
        }
        proof {
            assert(self.slots() =~= before.slots().push(of_width(v@, before.width as nat)));
            assert forall|i: int| 0 <= i < self.vals@.len() implies (#[trigger] self.vals@[i])@.len()
                == self.width by {
                if i < before.vals@.len() {
                    assert(before.vals@[i]@.len() == before.width);
                }
            }
        }
    }

    /// The finished column.
    pub fn finish(&self) -> (c: Column)
        requires
            self.wf(),
        ensures
            c.wf(),
            marks_are(c, self.slots()),
            c.data matches Data::Fixed(v) && byte_views(v@) == byte_views(self.vals@) && (forall|
                i: int,
            |
                0 <= i < v@.len() ==> (#[trigger] v@[i])@.len() == self.width),
            c.spec_len() == self.vals@.len(),
    {
        let data = copy_bytes(&self.vals);
        proof {
            assert(byte_views(data@).len() == byte_views(self.vals@).len());
            assert forall|i: int| 0 <= i < data@.len() implies (#[trigger] data@[i])@.len() == self.width by {
                assert(byte_views(data@)[i] == byte_views(self.vals@)[i]);
                assert(self.vals@[i]@.len() == self.width);
            }
        }
        Column { valid: Some(copy_all(&self.valid)), data: Data::Fixed(data) }
    }
}

/// Multiply a wrapped count.
pub(crate) fn mul_count(a: usize, k: usize, Ghost(n): Ghost<nat>) -> (r: usize)
    requires
        a == wrapped_count(n),
    ensures
        r == wrapped_count(n * k as nat),
{
    let r: usize = a.wrapping_mul(k);
    proof {
        let m = usize::MAX as nat + 1;
        vstd::arithmetic::div_mod::lemma_mul_mod_noop_left(n as int, k as int, m as int);
    }
    r
}

// ---------------------------------------------------------------------------
// Finished columns.

/// A finished column of 16-bit numbers, none of them null.
pub open spec fn is_u16s(c: Column, vals: Seq<u16>) -> bool {
    &&& c.valid is None
    &&& c.data matches Data::U16(v) && v@ == vals
}

/// A finished column of 32-bit numbers, none of them null.
pub open spec fn is_u32s(c: Column, vals: Seq<u32>) -> bool {
    &&& c.valid is None
    &&& c.data matches Data::U32(v) && v@ == vals
}

/// A finished column of signed 32-bit numbers, none of them null.
pub open spec fn is_i32s(c: Column, vals: Seq<i32>) -> bool {
    &&& c.valid is None
    &&& c.data matches Data::I32(v) && v@ == vals
}

/// A finished column of bytes, none of them null.
pub open spec fn is_u8s(c: Column, vals: Seq<u8>) -> bool {
    &&& c.valid is None
    &&& c.data matches Data::U8(v) && v@ == vals
}

/// A finished column of 64-bit numbers, none of them null.
pub open spec fn is_u64s(c: Column, vals: Seq<u64>) -> bool {
    &&& c.valid is None
    &&& c.data matches Data::U64(v) && v@ == vals
}

/// A finished column of booleans, none of them null.
pub open spec fn is_bools(c: Column, vals: Seq<bool>) -> bool {
    &&& c.valid is None
    &&& c.data matches Data::Bool(v) && v@ == vals
}

/// A finished column of times, none of them null.
pub open spec fn is_times(c: Column, vals: Seq<i64>) -> bool {
    &&& c.valid is None
    &&& c.data matches Data::Time(v) && v@ == vals
}

/// A finished column of times, some of them null.
pub open spec fn is_time_slots(c: Column, slots: Seq<Option<i64>>) -> bool {
    &&& marks_are(c, slots)
    &&& c.data matches Data::Time(v) && v@.len() == slots.len() && forall|i: int|
        0 <= i < slots.len() && slots[i] is Some ==> (#[trigger] v@[i]) == slots[i].unwrap()
}

/// A finished column of signed 64-bit numbers, some of them null.
pub open spec fn is_i64_slots(c: Column, slots: Seq<Option<i64>>) -> bool {
    &&& marks_are(c, slots)
    &&& c.data matches Data::I64(v) && v@.len() == slots.len() && forall|i: int|
        0 <= i < slots.len() && slots[i] is Some ==> (#[trigger] v@[i]) == slots[i].unwrap()
}

/// A finished column of 64-bit numbers, some of them null.
pub open spec fn is_u64_slots(c: Column, slots: Seq<Option<u64>>) -> bool {
    &&& marks_are(c, slots)
    &&& c.data matches Data::U64(v) && v@.len() == slots.len() && forall|i: int|
        0 <= i < slots.len() && slots[i] is Some ==> (#[trigger] v@[i]) == slots[i].unwrap()
}

/// A finished column of 32-bit numbers, some of them null.
pub open spec fn is_u32_slots(c: Column, slots: Seq<Option<u32>>) -> bool {
    &&& marks_are(c, slots)
    &&& c.data matches Data::U32(v) && v@.len() == slots.len() && forall|i: int|
        0 <= i < slots.len() && slots[i] is Some ==> (#[trigger] v@[i]) == slots[i].unwrap()
}

/// A finished column of doubles, some of them null.
pub open spec fn is_double_slots(c: Column, slots: Seq<Option<u64>>) -> bool {
    &&& marks_are(c, slots)
    &&& c.data matches Data::Double(v) && v@.len() == slots.len() && forall|i: int|
        0 <= i < slots.len() && slots[i] is Some ==> (#[trigger] v@[i]) == slots[i].unwrap()
}

/// A finished column of texts, some of them null.
pub open spec fn is_text_slots(c: Column, slots: Seq<Option<Seq<char>>>) -> bool {
    &&& marks_are(c, slots)
    &&& c.data matches Data::Text(v) && v@.len() == slots.len() && forall|i: int|
        0 <= i < slots.len() && slots[i] is Some ==> (#[trigger] v@[i])@ == slots[i].unwrap()
}

/// A finished column of byte strings, some of them null.
pub open spec fn is_byte_slots(c: Column, slots: Seq<Option<Seq<u8>>>) -> bool {
    &&& marks_are(c, slots)
    &&& c.data matches Data::Binary(v) && v@.len() == slots.len() && forall|i: int|
        0 <= i < slots.len() && slots[i] is Some ==> (#[trigger] v@[i])@ == slots[i].unwrap()
}

/// A finished column of byte strings of one width, some of them null.
pub open spec fn is_fixed_slots(c: Column, slots: Seq<Option<Seq<u8>>>, width: nat) -> bool {
    &&& marks_are(c, slots)
    &&& c.data matches Data::Fixed(v) && v@.len() == slots.len() && (forall|i: int|
        0 <= i < slots.len() && slots[i] is Some ==> (#[trigger] v@[i])@ == slots[i].unwrap()) && (
    forall|i: int| 0 <= i < v@.len() ==> (#[trigger] v@[i])@.len() == width)
}

fn marks<T: Copy>(s: &Slots<T>) -> (v: Option<Vec<bool>>)
    requires
        s.wf(),
    ensures
        v matches Some(m) && m@ == s.valid@,
{
    Some(copy_all(&s.valid))
}

/// The finished column of some times.
pub fn finish_times(s: &Slots<i64>) -> (c: Column)
    requires
        s.wf(),
    ensures
        is_time_slots(c, s.slots()),
        c.wf(),
        c.spec_len() == s.slots().len(),
{
    Column { valid: marks(s), data: Data::Time(copy_all(&s.vals)) }
}

/// The finished column of some signed 64-bit numbers.
pub fn finish_i64s(s: &Slots<i64>) -> (c: Column)
    requires
        s.wf(),
    ensures
        is_i64_slots(c, s.slots()),
        c.wf(),
        c.spec_len() == s.slots().len(),
{
    Column { valid: marks(s), data: Data::I64(copy_all(&s.vals)) }
}

/// The finished column of some 64-bit numbers.
pub fn finish_u64s(s: &Slots<u64>) -> (c: Column)
    requires
        s.wf(),
    ensures
        is_u64_slots(c, s.slots()),
        c.wf(),
        c.spec_len() == s.slots().len(),
{
    Column { valid: marks(s), data: Data::U64(copy_all(&s.vals)) }
}

/// The finished column of some 32-bit numbers.
pub fn finish_u32s(s: &Slots<u32>) -> (c: Column)
    requires
        s.wf(),
    ensures
        is_u32_slots(c, s.slots()),
        c.wf(),
        c.spec_len() == s.slots().len(),
{
    Column { valid: marks(s), data: Data::U32(copy_all(&s.vals)) }
}

/// The finished column of some doubles.
pub fn finish_doubles(s: &Slots<u64>) -> (c: Column)
    requires
        s.wf(),
    ensures
        is_double_slots(c, s.slots()),
        c.wf(),
        c.spec_len() == s.slots().len(),
{
    Column { valid: marks(s), data: Data::Double(copy_all(&s.vals)) }
}

/// The finished column of some texts.
pub fn finish_texts(s: &TextSlots) -> (c: Column)
    requires
        s.wf(),
    ensures
        is_text_slots(c, s.slots()),
        c.wf(),
        c.spec_len() == s.slots().len(),
{
    let c = s.finish();
    proof {
        let v = c.data->Text_0@;
        assert(text_views(v).len() == text_views(s.vals@).len());
        assert forall|i: int| 0 <= i < s.slots().len() && s.slots()[i] is Some implies (
        #[trigger] v[i])@ == s.slots()[i].unwrap() by {
            assert(text_views(v)[i] == text_views(s.vals@)[i]);
        }
    }
    c
}

/// The finished column of some byte strings.
pub fn finish_bytes(s: &ByteSlots) -> (c: Column)
    requires
        s.wf(),
    ensures
        is_byte_slots(c, s.slots()),
        c.wf(),
        c.spec_len() == s.slots().len(),
{
    let c = s.finish();
    proof {
        let v = c.data->Binary_0@;
        assert(byte_views(v).len() == byte_views(s.vals@).len());
        assert forall|i: int| 0 <= i < s.slots().len() && s.slots()[i] is Some implies (
        #[trigger] v[i])@ == s.slots()[i].unwrap() by {
            assert(byte_views(v)[i] == byte_views(s.vals@)[i]);
        }
    }
    c
}

/// The finished column of some ids.
pub fn finish_ids(s: &FixedSlots) -> (c: Column)
    requires
        s.wf(),
    ensures
        is_fixed_slots(c, s.slots(), s.width as nat),
        c.wf(),
        c.spec_len() == s.slots().len(),
{
    let c = s.finish();
    proof {
        let v = c.data->Fixed_0@;
        assert(byte_views(v).len() == byte_views(s.vals@).len());
        assert forall|i: int| 0 <= i < s.slots().len() && s.slots()[i] is Some implies (
        #[trigger] v[i])@ == s.slots()[i].unwrap() by {
            assert(byte_views(v)[i] == byte_views(s.vals@)[i]);
        }
    }
    c
}

/// The numbers below `n`, as a column's values.
pub open spec fn counting(n: nat) -> Seq<u32> {
    Seq::new(n, |i: int| i as u32)
}

/// The numbers below `n`.
pub fn count_up(n: u32) -> (v: Vec<u32>)
    ensures
        v@ == counting(n as nat),
{
    let mut out: Vec<u32> = Vec::new();
    let mut i: u32 = 0;
    while i < n
        invariant
            i <= n,
            out@ == counting(i as nat),
        decreases n - i,
    {
        out.push(i);
        assert(out@ =~= counting((i + 1) as nat));
        i = i + 1;
    }
    out
}

} // verus!
