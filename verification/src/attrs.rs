//! Attribute tables, which every signal has in common, and the interned
//! resources and scopes that front them.

use crate::attrfilter::{attrs_shaped, codes_of, key_at, names_of, parents_of, types_of};
use crate::columns::{
    add_count, byte_views, copy_all, copy_texts, firsts, lemma_slot_bytes, marks_are, slot_bytes,
    text_views, wrapped_count, ByteSlots, Slots, TextIndex,
};
use crate::error::Error;
use crate::order::utf8;
use crate::otlp::{AnyKind, AnyValue, KeyValue, Pair, Val};
use crate::proto::{any_bytes, encode_kind};
use crate::schema::{AttrType, DICT_CAP};
use crate::table::{Column, Data, Field, Table};
use vstd::prelude::*;

verus! {

// ---------------------------------------------------------------------------
// A dictionary column.

/// A column of texts by their position in a dictionary, that knows how full it
/// is: the decision to seal a block has to be made before an append that would
/// not fit, because what has been appended cannot be taken back.
pub struct DictColumn {
    pub label: &'static str,
    pub codes: Vec<u16>,
    pub valid: Vec<bool>,
    pub dict: TextIndex,
}

/// Whether a text still fits a dictionary of at most `cap` entries.
pub open spec fn fits_dict(seen: Seq<Seq<char>>, s: Seq<char>, cap: nat) -> bool {
    seen.contains(s) || seen.len() < cap
}

/// A finished dictionary column: what each slot holds is what the dictionary
/// says, and the dictionary lists the texts as they first occurred.
pub open spec fn is_dict(c: Column, slots: Seq<Option<Seq<char>>>) -> bool {
    &&& c.wf()
    &&& marks_are(c, slots)
    &&& c.data matches Data::Dict16(k, d) && {
        &&& k@.len() == slots.len()
        &&& text_views(d@) == firsts(slots)
        &&& forall|i: int|
            0 <= i < slots.len() && slots[i] is Some ==> (#[trigger] k@[i]) < d@.len()
                && d@[k@[i] as int]@ == slots[i].unwrap()
    }
}

impl DictColumn {
    pub closed spec fn wf(&self) -> bool {
        &&& self.dict.wf()
        &&& self.codes@.len() == self.valid@.len()
        &&& self.dict.all() == firsts(self.slots())
        &&& self.dict.all().len() <= DICT_CAP
        &&& forall|i: int|
            0 <= i < self.codes@.len() && self.valid@[i] ==> (#[trigger] self.codes@[i])
                < self.dict.all().len()
    }

    /// What each slot holds.
    pub closed spec fn slots(&self) -> Seq<Option<Seq<char>>> {
        Seq::new(
            self.codes@.len(),
            |i: int|
                if self.valid@[i] {
                    Some(self.dict.all()[self.codes@[i] as int])
                } else {
                    None
                },
        )
    }

    pub fn new(label: &'static str) -> (r: DictColumn)
        ensures
            r.wf(),
            r.slots() == Seq::<Option<Seq<char>>>::empty(),
            r.label == label,
    {
        let r = DictColumn { label, codes: Vec::new(), valid: Vec::new(), dict: TextIndex::new() };
        assert(r.slots() =~= Seq::<Option<Seq<char>>>::empty());
        r
    }

    /// How many slots there are.
    pub fn len(&self) -> (n: usize)
        ensures
            n == self.slots().len(),
    {
        self.codes.len()
    }

    /// Whether `n` more distinct values fit.
    pub fn has_headroom(&self, n: usize) -> (r: bool)
        requires
            self.wf(),
        ensures
            r == (firsts(self.slots()).len() + n <= DICT_CAP),
    {
        n <= DICT_CAP && self.dict.texts.len() <= DICT_CAP - n
    }

    /// Add a value, which may be the empty one.
    pub fn put(&mut self, v: &str) -> (r: Result<(), Error>)
        requires
            old(self).wf(),
        ensures
            final(self).wf(),
            final(self).label == old(self).label,
            r is Ok <==> fits_dict(firsts(old(self).slots()), v@, DICT_CAP as nat),
            r is Ok ==> final(self).slots() == old(self).slots().push(Some(v@)),
            r matches Err(e) ==> e == Error::DictionaryFull(old(self).label) && final(self).slots()
                == old(self).slots(),
    {
        let ghost before = *self;
        let code: u16 = match self.dict.find(v) {
            Some(k) => {
                assert(self.dict.all().contains(v@)) by {
                    assert(self.dict.all()[k as int] == v@);
                }
                k as u16
            },
            None => {
                let n: usize = self.dict.texts.len();
                if n >= DICT_CAP {
                    return Err(Error::DictionaryFull(self.label));
                }
                self.dict.push(v);
                n as u16
            },
        };
        self.codes.push(code);
        self.valid.push(true);
        proof {
            let s = before.slots();
            assert(self.dict.all()[code as int] == v@);
            assert forall|i: int| 0 <= i < s.len() implies self.slots()[i] == s[i] by {
                if before.valid@[i] {
                    assert(before.codes@[i] < before.dict.all().len());
                    assert(self.dict.all()[before.codes@[i] as int] == before.dict.all()[before.codes@[i] as int]);
                }
            }
            assert(self.slots() =~= s.push(Some(v@)));
            assert(s.push(Some(v@)).drop_last() =~= s);
            assert forall|i: int| 0 <= i < self.codes@.len() && self.valid@[i] implies (
            #[trigger] self.codes@[i]) < self.dict.all().len() by {
                if i < before.codes@.len() {
                    assert(before.codes@[i] < before.dict.all().len());
                }
            }
        }
        Ok(())
    }

    /// Add a null.
    pub fn put_null(&mut self)
        requires
            old(self).wf(),
        ensures
            final(self).wf(),
            final(self).label == old(self).label,
            final(self).slots() == old(self).slots().push(None),
    {
        let ghost before = *self;
        self.codes.push(0);
        self.valid.push(false);
        proof {
            let s = before.slots();
            assert(self.slots() =~= s.push(None));
            assert(s.push(None).drop_last() =~= s);
            assert forall|i: int| 0 <= i < self.codes@.len() && self.valid@[i] implies (
            #[trigger] self.codes@[i]) < self.dict.all().len() by {
                assert(before.codes@[i] < before.dict.all().len());
            }
        }
    }

    /// Add a value; the empty text becomes null rather than an entry, since an
    /// unset string and an empty one are the same on the wire.
    pub fn append(&mut self, v: &str) -> (r: Result<(), Error>)
        requires
            old(self).wf(),
        ensures
            final(self).wf(),
            final(self).label == old(self).label,
            r is Ok <==> v@.len() == 0 || fits_dict(
                firsts(old(self).slots()),
                v@,
                DICT_CAP as nat,
            ),
            r is Ok ==> final(self).slots() == old(self).slots().push(
                if v@.len() == 0 {
                    None
                } else {
                    Some(v@)
                },
            ),
            r matches Err(e) ==> e == Error::DictionaryFull(old(self).label) && final(self).slots()
                == old(self).slots(),
    {
        if v.is_empty() {
            self.put_null();
            return Ok(());
        }
        self.put(v)
    }

    /// The finished column. The builder goes on accumulating.
    pub fn finish(&self) -> (c: Column)
        requires
            self.wf(),
        ensures
            is_dict(c, self.slots()),
            c.spec_len() == self.slots().len(),
    {
        let texts = copy_texts(&self.dict.texts);
        let c = Column {
            valid: Some(copy_all(&self.valid)),
            data: Data::Dict16(copy_all(&self.codes), texts),
        };
        proof {
            let s = self.slots();
            assert(text_views(texts@).len() == self.dict.all().len());
            assert forall|i: int| 0 <= i < s.len() && s[i] is Some implies texts@[self.codes@[i] as int]@
                == s[i].unwrap() by {
                assert(text_views(texts@)[self.codes@[i] as int] == self.dict.all()[self.codes@[i] as int]);
            }
        }
        c
    }
}

// ---------------------------------------------------------------------------
// The values of string attributes.

/// The bytes of several texts together.
pub open spec fn text_bytes(s: Seq<Seq<char>>) -> nat
    decreases s.len(),
{
    if s.len() == 0 {
        0
    } else {
        text_bytes(s.drop_last()) + utf8(s.last()).len()
    }
}

/// How many distinct texts 32-bit positions can tell apart.
pub open spec fn str_cap() -> nat {
    0x1_0000_0000
}

/// A finished column of texts by 32-bit position.
pub open spec fn is_wide_dict(c: Column, slots: Seq<Option<Seq<char>>>) -> bool {
    &&& c.wf()
    &&& marks_are(c, slots)
    &&& c.data matches Data::Dict32(k, d) && {
        &&& k@.len() == slots.len()
        &&& text_views(d@) == firsts(slots)
        &&& forall|i: int|
            0 <= i < slots.len() && slots[i] is Some ==> (#[trigger] k@[i]) < d@.len()
                && d@[k@[i] as int]@ == slots[i].unwrap()
    }
}

/// A column of texts by their position in a dictionary that never fills up in
/// practice, and the bytes the dictionary holds: with a dictionary the heap is
/// what survives deduplication rather than what was appended.
pub struct StrDict {
    pub codes: Vec<u32>,
    pub valid: Vec<bool>,
    pub dict: TextIndex,
    pub heap: usize,
}

impl StrDict {
    pub open spec fn wf(&self) -> bool {
        &&& self.dict.wf()
        &&& self.codes@.len() == self.valid@.len()
        &&& self.dict.all() == firsts(self.slots())
        &&& self.dict.all().len() <= str_cap()
        &&& self.heap == wrapped_count(text_bytes(self.dict.all()))
        &&& forall|i: int|
            0 <= i < self.codes@.len() && self.valid@[i] ==> (#[trigger] self.codes@[i])
                < self.dict.all().len()
    }

    /// What each slot holds.
    pub open spec fn slots(&self) -> Seq<Option<Seq<char>>> {
        Seq::new(
            self.codes@.len(),
            |i: int|
                if self.valid@[i] {
                    Some(self.dict.all()[self.codes@[i] as int])
                } else {
                    None
                },
        )
    }

    fn new() -> (r: StrDict)
        ensures
            r.wf(),
            r.slots() == Seq::<Option<Seq<char>>>::empty(),
    {
        let r = StrDict {
            codes: Vec::new(),
            valid: Vec::new(),
            dict: TextIndex::new(),
            heap: 0,
        };
        assert(r.slots() =~= Seq::<Option<Seq<char>>>::empty());
        assert(wrapped_count(0) == 0);
        r
    }

    /// Whether a text still fits.
    fn has_room(&self, v: &str) -> (r: bool)
        requires
            self.wf(),
        ensures
            r == fits_dict(firsts(self.slots()), v@, str_cap()),
    {
        match self.dict.find(v) {
            Some(k) => {
                assert(self.dict.all()[k as int] == v@);
                true
            },
            None => (self.dict.texts.len() as u64) < 0x1_0000_0000,
        }
    }

    fn put(&mut self, v: &str)
        requires
            old(self).wf(),
            fits_dict(firsts(old(self).slots()), v@, str_cap()),
        ensures
            final(self).wf(),
            final(self).slots() == old(self).slots().push(Some(v@)),
    {
        let ghost before = *self;
        let code: u32 = match self.dict.find(v) {
            Some(k) => {
                assert(self.dict.all()[k as int] == v@);
                k as u32
            },
            None => {
                let n: usize = self.dict.texts.len();
                self.heap = add_count(
                    self.heap,
                    v.as_bytes().len(),
                    Ghost(text_bytes(self.dict.all())),
                );
                self.dict.push(v);
                assert(self.dict.all().drop_last() =~= before.dict.all());
                n as u32
            },
        };
        self.codes.push(code);
        self.valid.push(true);
        proof {
            let s = before.slots();
            assert(self.dict.all()[code as int] == v@);
            assert forall|i: int| 0 <= i < s.len() implies self.slots()[i] == s[i] by {
                if before.valid@[i] {
                    assert(before.codes@[i] < before.dict.all().len());
                    assert(self.dict.all()[before.codes@[i] as int] == before.dict.all()[before.codes@[i] as int]);
                }
            }
            assert(self.slots() =~= s.push(Some(v@)));
            assert(s.push(Some(v@)).drop_last() =~= s);
            assert forall|i: int| 0 <= i < self.codes@.len() && self.valid@[i] implies (
            #[trigger] self.codes@[i]) < self.dict.all().len() by {
                if i < before.codes@.len() {
                    assert(before.codes@[i] < before.dict.all().len());
                }
            }
        }
    }

    fn put_null(&mut self)
        requires
            old(self).wf(),
        ensures
            final(self).wf(),
            final(self).slots() == old(self).slots().push(None),
    {
        let ghost before = *self;
        self.codes.push(0);
        self.valid.push(false);
        proof {
            let s = before.slots();
            assert(self.slots() =~= s.push(None));
            assert(s.push(None).drop_last() =~= s);
            assert forall|i: int| 0 <= i < self.codes@.len() && self.valid@[i] implies (
            #[trigger] self.codes@[i]) < self.dict.all().len() by {
                assert(before.codes@[i] < before.dict.all().len());
            }
        }
    }

    fn finish(&self) -> (c: Column)
        requires
            self.wf(),
        ensures
            is_wide_dict(c, self.slots()),
            c.spec_len() == self.slots().len(),
    {
        let texts = copy_texts(&self.dict.texts);
        let c = Column {
            valid: Some(copy_all(&self.valid)),
            data: Data::Dict32(copy_all(&self.codes), texts),
        };
        proof {
            let s = self.slots();
            assert(text_views(texts@).len() == self.dict.all().len());
            assert forall|i: int| 0 <= i < s.len() && s[i] is Some implies texts@[self.codes@[i] as int]@
                == s[i].unwrap() by {
                assert(text_views(texts@)[self.codes@[i] as int] == self.dict.all()[self.codes@[i] as int]);
            }
        }
        c
    }
}

// ---------------------------------------------------------------------------
// An attribute table.

/// One attribute: whose it is, its key and its value.
pub struct AttrRow {
    pub parent: u32,
    pub key: Seq<char>,
    pub value: Val,
}

/// The type a value is stored under.
pub open spec fn type_of(v: Val) -> AttrType {
    match v {
        Val::Empty => AttrType::Empty,
        Val::Str(_) => AttrType::Str,
        Val::Int(_) => AttrType::Int,
        Val::Double(_) => AttrType::Double,
        Val::Bool(_) => AttrType::Bool,
        Val::Bytes(_) => AttrType::Bytes,
        Val::Array(_) => AttrType::Slice,
        Val::Kvlist(_) => AttrType::KvList,
    }
}

/// The value of an attribute that may have none.
pub open spec fn value_or_empty(v: Option<Val>) -> Val {
    match v {
        Some(x) => x,
        None => Val::Empty,
    }
}

pub open spec fn parents_in(rows: Seq<AttrRow>) -> Seq<u32> {
    rows.map_values(|r: AttrRow| r.parent)
}

pub open spec fn keys_in(rows: Seq<AttrRow>) -> Seq<Option<Seq<char>>> {
    rows.map_values(|r: AttrRow| Some(r.key))
}

pub open spec fn types_in(rows: Seq<AttrRow>) -> Seq<u8> {
    rows.map_values(|r: AttrRow| type_of(r.value).number())
}

pub open spec fn str_in(v: Val) -> Option<Seq<char>> {
    match v {
        Val::Str(s) => Some(s),
        _ => None,
    }
}

pub open spec fn int_in(v: Val) -> Option<i64> {
    match v {
        Val::Int(i) => Some(i),
        _ => None,
    }
}

pub open spec fn double_in(v: Val) -> Option<u64> {
    match v {
        Val::Double(d) => Some(d),
        _ => None,
    }
}

pub open spec fn bool_in(v: Val) -> Option<bool> {
    match v {
        Val::Bool(b) => Some(b),
        _ => None,
    }
}

pub open spec fn bytes_in(v: Val) -> Option<Seq<u8>> {
    match v {
        Val::Bytes(b) => Some(b),
        _ => None,
    }
}

/// An array or a key-value list, as the bytes of its message.
pub open spec fn ser_in(v: Val) -> Option<Seq<u8>> {
    match v {
        Val::Array(_) => Some(any_bytes(v)),
        Val::Kvlist(_) => Some(any_bytes(v)),
        _ => None,
    }
}

pub open spec fn strs_in(rows: Seq<AttrRow>) -> Seq<Option<Seq<char>>> {
    rows.map_values(|r: AttrRow| str_in(r.value))
}

pub open spec fn ints_in(rows: Seq<AttrRow>) -> Seq<Option<i64>> {
    rows.map_values(|r: AttrRow| int_in(r.value))
}

pub open spec fn doubles_in(rows: Seq<AttrRow>) -> Seq<Option<u64>> {
    rows.map_values(|r: AttrRow| double_in(r.value))
}

pub open spec fn bools_in(rows: Seq<AttrRow>) -> Seq<Option<bool>> {
    rows.map_values(|r: AttrRow| bool_in(r.value))
}

pub open spec fn byteses_in(rows: Seq<AttrRow>) -> Seq<Option<Seq<u8>>> {
    rows.map_values(|r: AttrRow| bytes_in(r.value))
}

pub open spec fn sers_in(rows: Seq<AttrRow>) -> Seq<Option<Seq<u8>>> {
    rows.map_values(|r: AttrRow| ser_in(r.value))
}

/// Whether a table still takes a row: its key and, where it is a string, its
/// value fit their dictionaries.
pub open spec fn takes(rows: Seq<AttrRow>, row: AttrRow) -> bool {
    &&& fits_dict(firsts(keys_in(rows)), row.key, DICT_CAP as nat)
    &&& row.value matches Val::Str(s) ==> fits_dict(firsts(strs_in(rows)), s, str_cap())
}

/// The bytes held in the variable-width value heaps: each distinct string once,
/// and every byte string and nested value.
pub open spec fn heap_of(rows: Seq<AttrRow>) -> nat {
    text_bytes(firsts(strs_in(rows))) + slot_bytes(byteses_in(rows)) + slot_bytes(sers_in(rows))
}

/// Builder for one attribute table: log, span, event, link, data point,
/// exemplar, resource or scope. They are all the same nine columns.
pub struct AttrsBuilder {
    pub label: &'static str,
    pub parent_id: Vec<u32>,
    pub key: DictColumn,
    pub ty: Vec<u8>,
    pub str_: StrDict,
    pub int: Slots<i64>,
    pub double: Slots<u64>,
    pub bool_: Slots<bool>,
    pub bytes: ByteSlots,
    pub ser: ByteSlots,
    pub rows: Ghost<Seq<AttrRow>>,
}

impl View for AttrsBuilder {
    type V = Seq<AttrRow>;

    open spec fn view(&self) -> Seq<AttrRow> {
        self.rows@
    }
}

/// The value an attribute carries.
pub open spec fn val_of(v: Option<&AnyValue>) -> Val {
    match v {
        Some(x) => x.val(),
        None => Val::Empty,
    }
}

proof fn lemma_rows_push(rows: Seq<AttrRow>, r: AttrRow)
    ensures
        parents_in(rows.push(r)) == parents_in(rows).push(r.parent),
        keys_in(rows.push(r)) == keys_in(rows).push(Some(r.key)),
        types_in(rows.push(r)) == types_in(rows).push(type_of(r.value).number()),
        strs_in(rows.push(r)) == strs_in(rows).push(str_in(r.value)),
        ints_in(rows.push(r)) == ints_in(rows).push(int_in(r.value)),
        doubles_in(rows.push(r)) == doubles_in(rows).push(double_in(r.value)),
        bools_in(rows.push(r)) == bools_in(rows).push(bool_in(r.value)),
        byteses_in(rows.push(r)) == byteses_in(rows).push(bytes_in(r.value)),
        sers_in(rows.push(r)) == sers_in(rows).push(ser_in(r.value)),
{
    assert(parents_in(rows.push(r)) =~= parents_in(rows).push(r.parent));
    assert(keys_in(rows.push(r)) =~= keys_in(rows).push(Some(r.key)));
    assert(types_in(rows.push(r)) =~= types_in(rows).push(type_of(r.value).number()));
    assert(strs_in(rows.push(r)) =~= strs_in(rows).push(str_in(r.value)));
    assert(ints_in(rows.push(r)) =~= ints_in(rows).push(int_in(r.value)));
    assert(doubles_in(rows.push(r)) =~= doubles_in(rows).push(double_in(r.value)));
    assert(bools_in(rows.push(r)) =~= bools_in(rows).push(bool_in(r.value)));
    assert(byteses_in(rows.push(r)) =~= byteses_in(rows).push(bytes_in(r.value)));
    assert(sers_in(rows.push(r)) =~= sers_in(rows).push(ser_in(r.value)));
}

impl AttrsBuilder {
    /// All nine columns hold the rows.
    pub closed spec fn wf(&self) -> bool {
        &&& self.parent_id@ == parents_in(self@)
        &&& self.key.wf()
        &&& self.key.slots() == keys_in(self@)
        &&& self.key.label == self.label
        &&& self.ty@ == types_in(self@)
        &&& self.str_.wf()
        &&& self.str_.slots() == strs_in(self@)
        &&& self.int.wf()
        &&& self.int.slots() == ints_in(self@)
        &&& self.double.wf()
        &&& self.double.slots() == doubles_in(self@)
        &&& self.bool_.wf()
        &&& self.bool_.slots() == bools_in(self@)
        &&& self.bytes.wf()
        &&& self.bytes.slots() == byteses_in(self@)
        &&& self.ser.wf()
        &&& self.ser.slots() == sers_in(self@)
    }

    pub fn new(label: &'static str) -> (r: AttrsBuilder)
        ensures
            r.wf(),
            r@ == Seq::<AttrRow>::empty(),
            r.label == label,
    {
        let r = AttrsBuilder {
            label,
            parent_id: Vec::new(),
            key: DictColumn::new(label),
            ty: Vec::new(),
            str_: StrDict::new(),
            int: Slots::new(),
            double: Slots::new(),
            bool_: Slots::new(),
            bytes: ByteSlots::new(),
            ser: ByteSlots::new(),
            rows: Ghost(Seq::empty()),
        };
        proof {
            let none = Seq::<AttrRow>::empty();
            assert(parents_in(none) =~= Seq::<u32>::empty());
            assert(keys_in(none) =~= Seq::<Option<Seq<char>>>::empty());
            assert(types_in(none) =~= Seq::<u8>::empty());
            assert(strs_in(none) =~= Seq::<Option<Seq<char>>>::empty());
            assert(ints_in(none) =~= Seq::<Option<i64>>::empty());
            assert(doubles_in(none) =~= Seq::<Option<u64>>::empty());
            assert(bools_in(none) =~= Seq::<Option<bool>>::empty());
            assert(byteses_in(none) =~= Seq::<Option<Seq<u8>>>::empty());
            assert(sers_in(none) =~= Seq::<Option<Seq<u8>>>::empty());
        }
        r
    }

    pub fn len(&self) -> (n: usize)
        requires
            self.wf(),
        ensures
            n == self@.len(),
    {
        self.ty.len()
    }

    pub fn is_empty(&self) -> (r: bool)
        requires
            self.wf(),
        ensures
            r == (self@.len() == 0),
    {
        self.len() == 0
    }

    /// Whether `n` more attribute rows are guaranteed not to overflow the key
    /// dictionary. Assumes every one of them is a new key, because the cheap
    /// check has to be the conservative one.
    pub fn has_headroom(&self, n: usize) -> (r: bool)
        requires
            self.wf(),
        ensures
            r == (firsts(keys_in(self@)).len() + n <= DICT_CAP),
    {
        self.key.has_headroom(n)
    }

    /// Bytes held in the variable-width value heaps. The count wraps at the
    /// width of a word.
    pub fn heap_bytes(&self) -> (r: usize)
        requires
            self.wf(),
        ensures
            r == wrapped_count(heap_of(self@)),
    {
        proof {
            lemma_slot_bytes(self.bytes);
            lemma_slot_bytes(self.ser);
        }
        let ghost a = text_bytes(firsts(strs_in(self@)));
        let ghost b = slot_bytes(byteses_in(self@));
        let ghost c = slot_bytes(sers_in(self@));
        let ab: usize = add_counts(self.str_.heap, self.bytes.heap, Ghost(a), Ghost(b));
        add_counts(ab, self.ser.heap, Ghost(a + b), Ghost(c))
    }

    /// Append one attribute as a row pointing at `parent_id`.
    ///
    /// The dictionaries are looked at first, because they are the only thing
    /// that can refuse. A refusal leaves all nine columns as they were, so the
    /// block is still sealable.
    pub fn append(&mut self, parent_id: u32, key: &str, value: Option<&AnyValue>) -> (r: Result<
        (),
        Error,
    >)
        requires
            old(self).wf(),
        ensures
            final(self).wf(),
            final(self).label == old(self).label,
            ({
                let row = AttrRow { parent: parent_id, key: key@, value: val_of(value) };
                &&& r is Ok <==> takes(old(self)@, row)
                &&& r is Ok ==> final(self)@ == old(self)@.push(row)
                &&& r matches Err(e) ==> e == Error::DictionaryFull(old(self).label) && final(self)@
                    == old(self)@
            }),
    {
        let ghost row = AttrRow { parent: parent_id, key: key@, value: val_of(value) };
        let kind: Option<&AnyKind> = match value {
            Some(v) => match &v.value {
                Some(k) => Some(k),
                None => None,
            },
            None => None,
        };
        if let Some(AnyKind::StringValue(s)) = kind {
            if !self.str_.has_room(s.as_str()) {
                return Err(Error::DictionaryFull(self.label));
            }
        }
        match self.key.put(key) {
            Ok(_) => {},
            Err(e) => {
                return Err(e);
            },
        }
        self.parent_id.push(parent_id);
        let mut number: Option<i64> = None;
        let mut double: Option<u64> = None;
        let mut flag: Option<bool> = None;
        let mut text: Option<&String> = None;
        let mut bytes: Option<&Vec<u8>> = None;
        let mut nested: Option<&AnyKind> = None;
        let ty: AttrType = match kind {
            None => AttrType::Empty,
            Some(k) => match k {
                AnyKind::StringValue(s) => {
                    text = Some(s);
                    AttrType::Str
                },
                AnyKind::IntValue(i) => {
                    number = Some(*i);
                    AttrType::Int
                },
                AnyKind::DoubleValue(d) => {
                    double = Some(*d);
                    AttrType::Double
                },
                AnyKind::BoolValue(b) => {
                    flag = Some(*b);
                    AttrType::Bool
                },
                AnyKind::BytesValue(b) => {
                    bytes = Some(b);
                    AttrType::Bytes
                },
                AnyKind::ArrayValue(_) => {
                    nested = Some(k);
                    AttrType::Slice
                },
                AnyKind::KvlistValue(_) => {
                    nested = Some(k);
                    AttrType::KvList
                },
            },
        };
        self.ty.push(ty.code());
        // Exactly one of the six value columns is non-null per row, and the
        // type says which.
        match text {
            Some(s) => self.str_.put(s.as_str()),
            None => self.str_.put_null(),
        }
        self.int.push(number, 0);
        self.double.push(double, 0);
        self.bool_.push(flag, false);
        match bytes {
            Some(b) => self.bytes.push(copy_all(b)),
            None => self.bytes.push_null(),
        }
        match nested {
            Some(k) => {
                let b = encode_kind(k);
                assert((AnyValue { value: Some(*k) }).val() == row.value);
                self.ser.push(b)
            },
            None => self.ser.push_null(),
        }
        proof {
            lemma_rows_push(old(self)@, row);
            self.rows@ = old(self)@.push(row);
        }
        Ok(())
    }
}

/// Add two wrapped counts.
pub(crate) fn add_counts(a: usize, b: usize, Ghost(m): Ghost<nat>, Ghost(n): Ghost<nat>) -> (r: usize)
    requires
        a == wrapped_count(m),
        b == wrapped_count(n),
    ensures
        r == wrapped_count(m + n),
{
    let r: usize = add_count(a, b, Ghost(m));
    proof {
        let w = usize::MAX as nat + 1;
        vstd::arithmetic::div_mod::lemma_add_mod_noop_right(m as int, n as int, w as int);
    }
    r
}

/// The rows after appending some attributes of one parent, up to the first that
/// is refused, and whether none was.
pub open spec fn appended(rows: Seq<AttrRow>, parent: u32, ps: Seq<Pair>) -> (Seq<AttrRow>, bool)
    decreases ps.len(),
{
    if ps.len() == 0 {
        (rows, true)
    } else {
        let row = AttrRow { parent, key: ps[0].key, value: value_or_empty(ps[0].value) };
        if takes(rows, row) {
            appended(rows.push(row), parent, ps.skip(1))
        } else {
            (rows, false)
        }
    }
}

/// A finished table holds a row: its parent, its key and its type stand in the
/// first three columns; of the six value columns the one that the type names
/// holds the value, and the others are null.
pub open spec fn attr_row_is(t: Table, i: int, row: AttrRow) -> bool {
    &&& parents_of(t)[i] == row.parent
    &&& key_at(t, i) == row.key
    &&& types_of(t)[i] == type_of(row.value).number()
    &&& t.fields@[3].column.holds(i) <==> row.value is Str
    &&& t.fields@[4].column.holds(i) <==> row.value is Int
    &&& t.fields@[5].column.holds(i) <==> row.value is Double
    &&& t.fields@[6].column.holds(i) <==> row.value is Bool
    &&& t.fields@[7].column.holds(i) <==> row.value is Bytes
    &&& t.fields@[8].column.holds(i) <==> row.value is Array || row.value is Kvlist
    &&& match row.value {
        Val::Empty => true,
        Val::Str(s) => t.fields@[3].column.data matches Data::Dict32(k, d) && k@[i] < d@.len()
            && d@[k@[i] as int]@ == s,
        Val::Int(x) => t.fields@[4].column.data matches Data::I64(v) && v@[i] == x,
        Val::Double(x) => t.fields@[5].column.data matches Data::Double(v) && v@[i] == x,
        Val::Bool(x) => t.fields@[6].column.data matches Data::Bool(v) && v@[i] == x,
        Val::Bytes(x) => t.fields@[7].column.data matches Data::Binary(v) && v@[i]@ == x,
        Val::Array(_) => t.fields@[8].column.data matches Data::Binary(v) && v@[i]@ == any_bytes(
            row.value,
        ),
        Val::Kvlist(_) => t.fields@[8].column.data matches Data::Binary(v) && v@[i]@ == any_bytes(
            row.value,
        ),
    }
}

/// The columns of an attribute table, by name and kind.
pub open spec fn is_attrs_table(t: Table) -> bool {
    &&& attrs_shaped(t)
    &&& t.fields@.len() == 9
    &&& t.fields@[0].name@ == "parent_id"@
    &&& t.fields@[1].name@ == "key"@
    &&& t.fields@[2].name@ == "type"@
    &&& t.fields@[3].name@ == "str"@
    &&& t.fields@[4].name@ == "int"@
    &&& t.fields@[5].name@ == "double"@
    &&& t.fields@[6].name@ == "bool"@
    &&& t.fields@[7].name@ == "bytes"@
    &&& t.fields@[8].name@ == "ser"@
    &&& t.fields@[3].column.data is Dict32
    &&& t.fields@[4].column.data is I64
    &&& t.fields@[5].column.data is Double
    &&& t.fields@[6].column.data is Bool
    &&& t.fields@[7].column.data is Binary
    &&& t.fields@[8].column.data is Binary
}

/// A finished attribute table: it has the columns of one, holds the rows in
/// order, and names every key once.
pub open spec fn attrs_table_of(t: Table, rows: Seq<AttrRow>) -> bool {
    &&& is_attrs_table(t)
    &&& t.rows == rows.len()
    &&& text_views(names_of(t)) == firsts(keys_in(rows))
    &&& forall|i: int| 0 <= i < rows.len() ==> attr_row_is(t, i, #[trigger] rows[i])
}

fn field(name: &str, column: Column) -> (f: Field)
    ensures
        f.name@ == name@,
        f.column == column,
{
    Field { name: name.to_owned(), column }
}

impl AttrsBuilder {
    /// Append every attribute of `kvs` as rows pointing at `parent_id`, up to
    /// the first that is refused.
    pub fn append_all(&mut self, parent_id: u32, kvs: &Vec<KeyValue>) -> (r: Result<(), Error>)
        requires
            old(self).wf(),
        ensures
            final(self).wf(),
            final(self).label == old(self).label,
            ({
                let end = appended(old(self)@, parent_id, crate::otlp::pairs(kvs@));
                &&& final(self)@ == end.0
                &&& r is Ok <==> end.1
                &&& r matches Err(e) ==> e == Error::DictionaryFull(old(self).label)
            }),
    {
        let ghost ps = crate::otlp::pairs(kvs@);
        let ghost start = self@;
        proof {
            crate::otlp::lemma_pairs(kvs@);
        }
        let mut i: usize = 0;
        assert(ps.skip(0) =~= ps);
        while i < kvs.len()
            invariant
                i <= kvs@.len(),
                self.wf(),
                self.label == old(self).label,
                ps == crate::otlp::pairs(kvs@),
                start == old(self)@,
                ps.len() == kvs@.len(),
                forall|k: int| 0 <= k < kvs@.len() ==> #[trigger] ps[k] == kvs@[k].pair(),
                appended(start, parent_id, ps) == appended(self@, parent_id, ps.skip(i as int)),
            decreases kvs@.len() - i,
        {
            assert(ps.skip(i as int)[0] == ps[i as int]);
            assert(ps.skip(i as int).skip(1) =~= ps.skip(i + 1));
            let kv = &kvs[i];
            let value: Option<&AnyValue> = match &kv.value {
                Some(v) => Some(v),
                None => None,
            };
            assert(val_of(value) == value_or_empty(ps[i as int].value));
            match self.append(parent_id, kv.key.as_str(), value) {
                Ok(_) => {},
                Err(e) => {
                    return Err(e);
                },
            }
            i = i + 1;
        }
        Ok(())
    }

    fn columns(&self) -> (fields: Vec<Field>)
        requires
            self.wf(),
        ensures
            fields@.len() == 9,
            forall|i: int|
                0 <= i < 9 ==> (#[trigger] fields@[i]).column.wf() && fields@[i].column.spec_len()
                    == self@.len(),
            fields@[0].name@ == "parent_id"@,
            fields@[0].column.data matches Data::U32(v) && v@ == parents_in(self@),
            fields@[1].name@ == "key"@,
            is_dict(fields@[1].column, keys_in(self@)),
            fields@[2].name@ == "type"@,
            fields@[2].column.data matches Data::U8(v) && v@ == types_in(self@),
            fields@[3].name@ == "str"@,
            is_wide_dict(fields@[3].column, strs_in(self@)),
            fields@[4].name@ == "int"@,
            marks_are(fields@[4].column, ints_in(self@)),
            fields@[4].column.data matches Data::I64(v) && v@ == self.int.vals@,
            fields@[5].name@ == "double"@,
            marks_are(fields@[5].column, doubles_in(self@)),
            fields@[5].column.data matches Data::Double(v) && v@ == self.double.vals@,
            fields@[6].name@ == "bool"@,
            marks_are(fields@[6].column, bools_in(self@)),
            fields@[6].column.data matches Data::Bool(v) && v@ == self.bool_.vals@,
            fields@[7].name@ == "bytes"@,
            marks_are(fields@[7].column, byteses_in(self@)),
            fields@[7].column.data matches Data::Binary(v) && byte_views(v@) == byte_views(
                self.bytes.vals@,
            ),
            fields@[8].name@ == "ser"@,
            marks_are(fields@[8].column, sers_in(self@)),
            fields@[8].column.data matches Data::Binary(v) && byte_views(v@) == byte_views(
                self.ser.vals@,
            ),
    {
        let mut fields: Vec<Field> = Vec::new();
        fields.push(
            field("parent_id", Column { valid: None, data: Data::U32(copy_all(&self.parent_id)) }),
        );
        fields.push(field("key", self.key.finish()));
        fields.push(field("type", Column { valid: None, data: Data::U8(copy_all(&self.ty)) }));
        fields.push(field("str", self.str_.finish()));
        fields.push(
            field(
                "int",
                Column {
                    valid: Some(copy_all(&self.int.valid)),
                    data: Data::I64(copy_all(&self.int.vals)),
                },
            ),
        );
        fields.push(
            field(
                "double",
                Column {
                    valid: Some(copy_all(&self.double.valid)),
                    data: Data::Double(copy_all(&self.double.vals)),
                },
            ),
        );
        fields.push(
            field(
                "bool",
                Column {
                    valid: Some(copy_all(&self.bool_.valid)),
                    data: Data::Bool(copy_all(&self.bool_.vals)),
                },
            ),
        );
        fields.push(field("bytes", self.bytes.finish()));
        fields.push(field("ser", self.ser.finish()));
        proof {
            let n = self@.len();
            assert(self.parent_id@.len() == n);
            assert(self.ty@.len() == n);
            assert(self.key.slots().len() == n);
            assert(self.str_.slots().len() == n);
            assert(self.int.slots().len() == n);
            assert(self.double.slots().len() == n);
            assert(self.bool_.slots().len() == n);
            assert(self.bytes.slots().len() == n);
            assert(self.ser.slots().len() == n);
            assert forall|i: int| 0 <= i < n implies (#[trigger] self.int.valid@[i]) == (ints_in(
                self@,
            )[i] is Some) by {
                assert(self.int.slots()[i] == ints_in(self@)[i]);
            }
            assert forall|i: int| 0 <= i < n implies (#[trigger] self.double.valid@[i]) == (
            doubles_in(self@)[i] is Some) by {
                assert(self.double.slots()[i] == doubles_in(self@)[i]);
            }
            assert forall|i: int| 0 <= i < n implies (#[trigger] self.bool_.valid@[i]) == (
            bools_in(self@)[i] is Some) by {
                assert(self.bool_.slots()[i] == bools_in(self@)[i]);
            }
        }
        fields
    }

    /// The finished table. The builder goes on accumulating.
    pub fn finish(&self) -> (r: Result<Table, Error>)
        requires
            self.wf(),
        ensures
            r matches Ok(t) && attrs_table_of(t, self@),
    {
        let fields = self.columns();
        let t = Table { fields, rows: self.ty.len() };
        proof {
            let rows = self@;
            let n = rows.len();
            let names = t.fields@[1].column.data->Dict16_1@;
            assert(names_of(t) == names);
            assert forall|i: int| 0 <= i < n implies (#[trigger] codes_of(t)[i]) < names_of(t).len() by {
                assert(keys_in(rows)[i] is Some);
            }
            assert forall|i: int| 0 <= i < rows.len() implies attr_row_is(t, i, #[trigger] rows[i]) by {
                assert(parents_in(rows)[i] == rows[i].parent);
                assert(keys_in(rows)[i] == Some(rows[i].key));
                assert(codes_of(t)[i] < names_of(t).len());
                assert(types_in(rows)[i] == type_of(rows[i].value).number());
                assert(strs_in(rows)[i] == str_in(rows[i].value));
                assert(self.int.slots()[i] == int_in(rows[i].value));
                assert(self.double.slots()[i] == double_in(rows[i].value));
                assert(self.bool_.slots()[i] == bool_in(rows[i].value));
                assert(self.bytes.slots()[i] == bytes_in(rows[i].value));
                assert(self.ser.slots()[i] == ser_in(rows[i].value));
                assert(byteses_in(rows)[i] == bytes_in(rows[i].value));
                assert(sers_in(rows)[i] == ser_in(rows[i].value));
                assert(ints_in(rows)[i] == int_in(rows[i].value));
                assert(doubles_in(rows)[i] == double_in(rows[i].value));
                assert(bools_in(rows)[i] == bool_in(rows[i].value));
                let b = t.fields@[7].column.data->Binary_0@;
                let s = t.fields@[8].column.data->Binary_0@;
                assert(byte_views(b)[i] == byte_views(self.bytes.vals@)[i]);
                assert(byte_views(s)[i] == byte_views(self.ser.vals@)[i]);
                assert(b[i]@ == self.bytes.vals@[i]@);
                assert(s[i]@ == self.ser.vals@[i]@);
                let k = t.fields@[3].column.data->Dict32_0@;
                assert(k.len() == n);
                if rows[i].value is Str {
                    assert(k[i] < t.fields@[3].column.data->Dict32_1@.len());
                }
            }
        }
        Ok(t)
    }
}

} // verus!
