//! Tables of typed columns, the shape in which a block holds its rows.
//!
//! A column is a run of values and, where it can be null, a run of validity
//! marks beside it. A null slot still holds some value, as it does on disk.

use crate::order::same_text;
use vstd::prelude::*;

verus! {

/// The values of a column.
pub enum Data {
    U8(Vec<u8>),
    U16(Vec<u16>),
    U32(Vec<u32>),
    U64(Vec<u64>),
    I32(Vec<i32>),
    I64(Vec<i64>),
    /// Nanoseconds since the epoch.
    Time(Vec<i64>),
    /// Doubles, by their bits.
    Double(Vec<u64>),
    Bool(Vec<bool>),
    Text(Vec<String>),
    Binary(Vec<Vec<u8>>),
    /// Byte strings of one width.
    Fixed(Vec<Vec<u8>>),
    /// Text, by position in a dictionary of at most 65,536 entries.
    Dict16(Vec<u16>, Vec<String>),
    /// Text, by position in a dictionary.
    Dict32(Vec<u32>, Vec<String>),
    /// A run of values per row.
    List(Vec<Column>),
    /// So many values of a type that is neither compared nor shown.
    Other(usize),
}

/// A column.
pub struct Column {
    /// Which slots hold a value; `None` where all of them do.
    pub valid: Option<Vec<bool>>,
    pub data: Data,
}

/// A column and its name.
pub struct Field {
    pub name: String,
    pub column: Column,
}

/// A table: named columns, all of one length.
pub struct Table {
    pub fields: Vec<Field>,
    pub rows: usize,
}

impl Column {
    /// How many slots the column has.
    pub open spec fn spec_len(&self) -> nat {
        match &self.data {
            Data::U8(v) => v@.len(),
            Data::U16(v) => v@.len(),
            Data::U32(v) => v@.len(),
            Data::U64(v) => v@.len(),
            Data::I32(v) => v@.len(),
            Data::I64(v) => v@.len(),
            Data::Time(v) => v@.len(),
            Data::Double(v) => v@.len(),
            Data::Bool(v) => v@.len(),
            Data::Text(v) => v@.len(),
            Data::Binary(v) => v@.len(),
            Data::Fixed(v) => v@.len(),
            Data::Dict16(v, _) => v@.len(),
            Data::Dict32(v, _) => v@.len(),
            Data::List(v) => v@.len(),
            Data::Other(n) => *n as nat,
        }
    }

    /// Whether slot `i` holds a value.
    pub open spec fn holds(&self, i: int) -> bool {
        match &self.valid {
            None => true,
            Some(v) => v@[i],
        }
    }

    /// The validity marks cover the slots, and what a dictionary column holds
    /// lies within its dictionary.
    pub open spec fn wf(&self) -> bool
        decreases self,
    {
        &&& self.valid matches Some(v) ==> v@.len() == self.spec_len()
        &&& match &self.data {
            Data::Dict16(k, d) => forall|i: int|
                0 <= i < k@.len() && self.holds(i) ==> (#[trigger] k@[i]) < d@.len(),
            Data::Dict32(k, d) => forall|i: int|
                0 <= i < k@.len() && self.holds(i) ==> (#[trigger] k@[i]) < d@.len(),
            Data::List(v) => forall|i: int| 0 <= i < v@.len() ==> (#[trigger] v@[i]).wf(),
            _ => true,
        }
    }

    /// How many slots the column has.
    pub fn len(&self) -> (n: usize)
        ensures
            n == self.spec_len(),
    {
        match &self.data {
            Data::U8(v) => v.len(),
            Data::U16(v) => v.len(),
            Data::U32(v) => v.len(),
            Data::U64(v) => v.len(),
            Data::I32(v) => v.len(),
            Data::I64(v) => v.len(),
            Data::Time(v) => v.len(),
            Data::Double(v) => v.len(),
            Data::Bool(v) => v.len(),
            Data::Text(v) => v.len(),
            Data::Binary(v) => v.len(),
            Data::Fixed(v) => v.len(),
            Data::Dict16(v, _) => v.len(),
            Data::Dict32(v, _) => v.len(),
            Data::List(v) => v.len(),
            Data::Other(n) => *n,
        }
    }

    /// Whether slot `i` holds a value.
    pub fn is_valid(&self, i: usize) -> (r: bool)
        requires
            self.wf(),
            i < self.spec_len(),
        ensures
            r == self.holds(i as int),
    {
        match &self.valid {
            None => true,
            Some(v) => v[i],
        }
    }

    /// Decide [`Column::wf`].
    pub fn check(&self) -> (r: bool)
        ensures
            r == self.wf(),
        decreases self,
    {
        if let Some(v) = &self.valid {
            if v.len() != self.len() {
                return false;
            }
        }
        match &self.data {
            Data::Dict16(k, d) => {
                let mut i: usize = 0;
                while i < k.len()
                    invariant
                        i <= k@.len(),
                        k@.len() == self.spec_len(),
                        self.valid matches Some(v) ==> v@.len() == self.spec_len(),
                        self.data == Data::Dict16(*k, *d),
                        forall|j: int| 0 <= j < i && self.holds(j) ==> (#[trigger] k@[j]) < d@.len(),
                    decreases k@.len() - i,
                {
                    let held = match &self.valid {
                        None => true,
                        Some(v) => v[i],
                    };
                    if held && k[i] as usize >= d.len() {
                        return false;
                    }
                    i = i + 1;
                }
                true
            },
            Data::Dict32(k, d) => {
                let mut i: usize = 0;
                while i < k.len()
                    invariant
                        i <= k@.len(),
                        k@.len() == self.spec_len(),
                        self.valid matches Some(v) ==> v@.len() == self.spec_len(),
                        self.data == Data::Dict32(*k, *d),
                        forall|j: int| 0 <= j < i && self.holds(j) ==> (#[trigger] k@[j]) < d@.len(),
                    decreases k@.len() - i,
                {
                    let held = match &self.valid {
                        None => true,
                        Some(v) => v[i],
                    };
                    if held && k[i] as usize >= d.len() {
                        return false;
                    }
                    i = i + 1;
                }
                true
            },
            Data::List(v) => {
                let mut i: usize = 0;
                while i < v.len()
                    invariant
                        i <= v@.len(),
                        self.data == Data::List(*v),
                        decreases_to!(self => v@),
                        forall|j: int| 0 <= j < i ==> (#[trigger] v@[j]).wf(),
                    decreases v@.len() - i,
                {
                    assert(decreases_to!(v@ => v@[i as int]));
                    if !v[i].check() {
                        proof {
                            if self.wf() {
                                if let Data::List(w) = &self.data {
                                    assert(w@[i as int].wf());
                                }
                            }
                        }
                        return false;
                    }
                    i = i + 1;
                }
                true
            },
            _ => true,
        }
    }
}

/// The first column of a name.
pub open spec fn first_named(fields: Seq<Field>, name: Seq<char>) -> Option<Column>
    decreases fields.len(),
{
    if fields.len() == 0 {
        None
    } else if fields[0].name@ == name {
        Some(fields[0].column)
    } else {
        first_named(fields.skip(1), name)
    }
}

impl Table {
    /// Every column is well formed and has as many slots as the table has
    /// rows.
    pub open spec fn wf(&self) -> bool {
        forall|i: int|
            0 <= i < self.fields@.len() ==> (#[trigger] self.fields@[i]).column.wf()
                && self.fields@[i].column.spec_len() == self.rows
    }

    /// The first column of a name.
    pub open spec fn named(&self, name: Seq<char>) -> Option<Column> {
        first_named(self.fields@, name)
    }

    /// Decide [`Table::wf`].
    pub fn check(&self) -> (r: bool)
        ensures
            r == self.wf(),
    {
        let mut i: usize = 0;
        while i < self.fields.len()
            invariant
                i <= self.fields@.len(),
                forall|j: int|
                    0 <= j < i ==> (#[trigger] self.fields@[j]).column.wf()
                        && self.fields@[j].column.spec_len() == self.rows,
            decreases self.fields@.len() - i,
        {
            if !self.fields[i].column.check() || self.fields[i].column.len() != self.rows {
                assert(!(self.fields@[i as int].column.wf()
                    && self.fields@[i as int].column.spec_len() == self.rows));
                return false;
            }
            i = i + 1;
        }
        true
    }

    /// The first column of a name.
    pub fn column_by_name(&self, name: &str) -> (r: Option<&Column>)
        ensures
            r is Some <==> self.named(name@) is Some,
            r matches Some(c) ==> self.named(name@) == Some(*c),
            self.wf() ==> (r matches Some(c) ==> c.wf() && c.spec_len() == self.rows),
    {
        let mut i: usize = 0;
        assert(self.fields@.skip(0) =~= self.fields@);
        while i < self.fields.len()
            invariant
                i <= self.fields@.len(),
                self.named(name@) == first_named(self.fields@.skip(i as int), name@),
            decreases self.fields@.len() - i,
        {
            assert(self.fields@.skip(i as int)[0] == self.fields@[i as int]);
            if same_text(self.fields[i].name.as_str(), name) {
                return Some(&self.fields[i].column);
            }
            assert(self.fields@.skip(i as int).skip(1) =~= self.fields@.skip(i + 1));
            i = i + 1;
        }
        None
    }
}

/// A column found by name is one of the table's own.
pub proof fn lemma_named_is_wf(t: Table, name: Seq<char>)
    requires
        t.wf(),
    ensures
        t.named(name) matches Some(c) ==> c.wf() && c.spec_len() == t.rows,
{
    lemma_first_named(t.fields@, name);
}

proof fn lemma_first_named(fields: Seq<Field>, name: Seq<char>)
    ensures
        first_named(fields, name) matches Some(c) ==> exists|i: int|
            0 <= i < fields.len() && (#[trigger] fields[i]).column == c,
    decreases fields.len(),
{
    if fields.len() > 0 {
        if fields[0].name@ != name {
            lemma_first_named(fields.skip(1), name);
            if let Some(c) = first_named(fields.skip(1), name) {
                let i = choose|i: int|
                    0 <= i < fields.skip(1).len() && (#[trigger] fields.skip(1)[i]).column == c;
                assert(fields[i + 1].column == c);
            }
        }
    }
}

} // verus!
