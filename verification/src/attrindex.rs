//! What a block's attribute filter is built over.

use crate::attrfilter::{carries, codes_of, first_at, key_at, names_of, types_of};
use crate::attrs::is_attrs_table;
use crate::filter::canonical;
use crate::float::Floats;
use crate::order::{lemma_rank_bytes, lemma_utf8_injective, same_text, utf8};
use crate::probe::attr_ask;
use crate::query::Term;
use crate::scan::Named;
use crate::schema::AttrType;
use crate::table::{Column, Data, Table};
use crate::text::{signed, signed_string};
use vstd::prelude::*;

verus! {

/// The `str` column of an attribute table, read through its dictionary.
pub struct StrColumn<'a> {
    pub column: &'a Column,
    pub keys: &'a Vec<u32>,
    pub values: &'a Vec<String>,
}

impl<'a> StrColumn<'a> {
    pub open spec fn wf(&self) -> bool {
        &&& self.column.wf()
        &&& self.column.data == Data::Dict32(*self.keys, *self.values)
    }

    /// The text of a row that holds one.
    pub fn value(&self, row: usize) -> (r: &'a str)
        requires
            self.wf(),
            row < self.keys@.len(),
            self.keys@[row as int] < self.values@.len(),
        ensures
            r@ == self.values@[self.keys@[row as int] as int]@,
    {
        self.values[self.keys[row] as usize].as_str()
    }

    /// Whether a row holds a text.
    pub fn is_valid(&self, row: usize) -> (r: bool)
        requires
            self.wf(),
            row < self.keys@.len(),
        ensures
            r == self.column.holds(row as int),
    {
        self.column.is_valid(row)
    }
}

/// Read a column of texts by 32-bit position.
pub fn str_values<'a>(c: &'a Column) -> (r: Option<StrColumn<'a>>)
    requires
        c.wf(),
    ensures
        r is Some <==> c.data is Dict32,
        r matches Some(s) ==> s.wf() && s.column == c,
{
    match &c.data {
        Data::Dict32(keys, values) => Some(StrColumn { column: c, keys, values }),
        _ => None,
    }
}

/// Read the `str` column of an attribute table.
pub fn str_column<'a>(t: &'a Table) -> (r: StrColumn<'a>)
    requires
        is_attrs_table(*t),
    ensures
        r.wf(),
        *r.column == t.fields@[3].column,
        r.keys@.len() == t.rows,
{
    let c = &t.fields[3].column;
    assert(t.fields@[3].column.wf() && t.fields@[3].column.spec_len() == t.rows);
    match &c.data {
        Data::Dict32(keys, values) => StrColumn { column: c, keys, values },
        _ => vstd::pervasive::unreached(),
    }
}

/// The text that one row is indexed under: strings, integers and booleans have
/// one. Doubles do not, because no spelling of one is stable, and nothing else
/// can be compared.
pub open spec fn text_at(t: Table, row: int) -> Option<Seq<char>> {
    let ty = types_of(t)[row];
    if ty == AttrType::Str.number() {
        match t.fields@[3].column.data {
            Data::Dict32(k, d) => if (k@[row] as int) < d@.len() {
                Some(d@[k@[row] as int]@)
            } else {
                None
            },
            _ => None,
        }
    } else if ty == AttrType::Int.number() {
        match t.fields@[4].column.data {
            Data::I64(v) => Some(signed(v@[row] as int)),
            _ => None,
        }
    } else if ty == AttrType::Bool.number() {
        match t.fields@[6].column.data {
            Data::Bool(v) => Some(
                if v@[row] {
                    "true"@
                } else {
                    "false"@
                },
            ),
            _ => None,
        }
    } else {
        None
    }
}

/// The keys and texts that the first `n` rows are indexed under.
pub open spec fn listed_upto(t: Table, n: nat) -> Seq<(Seq<char>, Seq<char>)>
    decreases n,
{
    if n == 0 {
        Seq::empty()
    } else {
        let before = listed_upto(t, (n - 1) as nat);
        match text_at(t, n - 1) {
            Some(s) => before.push((key_at(t, n - 1), s)),
            None => before,
        }
    }
}

/// Whether one of the first `n` rows is a double.
pub open spec fn doubles_upto(t: Table, n: nat) -> bool {
    exists|i: int| 0 <= i < n && #[trigger] types_of(t)[i] == AttrType::Double.number()
}

/// The keys and texts that the first `n` tables are indexed under. Only
/// attribute tables are, whatever they are called.
pub open spec fn listed(tables: Seq<Named>, n: nat) -> Seq<(Seq<char>, Seq<char>)>
    decreases n,
{
    if n == 0 {
        Seq::empty()
    } else {
        let before = listed(tables, (n - 1) as nat);
        let t = tables[n - 1].table;
        if is_attrs_table(t) {
            before + listed_upto(t, t.rows as nat)
        } else {
            before
        }
    }
}

/// Whether one of the first `n` tables holds a double.
pub open spec fn has_doubles(tables: Seq<Named>, n: nat) -> bool {
    exists|k: int|
        0 <= k < n && is_attrs_table((#[trigger] tables[k]).table) && doubles_upto(
            tables[k].table,
            tables[k].table.rows as nat,
        )
}

/// What an attribute filter is built over: keys and texts, and whether there
/// are doubles, which it does not list.
pub struct AttrIndex {
    pub pairs: Vec<(String, String)>,
    pub has_double: bool,
}

pub open spec fn pair_views(v: Seq<(String, String)>) -> Seq<(Seq<char>, Seq<char>)> {
    v.map_values(|p: (String, String)| (p.0@, p.1@))
}

fn is_named(t: &Table, i: usize, name: &str) -> (r: bool)
    requires
        i < t.fields@.len(),
    ensures
        r == (t.fields@[i as int].name@ == name@),
{
    same_text(t.fields[i].name.as_str(), name)
}

fn has_attr_names(t: &Table) -> (r: bool)
    requires
        t.fields@.len() == 9,
    ensures
        r == {
            &&& t.fields@[0].name@ == "parent_id"@
            &&& t.fields@[1].name@ == "key"@
            &&& t.fields@[2].name@ == "type"@
            &&& t.fields@[3].name@ == "str"@
            &&& t.fields@[4].name@ == "int"@
            &&& t.fields@[5].name@ == "double"@
            &&& t.fields@[6].name@ == "bool"@
            &&& t.fields@[7].name@ == "bytes"@
            &&& t.fields@[8].name@ == "ser"@
        },
{
    is_named(t, 0, "parent_id") && is_named(t, 1, "key") && is_named(t, 2, "type") && is_named(
        t,
        3,
        "str",
    ) && is_named(t, 4, "int") && is_named(t, 5, "double") && is_named(t, 6, "bool") && is_named(
        t,
        7,
        "bytes",
    ) && is_named(t, 8, "ser")
}

fn has_attr_kinds(t: &Table) -> (r: bool)
    requires
        t.fields@.len() == 9,
    ensures
        r == {
            &&& t.fields@[3].column.data is Dict32
            &&& t.fields@[4].column.data is I64
            &&& t.fields@[5].column.data is Double
            &&& t.fields@[6].column.data is Bool
            &&& t.fields@[7].column.data is Binary
            &&& t.fields@[8].column.data is Binary
        },
{
    let a = match &t.fields[3].column.data {
        Data::Dict32(_, _) => true,
        _ => false,
    };
    let b = match &t.fields[4].column.data {
        Data::I64(_) => true,
        _ => false,
    };
    let c = match &t.fields[5].column.data {
        Data::Double(_) => true,
        _ => false,
    };
    let d = match &t.fields[6].column.data {
        Data::Bool(_) => true,
        _ => false,
    };
    let e = match &t.fields[7].column.data {
        Data::Binary(_) => true,
        _ => false,
    };
    let f = match &t.fields[8].column.data {
        Data::Binary(_) => true,
        _ => false,
    };
    a && b && c && d && e && f
}

/// Decide [`is_attrs_table`].
pub fn check_attrs_table(t: &Table) -> (r: bool)
    ensures
        r == is_attrs_table(*t),
{
    if t.fields.len() != 9 {
        return false;
    }
    crate::attrfilter::check_attrs(t) && has_attr_names(t) && has_attr_kinds(t)
}

fn text_of_row(t: &Table, row: usize) -> (r: Option<String>)
    requires
        is_attrs_table(*t),
        row < t.rows,
    ensures
        r is Some <==> text_at(*t, row as int) is Some,
        r matches Some(s) ==> text_at(*t, row as int) == Some(s@),
{
    assert(t.fields@[3].column.spec_len() == t.rows);
    assert(t.fields@[4].column.spec_len() == t.rows);
    assert(t.fields@[6].column.spec_len() == t.rows);
    let ty: u8 = match &t.fields[2].column.data {
        Data::U8(v) => v[row],
        _ => 0,
    };
    if ty == AttrType::Str.code() {
        match &t.fields[3].column.data {
            Data::Dict32(k, d) => if (k[row] as usize) < d.len() {
                Some(d[k[row] as usize].as_str().to_owned())
            } else {
                None
            },
            _ => None,
        }
    } else if ty == AttrType::Int.code() {
        match &t.fields[4].column.data {
            Data::I64(v) => Some(signed_string(v[row])),
            _ => None,
        }
    } else if ty == AttrType::Bool.code() {
        match &t.fields[6].column.data {
            Data::Bool(v) => if v[row] {
                Some("true".to_owned())
            } else {
                Some("false".to_owned())
            },
            _ => None,
        }
    } else {
        None
    }
}

/// Add to an index what one attribute table is indexed under.
fn index_table(ix: &mut AttrIndex, t: &Table)
    requires
        is_attrs_table(*t),
    ensures
        pair_views(final(ix).pairs@) == pair_views(old(ix).pairs@) + listed_upto(*t, t.rows as nat),
        final(ix).has_double == (old(ix).has_double || doubles_upto(*t, t.rows as nat)),
{
    let mut row: usize = 0;
    let ghost start = pair_views(ix.pairs@);
    assert(start + listed_upto(*t, 0) =~= start);
    while row < t.rows
        invariant
            row <= t.rows,
            is_attrs_table(*t),
            start == pair_views(old(ix).pairs@),
            pair_views(ix.pairs@) == start + listed_upto(*t, row as nat),
            ix.has_double == (old(ix).has_double || doubles_upto(*t, row as nat)),
        decreases t.rows - row,
    {
        let ghost was = pair_views(ix.pairs@);
        let ghost before = listed_upto(*t, row as nat);
        let ty: u8 = match &t.fields[2].column.data {
            Data::U8(v) => v[row],
            _ => 0,
        };
        assert(ty == types_of(*t)[row as int]);
        if ty == AttrType::Double.code() {
            ix.has_double = true;
        }
        if let Some(s) = text_of_row(t, row) {
            let key = crate::attrfilter::attr_key(t, row);
            ix.pairs.push((key.to_owned(), s));
            assert(pair_views(ix.pairs@) =~= was.push((key_at(*t, row as int), s@)));
            assert(was.push((key_at(*t, row as int), s@)) =~= start + before.push(
                (key_at(*t, row as int), s@),
            ));
        }
        proof {
            if doubles_upto(*t, (row + 1) as nat) && !doubles_upto(*t, row as nat) {
                let i = choose|i: int|
                    0 <= i < row + 1 && #[trigger] types_of(*t)[i] == AttrType::Double.number();
                assert(i == row);
            }
            if doubles_upto(*t, row as nat) {
                let i = choose|i: int|
                    0 <= i < row && #[trigger] types_of(*t)[i] == AttrType::Double.number();
                assert(types_of(*t)[i] == AttrType::Double.number());
                assert(doubles_upto(*t, (row + 1) as nat));
            }
        }
        row = row + 1;
    }
}

/// What a block's attribute filter is built over: every attribute table in it.
/// Driven off the shape of the tables rather than off a list of their names, so
/// that another attribute level is covered without anyone remembering to add
/// it; forgetting would be a block wrongly skipped.
///
/// `None` when there is nothing to list; a reader takes a missing filter as
/// "scan me".
pub fn index(tables: &Vec<Named>) -> (r: Option<AttrIndex>)
    ensures
        r is None <==> listed(tables@, tables@.len()).len() == 0,
        r matches Some(ix) ==> pair_views(ix.pairs@) == listed(tables@, tables@.len())
            && ix.has_double == has_doubles(tables@, tables@.len()),
{
    let mut ix = AttrIndex { pairs: Vec::new(), has_double: false };
    let mut i: usize = 0;
    assert(pair_views(ix.pairs@) =~= listed(tables@, 0));
    while i < tables.len()
        invariant
            i <= tables@.len(),
            pair_views(ix.pairs@) == listed(tables@, i as nat),
            ix.has_double == has_doubles(tables@, i as nat),
        decreases tables@.len() - i,
    {
        let t = &tables[i].table;
        let ghost was = ix.has_double;
        let is_one = check_attrs_table(t);
        if is_one {
            index_table(&mut ix, t);
        }
        proof {
            let m = (i + 1) as nat;
            if has_doubles(tables@, m) && !has_doubles(tables@, i as nat) {
                let k = choose|k: int|
                    0 <= k < m && is_attrs_table((#[trigger] tables@[k]).table) && doubles_upto(
                        tables@[k].table,
                        tables@[k].table.rows as nat,
                    );
                assert(k == i);
            }
            if has_doubles(tables@, i as nat) {
                let k = choose|k: int|
                    0 <= k < i && is_attrs_table((#[trigger] tables@[k]).table) && doubles_upto(
                        tables@[k].table,
                        tables@[k].table.rows as nat,
                    );
                assert(is_attrs_table(tables@[k].table));
                assert(has_doubles(tables@, m));
            }
            if is_one && doubles_upto(*t, t.rows as nat) {
                assert(is_attrs_table(tables@[i as int].table));
                assert(has_doubles(tables@, m));
            }
        }
        i = i + 1;
    }
    assert(pair_views(ix.pairs@).len() == ix.pairs@.len());
    if ix.pairs.len() == 0 {
        None
    } else {
        Some(ix)
    }
}

proof fn lemma_listed_upto(t: Table, n: nat, row: int)
    requires
        0 <= row < n,
        text_at(t, row) is Some,
    ensures
        listed_upto(t, n).contains((key_at(t, row), text_at(t, row).unwrap())),
    decreases n,
{
    let now = listed_upto(t, n);
    let before = listed_upto(t, (n - 1) as nat);
    let p = (key_at(t, row), text_at(t, row).unwrap());
    if row == n - 1 {
        assert(now[now.len() - 1] == p);
    } else {
        lemma_listed_upto(t, (n - 1) as nat, row);
        let k = before.index_of(p);
        assert(now[k] == p);
    }
}

proof fn lemma_first_at(values: Seq<String>, needle: Seq<char>)
    ensures
        first_at(values, needle) matches Some(i) ==> i < values.len() && values[i as int]@ == needle,
    decreases values.len(),
{
    if values.len() > 0 {
        lemma_first_at(values.skip(1), needle);
    }
}

/// A row that satisfies a term is listed under what the term asks of the
/// attribute filter, or it is a double and the term's scalar is a number: a
/// filter built over the list never lets a block be skipped that holds such a
/// row.
pub proof fn law_attribute_pruning_is_sound(
    t: Table,
    row: int,
    term: Term,
    key: Seq<char>,
    text: Seq<char>,
    numeric: bool,
    floats: Floats,
)
    requires
        is_attrs_table(t),
        0 <= row < t.rows,
        attr_ask(term, floats) == Some((key, text, numeric)),
        carries(t, row, key, term.op, term.value, floats),
    ensures
        listed_upto(t, t.rows as nat).contains((key, text)) || (doubles_upto(t, t.rows as nat)
            && numeric),
{
    let v = term.value;
    lemma_first_at(names_of(t), key);
    assert(key_at(t, row) == key);
    assert(codes_of(t)[row] < names_of(t).len());
    let ty = types_of(t)[row];
    if ty == AttrType::Str.number() {
        let s = text_at(t, row).unwrap();
        lemma_rank_bytes(utf8(s), utf8(canonical(v, floats)), utf8(s));
        lemma_utf8_injective(s, canonical(v, floats));
        lemma_listed_upto(t, t.rows as nat, row);
    } else if ty == AttrType::Double.number() {
        assert(doubles_upto(t, t.rows as nat));
    } else if ty == AttrType::Int.number() {
        lemma_listed_upto(t, t.rows as nat, row);
    } else {
        lemma_listed_upto(t, t.rows as nat, row);
    }
}

} // verus!
