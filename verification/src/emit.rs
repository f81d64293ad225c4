//! Rows as JSON.

use crate::attrfilter::{attr_key, attrs_shaped, key_at, parents_of, types_of};
use crate::float::Floats;
use crate::json::{Doc, Json};
use crate::order::{compare_text, rank_bytes, same_text, utf8, Rank};
use crate::otlp::{pairs, vals, AnyKind, AnyValue, KeyValue, Pair, Val};
use crate::proto::{decode_any, decoded};
use crate::scan::{
    children_of, children_upto, u16_column, u16s_named, u32_column, u32s_named, Attrs, Block, Child,
};
use crate::schema::AttrType;
use crate::table::{Column, Data, Field, Table};
use crate::text::{decimal, signed};
use vstd::prelude::*;

verus! {

// ---------------------------------------------------------------------------
// Attribute values.

/// A document with an attribute value added to it.
pub open spec fn any_doc(d: Doc, v: Val, floats: Floats) -> Doc
    decreases v,
{
    match v {
        Val::Empty => d.value("null"@),
        Val::Str(s) => d.str(s),
        Val::Int(i) => d.digits_str(i as int),
        Val::Double(b) => d.double(b, floats),
        Val::Bool(b) => d.bool(b),
        Val::Bytes(b) => d.hex(b),
        Val::Array(vs) => items_doc(d.enter('['), vs, floats).leave(']'),
        Val::Kvlist(ps) => members_doc(d.enter('{'), ps, floats).leave('}'),
    }
}

/// An open array with values added to it.
pub open spec fn items_doc(d: Doc, vs: Seq<Val>, floats: Floats) -> Doc
    decreases vs,
{
    if vs.len() == 0 {
        d
    } else {
        any_doc(items_doc(d, vs.drop_last(), floats), vs.last(), floats)
    }
}

/// An open object with members added to it.
pub open spec fn members_doc(d: Doc, ps: Seq<Pair>, floats: Floats) -> Doc
    decreases ps,
{
    if ps.len() == 0 {
        d
    } else {
        let d = members_doc(d, ps.drop_last(), floats).key(ps.last().key);
        match ps.last().value {
            Some(v) => any_doc(d, v, floats),
            None => d.value("null"@),
        }
    }
}

/// Write an attribute value.
pub fn emit_any_value(j: &mut Json, v: &AnyValue, floats: &Floats)
    ensures
        final(j)@ == any_doc(old(j)@, v.val(), *floats),
    decreases v,
{
    match &v.value {
        None => j.null(),
        Some(k) => match k {
            AnyKind::StringValue(s) => j.str(s.as_str()),
            AnyKind::IntValue(i) => j.i64_str(*i),
            AnyKind::DoubleValue(d) => j.double(*d, floats),
            AnyKind::BoolValue(b) => j.bool(*b),
            AnyKind::BytesValue(b) => j.hex(b.as_slice()),
            AnyKind::ArrayValue(a) => {
                j.enter('[');
                emit_items(j, a, floats);
                j.leave(']');
            },
            AnyKind::KvlistValue(m) => {
                j.enter('{');
                emit_members(j, m, floats);
                j.leave('}');
            },
        },
    }
}

fn emit_items(j: &mut Json, v: &Vec<AnyValue>, floats: &Floats)
    ensures
        final(j)@ == items_doc(old(j)@, vals(v@), *floats),
    decreases v,
{
    let mut i: usize = 0;
    assert(v@.take(0) =~= Seq::<AnyValue>::empty());
    while i < v.len()
        invariant
            i <= v@.len(),
            j@ == items_doc(old(j)@, vals(v@.take(i as int)), *floats),
            decreases_to!(v => v@),
        decreases v@.len() - i,
    {
        assert(decreases_to!(v@ => v@[i as int]));
        emit_any_value(j, &v[i], floats);
        proof {
            let t = v@.take(i + 1);
            assert(t.drop_last() =~= v@.take(i as int));
            assert(vals(t).drop_last() =~= vals(v@.take(i as int)));
        }
        i = i + 1;
    }
    assert(v@.take(i as int) =~= v@);
}

fn emit_members(j: &mut Json, v: &Vec<KeyValue>, floats: &Floats)
    ensures
        final(j)@ == members_doc(old(j)@, pairs(v@), *floats),
    decreases v,
{
    let mut i: usize = 0;
    assert(v@.take(0) =~= Seq::<KeyValue>::empty());
    while i < v.len()
        invariant
            i <= v@.len(),
            j@ == members_doc(old(j)@, pairs(v@.take(i as int)), *floats),
            decreases_to!(v => v@),
        decreases v@.len() - i,
    {
        assert(decreases_to!(v@ => v@[i as int]));
        let kv = &v[i];
        j.key(kv.key.as_str());
        match &kv.value {
            Some(a) => emit_any_value(j, a, floats),
            None => j.null(),
        }
        proof {
            let t = v@.take(i + 1);
            assert(t.drop_last() =~= v@.take(i as int));
            assert(pairs(t) == pairs(t.drop_last()).push(kv.pair()));
            assert(pairs(t).drop_last() =~= pairs(v@.take(i as int)));
            assert(pairs(t).last() == kv.pair());
        }
        i = i + 1;
    }
    assert(v@.take(i as int) =~= v@);
}

/// A document with an encoded attribute value added to it; `null` where the
/// bytes encode none.
pub open spec fn encoded_doc(d: Doc, bytes: Seq<u8>, floats: Floats) -> Doc {
    match decoded(bytes) {
        Some(v) => any_doc(d, v, floats),
        None => d.value("null"@),
    }
}

/// Render an encoded attribute value as the JSON it describes. A decode
/// failure becomes `null`: one damaged value must not take the whole response
/// with it.
pub fn emit_any(j: &mut Json, bytes: &[u8], floats: &Floats)
    ensures
        final(j)@ == encoded_doc(old(j)@, bytes@, *floats),
{
    match decode_any(bytes) {
        Some(v) => emit_any_value(j, &v, floats),
        None => j.null(),
    }
}

// ---------------------------------------------------------------------------
// Cells.

/// A document with one cell of a column added to it. Numbers of 64 bits go out
/// as strings, narrower ones bare.
pub open spec fn cell_doc(d: Doc, c: Column, i: int, floats: Floats) -> Doc
    decreases c, 0nat,
{
    match c.data {
        Data::Time(v) => d.digits_str(v@[i] as int),
        Data::I64(v) => d.digits_str(v@[i] as int),
        Data::U64(v) => d.digits_str(v@[i] as int),
        Data::I32(v) => d.value(signed(v@[i] as int)),
        Data::U32(v) => d.value(decimal(v@[i] as nat)),
        Data::U16(v) => d.value(decimal(v@[i] as nat)),
        Data::U8(v) => d.value(decimal(v@[i] as nat)),
        Data::Double(v) => d.double(v@[i], floats),
        Data::Bool(v) => d.bool(v@[i]),
        Data::Text(v) => d.str(v@[i]@),
        Data::Binary(v) => d.hex(v@[i]@),
        Data::Fixed(v) => d.hex(v@[i]@),
        Data::Dict16(k, t) => if (k@[i] as int) < t@.len() {
            d.str(t@[k@[i] as int]@)
        } else {
            d.value("null"@)
        },
        Data::Dict32(k, t) => if (k@[i] as int) < t@.len() {
            d.str(t@[k@[i] as int]@)
        } else {
            d.value("null"@)
        },
        Data::List(v) => if 0 <= i < v@.len() {
            cells_doc(d.enter('['), v@[i], v@[i].spec_len(), floats).leave(']')
        } else {
            d
        },
        Data::Other(_) => d.value("null"@),
    }
}

/// An open array with the first `n` slots of a column added to it.
pub open spec fn cells_doc(d: Doc, c: Column, n: nat, floats: Floats) -> Doc
    decreases c, n,
{
    if n == 0 {
        d
    } else {
        let before = cells_doc(d, c, (n - 1) as nat, floats);
        if c.holds(n - 1) {
            cell_doc(before, c, n - 1, floats)
        } else {
            before.value("null"@)
        }
    }
}

/// Emit one cell.
pub fn emit_value(j: &mut Json, c: &Column, row: usize, floats: &Floats)
    requires
        c.wf(),
        row < c.spec_len(),
    ensures
        final(j)@ == cell_doc(old(j)@, *c, row as int, *floats),
    decreases c, 1nat,
{
    match &c.data {
        Data::Time(v) => j.i64_str(v[row]),
        Data::I64(v) => j.i64_str(v[row]),
        Data::U64(v) => j.u64_str(v[row]),
        Data::I32(v) => j.i64(v[row] as i64),
        Data::U32(v) => j.u64(v[row] as u64),
        Data::U16(v) => j.u64(v[row] as u64),
        Data::U8(v) => j.u64(v[row] as u64),
        Data::Double(v) => j.double(v[row], floats),
        Data::Bool(v) => j.bool(v[row]),
        Data::Text(v) => j.str(v[row].as_str()),
        Data::Binary(v) => j.hex(v[row].as_slice()),
        Data::Fixed(v) => j.hex(v[row].as_slice()),
        Data::Dict16(k, t) => {
            let at: usize = k[row] as usize;
            if at < t.len() {
                j.str(t[at].as_str());
            } else {
                j.null();
            }
        },
        Data::Dict32(k, t) => {
            let at: usize = k[row] as usize;
            if at < t.len() {
                j.str(t[at].as_str());
            } else {
                j.null();
            }
        },
        Data::List(v) => {
            assert(decreases_to!(c => v@));
            assert(decreases_to!(v@ => v@[row as int]));
            assert(v@[row as int].wf());
            j.enter('[');
            emit_cells(j, &v[row], floats);
            j.leave(']');
        },
        Data::Other(_) => j.null(),
    }
}

fn emit_cells(j: &mut Json, c: &Column, floats: &Floats)
    requires
        c.wf(),
    ensures
        final(j)@ == cells_doc(old(j)@, *c, c.spec_len(), *floats),
    decreases c, 2nat,
{
    let n: usize = c.len();
    let mut i: usize = 0;
    while i < n
        invariant
            i <= n,
            n == c.spec_len(),
            c.wf(),
            j@ == cells_doc(old(j)@, *c, i as nat, *floats),
        decreases n - i,
    {
        if c.is_valid(i) {
            emit_value(j, c, i, floats);
        } else {
            j.null();
        }
        i = i + 1;
    }
}

/// The columns that number rows within a block, which no caller asked for.
pub open spec fn is_internal(name: Seq<char>) -> bool {
    name == "id"@ || name == "parent_id"@ || name == "resource_id"@ || name == "scope_id"@
}

/// An open object with one column of a row added to it, by name. Internal
/// numbers and nulls are left out; the encoded form of a log body is written as
/// the value it encodes.
pub open spec fn field_doc(d: Doc, f: Field, row: int, floats: Floats) -> Doc {
    if is_internal(f.name@) || !f.column.holds(row) {
        d
    } else {
        let k = d.key(f.name@);
        match f.column.data {
            Data::Binary(v) => if f.name@ == "body_ser"@ {
                encoded_doc(k, v@[row]@, floats)
            } else {
                cell_doc(k, f.column, row, floats)
            },
            _ => cell_doc(k, f.column, row, floats),
        }
    }
}

/// An open object with the first `n` columns of a row added to it.
pub open spec fn fields_doc(d: Doc, t: Table, row: int, n: nat, floats: Floats) -> Doc
    decreases n,
{
    if n == 0 {
        d
    } else {
        field_doc(fields_doc(d, t, row, (n - 1) as nat, floats), t.fields@[n - 1], row, floats)
    }
}

/// Every non-null column of one row, by name.
pub fn emit_fields(j: &mut Json, t: &Table, row: usize, floats: &Floats)
    requires
        t.wf(),
        row < t.rows,
    ensures
        final(j)@ == fields_doc(old(j)@, *t, row as int, t.fields@.len(), *floats),
{
    let mut i: usize = 0;
    while i < t.fields.len()
        invariant
            i <= t.fields@.len(),
            t.wf(),
            row < t.rows,
            j@ == fields_doc(old(j)@, *t, row as int, i as nat, *floats),
        decreases t.fields@.len() - i,
    {
        let f = &t.fields[i];
        assert(t.fields@[i as int].column.wf());
        let name = f.name.as_str();
        let internal = same_text(name, "id") || same_text(name, "parent_id") || same_text(
            name,
            "resource_id",
        ) || same_text(name, "scope_id");
        if !internal && f.column.is_valid(row) {
            j.key(name);
            match &f.column.data {
                Data::Binary(v) => {
                    if same_text(name, "body_ser") {
                        emit_any(j, v[row].as_slice(), floats);
                    } else {
                        emit_value(j, &f.column, row, floats);
                    }
                },
                _ => emit_value(j, &f.column, row, floats),
            }
        }
        i = i + 1;
    }
}

// ---------------------------------------------------------------------------
// Attributes.

/// A document with one attribute's value added to it, from whichever column
/// its type names.
pub open spec fn attr_doc(d: Doc, a: Table, row: int, floats: Floats) -> Doc {
    let ty = types_of(a)[row];
    let null = d.value("null"@);
    if ty == AttrType::Str.number() {
        match a.fields@[3].column.data {
            Data::Dict32(k, t) => if (k@[row] as int) < t@.len() {
                d.str(t@[k@[row] as int]@)
            } else {
                null
            },
            _ => null,
        }
    } else if ty == AttrType::Int.number() {
        match a.fields@[4].column.data {
            Data::I64(v) => d.digits_str(v@[row] as int),
            _ => null,
        }
    } else if ty == AttrType::Double.number() {
        match a.fields@[5].column.data {
            Data::Double(v) => d.double(v@[row], floats),
            _ => null,
        }
    } else if ty == AttrType::Bool.number() {
        match a.fields@[6].column.data {
            Data::Bool(v) => d.bool(v@[row]),
            _ => null,
        }
    } else if ty == AttrType::Bytes.number() {
        match a.fields@[7].column.data {
            Data::Binary(v) => d.hex(v@[row]@),
            _ => null,
        }
    } else if ty == AttrType::Slice.number() || ty == AttrType::KvList.number() {
        match a.fields@[8].column.data {
            Data::Binary(v) => encoded_doc(d, v@[row]@, floats),
            _ => null,
        }
    } else {
        null
    }
}

/// Emit one attribute's value from whichever column its `type` names.
pub fn emit_attr(j: &mut Json, a: &Table, row: usize, floats: &Floats)
    requires
        attrs_shaped(*a),
        row < a.rows,
    ensures
        final(j)@ == attr_doc(old(j)@, *a, row as int, *floats),
{
    assert(forall|i: int|
        0 <= i < a.fields@.len() ==> (#[trigger] a.fields@[i]).column.spec_len() == a.rows);
    let ty: u8 = match &a.fields[2].column.data {
        Data::U8(t) => t[row],
        _ => 0,
    };
    if ty == AttrType::Str.code() {
        match &a.fields[3].column.data {
            Data::Dict32(k, t) => {
                let at: usize = k[row] as usize;
                if at < t.len() {
                    j.str(t[at].as_str());
                } else {
                    j.null();
                }
            },
            _ => j.null(),
        }
    } else if ty == AttrType::Int.code() {
        match &a.fields[4].column.data {
            Data::I64(v) => j.i64_str(v[row]),
            _ => j.null(),
        }
    } else if ty == AttrType::Double.code() {
        match &a.fields[5].column.data {
            Data::Double(v) => j.double(v[row], floats),
            _ => j.null(),
        }
    } else if ty == AttrType::Bool.code() {
        match &a.fields[6].column.data {
            Data::Bool(v) => j.bool(v[row]),
            _ => j.null(),
        }
    } else if ty == AttrType::Bytes.code() {
        match &a.fields[7].column.data {
            Data::Binary(v) => j.hex(v[row].as_slice()),
            _ => j.null(),
        }
    } else if ty == AttrType::Slice.code() || ty == AttrType::KvList.code() {
        match &a.fields[8].column.data {
            Data::Binary(v) => emit_any(j, v[row].as_slice(), floats),
            _ => j.null(),
        }
    } else {
        j.null();
    }
}

/// One attribute: a table and a row of it.
pub struct At {
    pub table: Table,
    pub row: int,
}

impl At {
    pub open spec fn key(self) -> Seq<char> {
        key_at(self.table, self.row)
    }
}

/// The attributes of `parent` among the first `n` rows of a table.
pub open spec fn attrs_upto(a: Table, parent: u32, n: nat) -> Seq<At>
    decreases n,
{
    if n == 0 {
        Seq::empty()
    } else if parents_of(a)[n - 1] == parent {
        attrs_upto(a, parent, (n - 1) as nat).push(At { table: a, row: n - 1 })
    } else {
        attrs_upto(a, parent, (n - 1) as nat)
    }
}

/// An attribute put among others that are in order of their keys. One with the
/// same key gives way to it.
pub open spec fn put(s: Seq<At>, e: At) -> Seq<At>
    decreases s.len(),
{
    if s.len() == 0 {
        seq![e]
    } else {
        match rank_bytes(utf8(e.key()), utf8(s[0].key())) {
            Rank::Less => seq![e] + s,
            Rank::Equal => s.update(0, e),
            Rank::Greater => seq![s[0]] + put(s.skip(1), e),
        }
    }
}

/// Attributes put among others one after another.
pub open spec fn put_all(s: Seq<At>, es: Seq<At>) -> Seq<At>
    decreases es.len(),
{
    if es.len() == 0 {
        s
    } else {
        put(put_all(s, es.drop_last()), es.last())
    }
}

/// One level: an attribute table and the parent whose attributes are meant.
pub open spec fn level_put(s: Seq<At>, a: Option<Attrs>, parent: Option<u32>) -> Seq<At> {
    match (a, parent) {
        (Some(t), Some(p)) => put_all(s, attrs_upto(*t.rows, p, t.rows.rows as nat)),
        _ => s,
    }
}

/// An open object with attributes added to it.
pub open spec fn attrs_doc(d: Doc, es: Seq<At>, floats: Floats) -> Doc
    decreases es.len(),
{
    if es.len() == 0 {
        d
    } else {
        let e = es.last();
        attr_doc(attrs_doc(d, es.drop_last(), floats).key(e.key()), e.table, e.row, floats)
    }
}

/// An attribute to be written: a table and a row of it.
pub struct Entry<'a> {
    pub table: &'a Table,
    pub row: usize,
}

impl<'a> Entry<'a> {
    pub open spec fn wf(&self) -> bool {
        attrs_shaped(*self.table) && self.row < self.table.rows
    }

    pub open spec fn at(&self) -> At {
        At { table: *self.table, row: self.row as int }
    }
}

/// What a list of entries is.
pub open spec fn ats(s: Seq<Entry>) -> Seq<At> {
    Seq::new(s.len(), |i: int| s[i].at())
}

fn put_entry<'a>(v: &mut Vec<Entry<'a>>, e: Entry<'a>)
    requires
        e.wf(),
        forall|i: int| 0 <= i < old(v)@.len() ==> (#[trigger] old(v)@[i]).wf(),
    ensures
        forall|i: int| 0 <= i < final(v)@.len() ==> (#[trigger] final(v)@[i]).wf(),
        ats(final(v)@) == put(ats(old(v)@), e.at()),
{
    let mut i: usize = 0;
    let ghost s = ats(v@);
    assert(s.skip(0) =~= s);
    assert(s.take(0) + put(s.skip(0), e.at()) =~= put(s, e.at()));
    while i < v.len()
        invariant
            i <= v@.len(),
            v@ == old(v)@,
            s == ats(v@),
            e.wf(),
            forall|k: int| 0 <= k < v@.len() ==> (#[trigger] v@[k]).wf(),
            s.take(i as int) + put(s.skip(i as int), e.at()) == put(s, e.at()),
        decreases v@.len() - i,
    {
        assert(v@[i as int].wf());
        let r = compare_text(attr_key(e.table, e.row), attr_key(v[i].table, v[i].row));
        let ghost t = s.skip(i as int);
        assert(t[0] == v@[i as int].at());
        match r {
            Rank::Less => {
                let ghost at = e.at();
                v.insert(i, e);
                assert(ats(v@) =~= s.take(i as int) + (seq![at] + t));
                assert forall|k: int| 0 <= k < v@.len() implies (#[trigger] v@[k]).wf() by {
                    if k < i {
                        assert(v@[k] == old(v)@[k]);
                    } else if k > i {
                        assert(v@[k] == old(v)@[k - 1]);
                    }
                }
                return ;
            },
            Rank::Equal => {
                let ghost at = e.at();
                v.set(i, e);
                assert(ats(v@) =~= s.take(i as int) + t.update(0, at));
                return ;
            },
            Rank::Greater => {
                assert(t.skip(1) =~= s.skip(i + 1));
                assert(s.take(i as int) + (seq![t[0]] + put(t.skip(1), e.at())) =~= s.take(i + 1)
                    + put(s.skip(i + 1), e.at()));
            },
        }
        i = i + 1;
    }
    let ghost at = e.at();
    assert(s.skip(i as int) =~= Seq::<At>::empty());
    v.push(e);
    assert(ats(v@) =~= s.take(i as int) + seq![at]);
}

fn put_level<'a>(v: &mut Vec<Entry<'a>>, a: &Option<Attrs<'a>>, parent: Option<u32>)
    requires
        a matches Some(t) ==> t.wf(),
        forall|i: int| 0 <= i < old(v)@.len() ==> (#[trigger] old(v)@[i]).wf(),
    ensures
        forall|i: int| 0 <= i < final(v)@.len() ==> (#[trigger] final(v)@[i]).wf(),
        ats(final(v)@) == level_put(ats(old(v)@), *a, parent),
{
    let (t, p) = match (a, parent) {
        (Some(t), Some(p)) => (t, p),
        _ => {
            return ;
        },
    };
    let (lo, hi) = t.run(p);
    let mut i: usize = lo;
    let ghost s = ats(v@);
    let ghost rows = *t.rows;
    proof {
        lemma_attrs_gap(rows, p, 0, lo as nat);
    }
    if let Data::U32(parents) = &t.rows.fields[0].column.data {
        while i < hi
            invariant
                lo <= i <= hi <= t.rows.rows,
                t.wf(),
                rows == *t.rows,
                parents@ == parents_of(rows),
                forall|k: int| 0 <= k < v@.len() ==> (#[trigger] v@[k]).wf(),
                ats(v@) == put_all(s, attrs_upto(rows, p, i as nat)),
            decreases hi - i,
        {
            if parents[i] == p {
                put_entry(v, Entry { table: t.rows, row: i });
                proof {
                    let before = attrs_upto(rows, p, i as nat);
                    let now = attrs_upto(rows, p, (i + 1) as nat);
                    assert(now.drop_last() =~= before);
                }
            }
            i = i + 1;
        }
        proof {
            lemma_attrs_gap(rows, p, hi as nat, rows.rows as nat);
        }
    }
}

/// Rows that belong to another parent add nothing.
proof fn lemma_attrs_gap(a: Table, p: u32, from: nat, to: nat)
    requires
        from <= to,
        forall|i: int| from <= i < to ==> #[trigger] parents_of(a)[i] != p,
    ensures
        attrs_upto(a, p, to) == attrs_upto(a, p, from),
    decreases to - from,
{
    if from < to {
        assert(parents_of(a)[to - 1] != p);
        lemma_attrs_gap(a, p, from, (to - 1) as nat);
    }
}

fn emit_entries(j: &mut Json, v: &Vec<Entry>, floats: &Floats)
    requires
        forall|i: int| 0 <= i < v@.len() ==> (#[trigger] v@[i]).wf(),
    ensures
        final(j)@ == attrs_doc(old(j)@.enter('{'), ats(v@), *floats).leave('}'),
{
    j.enter('{');
    let ghost d = j@;
    let mut i: usize = 0;
    assert(ats(v@).take(0) =~= Seq::<At>::empty());
    while i < v.len()
        invariant
            i <= v@.len(),
            forall|k: int| 0 <= k < v@.len() ==> (#[trigger] v@[k]).wf(),
            j@ == attrs_doc(d, ats(v@).take(i as int), *floats),
        decreases v@.len() - i,
    {
        assert(v@[i as int].wf());
        proof {
            let t = ats(v@).take(i + 1);
            assert(t.drop_last() =~= ats(v@).take(i as int));
            assert(t.last() == v@[i as int].at());
        }
        j.key(attr_key(v[i].table, v[i].row));
        emit_attr(j, v[i].table, v[i].row, floats);
        i = i + 1;
    }
    assert(ats(v@).take(i as int) =~= ats(v@));
    j.leave('}');
}

// ---------------------------------------------------------------------------
// Rows.

/// The 16-bit number root row `row` holds in a column.
pub open spec fn fk_of(root: Table, row: int, name: Seq<char>) -> Option<u32> {
    match u16s_named(root, name) {
        Some(v) => Some(v[row] as u32),
        None => None,
    }
}

/// The number of a child row, by which its attributes are keyed.
pub open spec fn child_id(rows: Table, r: int) -> Option<u32> {
    match u32s_named(rows, "id"@) {
        Some(v) => Some(v[r]),
        None => None,
    }
}

/// An open array with child row `r` added to it.
pub open spec fn child_doc(d: Doc, rows: Table, attrs: Option<Attrs>, r: int, floats: Floats) -> Doc {
    let inside = fields_doc(d.enter('{'), rows, r, rows.fields@.len(), floats).key("attributes"@);
    attrs_doc(inside.enter('{'), level_put(Seq::empty(), attrs, child_id(rows, r)), floats).leave(
        '}',
    ).leave('}')
}

/// An open array with child rows added to it.
pub open spec fn hits_doc(d: Doc, rows: Table, attrs: Option<Attrs>, hits: Seq<u32>, floats: Floats) -> Doc
    decreases hits.len(),
{
    if hits.len() == 0 {
        d
    } else {
        child_doc(
            hits_doc(d, rows, attrs, hits.drop_last(), floats),
            rows,
            attrs,
            hits.last() as int,
            floats,
        )
    }
}

/// An open row with one kind of children added to it. No key at all where
/// there are none.
pub open spec fn children_doc(d: Doc, c: Child, row: u32, floats: Floats) -> Doc {
    let hits = children_of(*c.rows, row);
    if hits.len() == 0 {
        d
    } else {
        hits_doc(d.key(c.label@).enter('['), *c.rows, c.attrs, hits, floats).leave(']')
    }
}

impl<'a> Block<'a> {
    /// An open row with the first `n` kinds of children added to it.
    pub open spec fn kinds_doc(&self, d: Doc, row: u32, n: nat, floats: Floats) -> Doc
        decreases n,
    {
        if n == 0 {
            d
        } else {
            children_doc(
                self.kinds_doc(d, row, (n - 1) as nat, floats),
                self.children@[n - 1],
                row,
                floats,
            )
        }
    }

    /// The attributes of a row, those of its resource and its scope under its
    /// own.
    pub open spec fn row_attrs(&self, row: u32) -> Seq<At> {
        level_put(
            level_put(
                level_put(
                    Seq::empty(),
                    self.resource_attrs,
                    fk_of(*self.root, row as int, "resource_id"@),
                ),
                self.scope_attrs,
                fk_of(*self.root, row as int, "scope_id"@),
            ),
            self.attrs,
            Some(row),
        )
    }

    /// A document with one row added to it.
    pub open spec fn row_doc(&self, d: Doc, row: u32, floats: Floats) -> Doc {
        let fields = fields_doc(
            d.enter('{'),
            *self.root,
            row as int,
            self.root.fields@.len(),
            floats,
        );
        let attrs = attrs_doc(
            fields.key("attributes"@).enter('{'),
            self.row_attrs(row),
            floats,
        ).leave('}');
        self.kinds_doc(attrs, row, self.children@.len(), floats).leave('}')
    }

    fn fk(&self, row: u32, name: &str) -> (r: Option<u32>)
        requires
            self.wf(),
            row < self.root.rows,
        ensures
            r == fk_of(*self.root, row as int, name@),
    {
        match u16_column(self.root, name) {
            Some(v) => Some(v[row as usize] as u32),
            None => None,
        }
    }

    fn emit_child(j: &mut Json, c: &Child<'a>, r: usize, floats: &Floats)
        requires
            c.wf(),
            r < c.rows.rows,
        ensures
            final(j)@ == child_doc(old(j)@, *c.rows, c.attrs, r as int, *floats),
    {
        j.enter('{');
        emit_fields(j, c.rows, r, floats);
        let id: Option<u32> = match u32_column(c.rows, "id") {
            Some(v) => Some(v[r]),
            None => None,
        };
        j.key("attributes");
        let mut entries: Vec<Entry<'a>> = Vec::new();
        assert(ats(entries@) =~= Seq::<At>::empty());
        put_level(&mut entries, &c.attrs, id);
        emit_entries(j, &entries, floats);
        j.leave('}');
    }

    /// The `events` or `links` array of one span.
    fn emit_children(j: &mut Json, c: &Child<'a>, row: u32, floats: &Floats)
        requires
            c.wf(),
        ensures
            final(j)@ == children_doc(old(j)@, *c, row, *floats),
    {
        let ghost hits = children_of(*c.rows, row);
        if row as usize >= c.by_parent.len() {
            assert(hits.len() == 0);
            return ;
        }
        let list = &c.by_parent[row as usize];
        assert(list@ == hits);
        if list.len() == 0 {
            return ;
        }
        j.key(c.label);
        j.enter('[');
        let ghost d = j@;
        let mut i: usize = 0;
        assert(hits.take(0) =~= Seq::<u32>::empty());
        proof {
            if let Some(parents) = u32s_named(*c.rows, "parent_id"@) {
                lemma_children_bounds(parents, c.rows.rows as nat, row);
            }
        }
        while i < list.len()
            invariant
                i <= list@.len(),
                list@ == hits,
                c.wf(),
                forall|k: int| 0 <= k < hits.len() ==> (#[trigger] hits[k]) < c.rows.rows,
                j@ == hits_doc(d, *c.rows, c.attrs, hits.take(i as int), *floats),
            decreases list@.len() - i,
        {
            assert(hits.take(i + 1).drop_last() =~= hits.take(i as int));
            assert(hits[i as int] < c.rows.rows);
            Block::emit_child(j, c, list[i] as usize, floats);
            i = i + 1;
        }
        assert(hits.take(i as int) =~= hits);
        j.leave(']');
    }

    /// Write one root row as a JSON object, attributes merged in and child rows
    /// nested under it.
    pub fn emit_row(&self, j: &mut Json, row: u32, floats: &Floats)
        requires
            self.wf(),
            row < self.root.rows,
        ensures
            final(j)@ == self.row_doc(old(j)@, row, *floats),
    {
        j.enter('{');
        emit_fields(j, self.root, row as usize, floats);
        j.key("attributes");
        let mut entries: Vec<Entry<'a>> = Vec::new();
        assert(ats(entries@) =~= Seq::<At>::empty());
        let rid = self.fk(row, "resource_id");
        let sid = self.fk(row, "scope_id");
        put_level(&mut entries, &self.resource_attrs, rid);
        put_level(&mut entries, &self.scope_attrs, sid);
        put_level(&mut entries, &self.attrs, Some(row));
        emit_entries(j, &entries, floats);
        let ghost d = j@;
        let mut c: usize = 0;
        while c < self.children.len()
            invariant
                c <= self.children@.len(),
                self.wf(),
                j@ == self.kinds_doc(d, row, c as nat, *floats),
            decreases self.children@.len() - c,
        {
            assert(self.children@[c as int].wf());
            Block::emit_children(j, &self.children[c], row, floats);
            c = c + 1;
        }
        j.leave('}');
    }
}

proof fn lemma_children_bounds(parents: Seq<u32>, n: nat, p: u32)
    requires
        n <= u32::MAX,
    ensures
        forall|i: int|
            0 <= i < children_upto(parents, n, p).len() ==> (#[trigger] children_upto(
                parents,
                n,
                p,
            )[i]) < n,
    decreases n,
{
    if n > 0 {
        lemma_children_bounds(parents, (n - 1) as nat, p);
        let before = children_upto(parents, (n - 1) as nat, p);
        let now = children_upto(parents, n, p);
        assert forall|i: int| 0 <= i < now.len() implies (#[trigger] now[i]) < n by {
            if i < before.len() {
                assert(before[i] < n - 1);
                assert(now[i] == before[i]);
            }
        }
    }
}

} // verus!
