//! What a term of a search asks of a value, said in plain comparisons.

use crate::attrs::AttrRow;
use crate::float::Floats;
use crate::logs::{logs_sealed_of, LogsState};
use crate::order::{lemma_rank_bytes, lemma_utf8_injective, rank_bytes, utf8, Rank};
use crate::otlp::Val;
use crate::query::{Op, Signal, Target, Term, Value};
use crate::readback::{
    attribute_satisfies, law_attributes_are_found_at_every_level, parent_has, value_satisfies,
};
use crate::scan::Block;
use crate::signal::{Sealed, Sidecars};
use crate::table::{Column, Data};
use crate::text::signed;
use vstd::prelude::*;

verus! {

/// Whether two numbers stand as an operator says. Nothing is contained in a
/// number.
pub open spec fn stand(op: Op, a: int, b: int) -> bool {
    match op {
        Op::Eq => a == b,
        Op::Ne => a != b,
        Op::Lt => a < b,
        Op::Lte => a <= b,
        Op::Gt => a > b,
        Op::Gte => a >= b,
        Op::Contains => false,
    }
}

/// Whether one run of bytes comes before another: they part at some place, and
/// there the first has ended or has the smaller byte.
pub open spec fn comes_before(a: Seq<u8>, b: Seq<u8>) -> bool {
    exists|i: int| #[trigger] parts_at(a, b, i)
}

/// Two runs agree up to `i`, and there the first has ended or is smaller.
pub open spec fn parts_at(a: Seq<u8>, b: Seq<u8>, i: int) -> bool {
    &&& 0 <= i <= a.len()
    &&& i < b.len()
    &&& a.take(i) == b.take(i)
    &&& i == a.len() || a[i] < b[i]
}

/// Whether two texts stand as an operator says.
pub open spec fn texts_stand(op: Op, s: Seq<char>, t: Seq<char>) -> bool {
    match op {
        Op::Eq => s == t,
        Op::Ne => s != t,
        Op::Lt => comes_before(utf8(s), utf8(t)),
        Op::Lte => s == t || comes_before(utf8(s), utf8(t)),
        Op::Gt => comes_before(utf8(t), utf8(s)),
        Op::Gte => s == t || comes_before(utf8(t), utf8(s)),
        Op::Contains => holds_run(utf8(s), utf8(t)),
    }
}

/// Whether a run of bytes lies within another.
pub open spec fn holds_run(hay: Seq<u8>, needle: Seq<u8>) -> bool {
    exists|a: Seq<u8>, b: Seq<u8>| hay == #[trigger] (a + needle + b)
}

/// Where a double stands among the doubles: by magnitude, the negative ones
/// downwards, and the two zeros in one place.
pub open spec fn place(bits: u64) -> int {
    if bits < 0x8000_0000_0000_0000 {
        bits as int
    } else {
        0x8000_0000_0000_0000 - bits
    }
}

/// Whether a pattern is that of a number.
pub open spec fn is_number(bits: u64) -> bool {
    -0x7ff0_0000_0000_0000 <= place(bits) <= 0x7ff0_0000_0000_0000
}

/// Whether two doubles stand as an operator says. What is not a number stands
/// to nothing.
pub open spec fn doubles_stand(op: Op, a: u64, b: u64) -> bool {
    is_number(a) && is_number(b) && stand(op, place(a), place(b))
}

/// Whether two truth values stand as an operator says, false before true.
pub open spec fn truths_stand(op: Op, a: bool, b: bool) -> bool {
    match op {
        Op::Eq => a == b,
        Op::Ne => a != b,
        Op::Lt => !a && b,
        Op::Lte => !a || b,
        Op::Gt => a && !b,
        Op::Gte => a || !b,
        Op::Contains => false,
    }
}

proof fn lemma_rank(a: Seq<u8>, b: Seq<u8>)
    ensures
        rank_bytes(a, b) == Rank::Less <==> comes_before(a, b),
        rank_bytes(a, b) == Rank::Equal <==> a == b,
        rank_bytes(a, b) == Rank::Greater <==> comes_before(b, a),
{
    lemma_rank_bytes(a, b, a);
    lemma_rank_bytes(b, a, b);
    lemma_less(a, b);
    lemma_less(b, a);
}

proof fn lemma_less(a: Seq<u8>, b: Seq<u8>)
    ensures
        rank_bytes(a, b) == Rank::Less <==> comes_before(a, b),
    decreases a.len(),
{
    if a.len() == 0 {
        if b.len() > 0 {
            assert(a.take(0) =~= b.take(0));
            assert(parts_at(a, b, 0));
        }
    } else if b.len() > 0 {
        let (x, y) = (a.skip(1), b.skip(1));
        lemma_less(x, y);
        if a[0] == b[0] {
            if comes_before(x, y) {
                let i = choose|i: int| #[trigger] parts_at(x, y, i);
                assert(a.take(i + 1) =~= seq![a[0]] + x.take(i));
                assert(b.take(i + 1) =~= seq![b[0]] + y.take(i));
                assert(parts_at(a, b, i + 1));
            }
            if comes_before(a, b) {
                let i = choose|i: int| #[trigger] parts_at(a, b, i);
                assert(i > 0);
                assert(x.take(i - 1) =~= a.take(i).skip(1));
                assert(y.take(i - 1) =~= b.take(i).skip(1));
                assert(parts_at(x, y, i - 1));
            }
        } else {
            if a[0] < b[0] {
                assert(a.take(0) =~= b.take(0));
                assert(parts_at(a, b, 0));
            }
            if comes_before(a, b) {
                let i = choose|i: int| #[trigger] parts_at(a, b, i);
                if i > 0 {
                    assert(a.take(i)[0] == b.take(i)[0]);
                }
            }
        }
    } else if comes_before(a, b) {
        let i = choose|i: int| #[trigger] parts_at(a, b, i);
    }
}

proof fn lemma_holds_run(hay: Seq<u8>, needle: Seq<u8>)
    ensures
        crate::order::occurs(hay, needle) <==> holds_run(hay, needle),
{
    if crate::order::occurs(hay, needle) {
        let i = choose|i: int|
            0 <= i && i + needle.len() <= hay.len() && #[trigger] hay.subrange(i, i + needle.len())
                == needle;
        let (a, b) = (hay.take(i), hay.skip(i + needle.len()));
        assert(hay =~= a + hay.subrange(i, i + needle.len()) + b);
        assert(hay == a + needle + b);
    }
    if holds_run(hay, needle) {
        let (a, b) = choose|a: Seq<u8>, b: Seq<u8>| hay == #[trigger] (a + needle + b);
        let i = a.len() as int;
        assert(hay.subrange(i, i + needle.len()) =~= needle);
    }
}

proof fn lemma_texts(op: Op, s: Seq<char>, t: Seq<char>)
    ensures
        texts_stand(op, s, t) == if op == Op::Contains {
            crate::order::occurs(utf8(s), utf8(t))
        } else {
            op.accepts(rank_bytes(utf8(s), utf8(t)))
        },
{
    lemma_rank(utf8(s), utf8(t));
    lemma_utf8_injective(s, t);
    lemma_holds_run(utf8(s), utf8(t));
}

/// A text attribute against a quoted scalar: equal as texts, different as texts,
/// before or after by their bytes, or within. Of equal and different exactly one
/// holds.
pub proof fn law_text_attributes_compare_as_texts(
    s: Seq<char>,
    op: Op,
    t: String,
    floats: Floats,
)
    ensures
        value_satisfies(Val::Str(s), op, Value::Str(t), floats) == texts_stand(op, s, t@),
        value_satisfies(Val::Str(s), Op::Eq, Value::Str(t), floats) <==> s == t@,
        value_satisfies(Val::Str(s), Op::Ne, Value::Str(t), floats) <==> s != t@,
{
    lemma_texts(op, s, t@);
    lemma_texts(Op::Eq, s, t@);
    lemma_texts(Op::Ne, s, t@);
}

/// A text attribute against an unquoted scalar. It equals an integer exactly if
/// it is how the integer is written, and a truth value if it is its name; it is
/// different from what it does not equal.
pub proof fn law_text_attributes_equal_what_is_written(s: Seq<char>, i: i64, b: bool, floats: Floats)
    ensures
        value_satisfies(Val::Str(s), Op::Eq, Value::Int(i), floats) <==> s == signed(i as int),
        value_satisfies(Val::Str(s), Op::Ne, Value::Int(i), floats) <==> s != signed(i as int),
        value_satisfies(Val::Str(s), Op::Eq, Value::Bool(b), floats) <==> s == if b {
            "true"@
        } else {
            "false"@
        },
        value_satisfies(Val::Str(s), Op::Ne, Value::Bool(b), floats) <==> s != if b {
            "true"@
        } else {
            "false"@
        },
{
    let t = if b {
        "true"@
    } else {
        "false"@
    };
    lemma_texts(Op::Eq, s, signed(i as int));
    lemma_texts(Op::Ne, s, signed(i as int));
    lemma_texts(Op::Eq, s, t);
    lemma_texts(Op::Ne, s, t);
}

/// A text attribute that reads as a number is ordered as that number against an
/// unquoted number, and as a text where it does not read as one.
pub proof fn law_text_attributes_order_as_numbers(s: Seq<char>, op: Op, d: u64, floats: Floats)
    requires
        op == Op::Lt || op == Op::Lte || op == Op::Gt || op == Op::Gte,
    ensures
        floats.reading_of(s) matches Some(x) ==> value_satisfies(
            Val::Str(s),
            op,
            Value::Double(d),
            floats,
        ) == doubles_stand(op, x, d),
{
}

/// An integer attribute against an integer, written bare, as a whole double or
/// in quotation marks: they stand as numbers do.
pub proof fn law_integer_attributes_compare_as_numbers(x: i64, op: Op, v: Value, y: i64, floats: Floats)
    requires
        v == Value::Int(y) || (v matches Value::Str(t) && t@ == signed(y as int)),
    ensures
        value_satisfies(Val::Int(x), op, v, floats) == stand(op, x as int, y as int),
{
    crate::text::lemma_signed_round_trip(y as int);
}

/// A double attribute against a double: by magnitude and sign, and nothing
/// stands to what is not a number.
pub proof fn law_double_attributes_compare_as_doubles(x: u64, op: Op, y: u64, floats: Floats)
    ensures
        value_satisfies(Val::Double(x), op, Value::Double(y), floats) == doubles_stand(op, x, y),
{
}

/// A truth value against a truth value, written bare or in quotation marks.
pub proof fn law_truth_attributes_compare_as_truths(x: bool, op: Op, v: Value, y: bool, floats: Floats)
    requires
        v == Value::Bool(y) || (v matches Value::Str(t) && t@ == if y {
            "true"@
        } else {
            "false"@
        }),
    ensures
        value_satisfies(Val::Bool(x), op, v, floats) == truths_stand(op, x, y),
{
    reveal_strlit("true");
    reveal_strlit("false");
    assert("true"@.len() == 4 && "false"@.len() == 5);
}

/// What cannot be read as a number equals no number, and what is neither a text,
/// a number nor a truth value satisfies nothing.
pub proof fn law_other_attributes_satisfy_nothing(x: Val, op: Op, v: Value, floats: Floats)
    requires
        !(x is Str || x is Int || x is Double || x is Bool) || (x is Int && v is Bool) || (x is Double
            && v is Bool) || (x is Bool && (v is Int || v is Double)),
    ensures
        !value_satisfies(x, op, v, floats),
{
}

/// A record whose only attribute of a key is a text, at whatever level, carries
/// `key = t` exactly if the text is `t`, and `key != t` exactly if it is not.
pub proof fn law_a_record_has_the_text_or_not(
    b: Sealed,
    st: LogsState,
    sidecars: Sidecars,
    blk: Block,
    row: int,
    key: String,
    s: Seq<char>,
    op: Op,
    t: String,
    floats: Floats,
)
    requires
        logs_sealed_of(b, st, sidecars),
        blk.is_of(b.tables@, Signal::Logs),
        0 <= row < st.rows.len(),
        row <= u32::MAX,
        has_only(st.attrs, row as u32, key@, Val::Str(s)),
        has_only(st.rs.resource_attrs, st.rows[row].resource_id as u32, key@, Val::Str(s)),
        has_only(st.rs.scope_attrs, st.rows[row].scope_id as u32, key@, Val::Str(s)),
        has_one(st.attrs, row as u32, key@) || has_one(
            st.rs.resource_attrs,
            st.rows[row].resource_id as u32,
            key@,
        ) || has_one(st.rs.scope_attrs, st.rows[row].scope_id as u32, key@),
    ensures
        blk.satisfies(row, Term { target: Target::Attr(key), op, value: Value::Str(t) }, floats)
            == texts_stand(op, s, t@),
{
    let v = Value::Str(t);
    law_attributes_are_found_at_every_level(b, st, sidecars, blk, key@, op, v, floats, row);
    law_text_attributes_compare_as_texts(s, op, t, floats);
    lemma_only(st.attrs, row as u32, key@, s, op, v, floats);
    lemma_only(
        st.rs.resource_attrs,
        st.rows[row].resource_id as u32,
        key@,
        s,
        op,
        v,
        floats,
    );
    lemma_only(st.rs.scope_attrs, st.rows[row].scope_id as u32, key@, s, op, v, floats);
}

/// Every attribute of the parent under the key is this value.
pub open spec fn has_only(rows: Seq<AttrRow>, parent: u32, key: Seq<char>, x: Val) -> bool {
    forall|i: int|
        0 <= i < rows.len() && (#[trigger] rows[i]).parent == parent && rows[i].key == key ==> rows[i].value
            == x
}

/// The parent has an attribute under the key.
pub open spec fn has_one(rows: Seq<AttrRow>, parent: u32, key: Seq<char>) -> bool {
    exists|i: int| 0 <= i < rows.len() && (#[trigger] rows[i]).parent == parent && rows[i].key == key
}

proof fn lemma_only(
    rows: Seq<AttrRow>,
    parent: u32,
    key: Seq<char>,
    s: Seq<char>,
    op: Op,
    v: Value,
    floats: Floats,
)
    requires
        has_only(rows, parent, key, Val::Str(s)),
    ensures
        parent_has(rows, parent, key, op, v, floats) <==> has_one(rows, parent, key)
            && value_satisfies(Val::Str(s), op, v, floats),
{
    if has_one(rows, parent, key) && value_satisfies(Val::Str(s), op, v, floats) {
        let i = choose|i: int|
            0 <= i < rows.len() && (#[trigger] rows[i]).parent == parent && rows[i].key == key;
        assert(attribute_satisfies(rows[i], key, op, v, floats));
    }
}

// ---------------------------------------------------------------------------
// Columns.

/// The number in a slot of a column of numbers.
pub open spec fn number_in(c: Column, i: int) -> Option<int> {
    match c.data {
        Data::U8(v) => Some(v@[i] as int),
        Data::U16(v) => Some(v@[i] as int),
        Data::U32(v) => Some(v@[i] as int),
        Data::U64(v) => Some(v@[i] as int),
        Data::I32(v) => Some(v@[i] as int),
        Data::I64(v) => Some(v@[i] as int),
        Data::Time(v) => Some(v@[i] as int),
        _ => None,
    }
}

/// The text in a slot of a column of texts.
pub open spec fn text_in(c: Column, i: int) -> Option<Seq<char>> {
    match c.data {
        Data::Text(v) => Some(v@[i]@),
        Data::Dict16(k, d) => Some(d@[k@[i] as int]@),
        _ => None,
    }
}

/// A term on a column: whether root row `i` satisfies it.
pub open spec fn column_term(blk: Block, name: String, i: int, op: Op, v: Value, floats: Floats) -> bool {
    blk.satisfies(i, Term { target: Target::Field(name), op, value: v }, floats)
}

/// A slot without a value satisfies no term, and neither does a column that is
/// not there.
pub proof fn law_nothing_satisfies_nothing(
    blk: Block,
    name: String,
    i: int,
    op: Op,
    v: Value,
    floats: Floats,
)
    requires
        blk.root.named(name@) matches Some(c) ==> c.valid matches Some(m) && !m@[i],
    ensures
        !column_term(blk, name, i, op, v, floats),
{
}

/// A column of numbers, of any width and sign, against an integer written bare
/// or in quotation marks: the two stand as numbers do.
pub proof fn law_number_columns_compare_as_numbers(
    blk: Block,
    name: String,
    c: Column,
    i: int,
    op: Op,
    v: Value,
    y: i64,
    floats: Floats,
)
    requires
        blk.root.named(name@) == Some(c),
        c.valid matches Some(m) ==> m@[i],
        number_in(c, i) is Some,
        v == Value::Int(y) || (v matches Value::Str(t) && t@ == signed(y as int)),
    ensures
        column_term(blk, name, i, op, v, floats) == stand(op, number_in(c, i).unwrap(), y as int),
{
    crate::text::lemma_signed_round_trip(y as int);
}

/// A column of texts against a quoted scalar.
pub proof fn law_text_columns_compare_as_texts(
    blk: Block,
    name: String,
    c: Column,
    i: int,
    op: Op,
    t: String,
    floats: Floats,
)
    requires
        blk.root.named(name@) == Some(c),
        c.valid matches Some(m) ==> m@[i],
        text_in(c, i) is Some,
    ensures
        column_term(blk, name, i, op, Value::Str(t), floats) == texts_stand(
            op,
            text_in(c, i).unwrap(),
            t@,
        ),
{
    lemma_texts(op, text_in(c, i).unwrap(), t@);
}

/// A column of texts is compared with nothing but text.
pub proof fn law_text_columns_take_no_number(
    blk: Block,
    name: String,
    c: Column,
    i: int,
    op: Op,
    v: Value,
    floats: Floats,
)
    requires
        blk.root.named(name@) == Some(c),
        text_in(c, i) is Some,
        !(v is Str),
    ensures
        !column_term(blk, name, i, op, v, floats),
{
}

/// A column of doubles against a double, and a column of truth values against
/// one.
pub proof fn law_double_and_truth_columns_compare(
    blk: Block,
    name: String,
    c: Column,
    i: int,
    op: Op,
    y: u64,
    z: bool,
    floats: Floats,
)
    requires
        blk.root.named(name@) == Some(c),
        c.valid matches Some(m) ==> m@[i],
    ensures
        c.data matches Data::Double(x) ==> column_term(blk, name, i, op, Value::Double(y), floats)
            == doubles_stand(op, x@[i], y),
        c.data matches Data::Bool(x) ==> column_term(blk, name, i, op, Value::Bool(z), floats)
            == truths_stand(op, x@[i], z),
{
}

/// A column of ids against hexadecimal digits: an id equals what is written
/// exactly if its bytes are the ones the digits spell, in either case, and is
/// different exactly if they are not.
pub proof fn law_id_columns_compare_by_their_bytes(
    blk: Block,
    name: String,
    c: Column,
    i: int,
    t: String,
    id: Seq<u8>,
    floats: Floats,
)
    requires
        blk.root.named(name@) == Some(c),
        c.valid matches Some(m) ==> m@[i],
        c.data is Fixed,
        spells(t@, id),
    ensures
        c.data matches Data::Fixed(x) ==> {
            &&& column_term(blk, name, i, Op::Eq, Value::Str(t), floats) <==> x@[i]@ == id
            &&& column_term(blk, name, i, Op::Ne, Value::Str(t), floats) <==> x@[i]@ != id
        },
{
    let x = c.data->Fixed_0;
    assert(crate::filter::unhexed(t@) == Some(id)) by {
        assert forall|k: int| 0 <= k < t@.len() implies crate::text::digit_value(
            #[trigger] t@[k],
            16,
        ) is Some by {
            let j = k / 2;
            assert(hex_pair(t@[2 * j], t@[2 * j + 1], id[j]));
        }
        assert forall|j: int| 0 <= j < id.len() implies #[trigger] id[j]
            == crate::filter::unhexed(t@).unwrap()[j] by {
            assert(hex_pair(t@[2 * j], t@[2 * j + 1], id[j]));
        }
        assert(crate::filter::unhexed(t@).unwrap() =~= id);
    }
    lemma_rank(x@[i]@, id);
}

/// The value of a hexadecimal digit.
pub open spec fn hex_digit(c: char) -> int {
    if '0' <= c && c <= '9' {
        c as int - '0' as int
    } else if 'a' <= c && c <= 'f' {
        c as int - 'a' as int + 10
    } else if 'A' <= c && c <= 'F' {
        c as int - 'A' as int + 10
    } else {
        -1
    }
}

/// Two hexadecimal digits spell a byte, the higher one first.
pub open spec fn hex_pair(h: char, l: char, b: u8) -> bool {
    hex_digit(h) >= 0 && hex_digit(l) >= 0 && b == 16 * hex_digit(h) + hex_digit(l)
}

/// Hexadecimal digits spell some bytes, two a byte.
pub open spec fn spells(t: Seq<char>, id: Seq<u8>) -> bool {
    t.len() == 2 * id.len() && forall|j: int|
        0 <= j < id.len() ==> hex_pair(#[trigger] t[2 * j], t[2 * j + 1], id[j])
}

} // verus!
