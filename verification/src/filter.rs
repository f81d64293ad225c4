//! Which rows of a table a term keeps.

use crate::float::{
    compare_doubles, is_finite, is_nan, rank_double, to_whole, whole_i64, Floats, SIGN,
};
use crate::order::{
    compare_bytes, compare_text, contains_text, occurs, rank_bool, rank_bytes, rank_i64, rank_mixed,
    rank_of, utf8,
};
use crate::query::{Op, Value};
use crate::table::{Column, Data};
use crate::text::{chars_of, digit_value, signed, signed_string};
use vstd::prelude::*;

verus! {

// ---------------------------------------------------------------------------
// Hexadecimal.

/// The bytes a run of hexadecimal digits denotes, either case. `None` on an
/// odd length or any other character.
pub open spec fn unhexed(s: Seq<char>) -> Option<Seq<u8>> {
    if s.len() % 2 == 0 && crate::text::all_digits(s, 16) {
        Some(
            Seq::new(
                s.len() / 2,
                |i: int|
                    (digit_value(s[2 * i], 16).unwrap_or(0) * 16 + digit_value(
                        s[2 * i + 1],
                        16,
                    ).unwrap_or(0)) as u8,
            ),
        )
    } else {
        None
    }
}

fn hex_value(c: char) -> (r: Option<u8>)
    ensures
        r is Some <==> digit_value(c, 16) is Some,
        r matches Some(d) ==> d < 16 && digit_value(c, 16) == Some(d as nat),
{
    let u: u32 = c as u32;
    if u >= 48 && u <= 57 {
        Some((u - 48) as u8)
    } else if u >= 97 && u <= 102 {
        Some((u - 87) as u8)
    } else if u >= 65 && u <= 70 {
        Some((u - 55) as u8)
    } else {
        None
    }
}

/// Decode hex, either case. `None` on an odd length or any non-hex character,
/// so a malformed trace id matches nothing rather than matching a truncated
/// prefix.
pub fn unhex(s: &str) -> (r: Option<Vec<u8>>)
    ensures
        r is Some <==> unhexed(s@) is Some,
        r matches Some(v) ==> unhexed(s@) == Some(v@),
{
    let c = chars_of(s);
    if c.len() % 2 != 0 {
        return None;
    }
    let mut out: Vec<u8> = Vec::new();
    let mut i: usize = 0;
    while i < c.len() / 2
        invariant
            c@ == s@,
            c@.len() % 2 == 0,
            i <= c@.len() / 2,
            out@.len() == i,
            forall|k: int| 0 <= k < 2 * i ==> digit_value(#[trigger] s@[k], 16) is Some,
            forall|k: int|
                0 <= k < i ==> out@[k] == (digit_value(s@[2 * k], 16).unwrap_or(0) * 16 + digit_value(
                    s@[2 * k + 1],
                    16,
                ).unwrap_or(0)) as u8,
        decreases c@.len() / 2 - i,
    {
        let hi: u8 = match hex_value(c[i * 2]) {
            Some(d) => d,
            None => {
                return None;
            },
        };
        let lo: u8 = match hex_value(c[i * 2 + 1]) {
            Some(d) => d,
            None => {
                return None;
            },
        };
        out.push(hi * 16 + lo);
        i = i + 1;
    }
    assert(out@ =~= unhexed(s@).unwrap());
    Some(out)
}

// ---------------------------------------------------------------------------
// The text of a query scalar.

/// The text an attribute of this value would have been indexed under: a whole
/// double writes as the integer it is.
pub open spec fn canonical(v: Value, floats: Floats) -> Seq<char> {
    match v {
        Value::Str(s) => s@,
        Value::Int(i) => signed(i as int),
        Value::Bool(b) => if b {
            "true"@
        } else {
            "false"@
        },
        Value::Double(d) => match whole_i64(d) {
            Some(i) => signed(i),
            None => if is_nan(d) {
                "NaN"@
            } else if !is_finite(d) {
                if d >= SIGN {
                    "-inf"@
                } else {
                    "inf"@
                }
            } else {
                floats.text_of(d).unwrap_or(""@)
            },
        },
    }
}

/// The text an attribute of this value would have been indexed under.
pub fn canon(v: &Value, floats: &Floats) -> (s: String)
    ensures
        s@ == canonical(*v, *floats),
{
    match v {
        Value::Str(s) => s.clone(),
        Value::Int(i) => signed_string(*i),
        Value::Bool(b) => if *b {
            "true".to_owned()
        } else {
            "false".to_owned()
        },
        Value::Double(d) => match to_whole(*d) {
            Some(i) => signed_string(i),
            None => {
                let m: u64 = *d % SIGN;
                if m > crate::float::INFINITY {
                    "NaN".to_owned()
                } else if m == crate::float::INFINITY {
                    if *d >= SIGN {
                        "-inf".to_owned()
                    } else {
                        "inf".to_owned()
                    }
                } else {
                    match floats.text(*d) {
                        Some(t) => t.clone(),
                        None => "".to_owned(),
                    }
                }
            },
        },
    }
}

// ---------------------------------------------------------------------------
// Columns of a root table.

/// Whether a text satisfies a term whose scalar is the text `needle`.
pub open spec fn text_satisfies(s: Seq<char>, op: Op, needle: Seq<char>) -> bool {
    if op == Op::Contains {
        occurs(utf8(s), utf8(needle))
    } else {
        op.accepts(rank_bytes(utf8(s), utf8(needle)))
    }
}

/// The number slot `i` of an integer column holds.
pub open spec fn integer_at(c: Column, i: int) -> Option<int> {
    match c.data {
        Data::Time(v) => Some(v@[i] as int),
        Data::I64(v) => Some(v@[i] as int),
        Data::I32(v) => Some(v@[i] as int),
        Data::U64(v) => Some(v@[i] as int),
        Data::U32(v) => Some(v@[i] as int),
        Data::U16(v) => Some(v@[i] as int),
        Data::U8(v) => Some(v@[i] as int),
        _ => None,
    }
}

/// Whether the column is one of integers.
pub open spec fn is_integers(c: Column) -> bool {
    c.data is Time || c.data is I64 || c.data is I32 || c.data is U64 || c.data is U32
        || c.data is U16 || c.data is U8
}

/// Whether a scalar can be compared against a column at all.
pub open spec fn comparable(c: Column, v: Value, floats: Floats) -> bool {
    if is_integers(c) {
        v.i64_of() is Some
    } else {
        match c.data {
            Data::Double(_) => v.double_of(floats) is Some,
            Data::Bool(_) => v.bool_of() is Some,
            Data::Dict16(_, _) => v.str_of() is Some,
            Data::Text(_) => v.str_of() is Some,
            Data::Fixed(_) => v.str_of() matches Some(s) && unhexed(s) is Some,
            _ => false,
        }
    }
}

/// Whether slot `i` of a column holds a value that satisfies `op v`, where the
/// two can be compared.
pub open spec fn cell_satisfies(c: Column, i: int, op: Op, v: Value, floats: Floats) -> bool {
    c.holds(i) && if is_integers(c) {
        op.accepts(rank_of(integer_at(c, i).unwrap_or(0), v.i64_of().unwrap_or(0)))
    } else {
        match c.data {
            Data::Double(xs) => match rank_double(xs@[i], v.double_of(floats).unwrap_or(0)) {
                Some(r) => op.accepts(r),
                None => false,
            },
            Data::Bool(xs) => op.accepts(
                rank_of(
                    if xs@[i] {
                        1
                    } else {
                        0
                    },
                    if v.bool_of() == Some(true) {
                        1
                    } else {
                        0
                    },
                ),
            ),
            Data::Dict16(k, d) => text_satisfies(
                d@[k@[i] as int]@,
                op,
                v.str_of().unwrap_or(Seq::empty()),
            ),
            Data::Text(xs) => text_satisfies(xs@[i]@, op, v.str_of().unwrap_or(Seq::empty())),
            Data::Fixed(xs) => op.accepts(
                rank_bytes(
                    xs@[i]@,
                    unhexed(v.str_of().unwrap_or(Seq::empty())).unwrap_or(Seq::empty()),
                ),
            ),
            _ => false,
        }
    }
}

/// A term's scalar in the form one kind of column is compared with.
pub enum Needle {
    Int(i64),
    Double(u64),
    Bool(bool),
    Text(String),
    Bytes(Vec<u8>),
    /// Which entries of the column's dictionary satisfy the term.
    Codes(Vec<bool>),
}

/// The needle is what the scalar comes to for this column.
pub open spec fn prepared(n: Needle, c: Column, op: Op, v: Value, floats: Floats) -> bool {
    &&& comparable(c, v, floats)
    &&& if is_integers(c) {
        n matches Needle::Int(y) && v.i64_of() == Some(y as int)
    } else {
        match c.data {
            Data::Double(_) => n matches Needle::Double(y) && v.double_of(floats) == Some(y),
            Data::Bool(_) => n matches Needle::Bool(y) && v.bool_of() == Some(y),
            Data::Text(_) => n matches Needle::Text(y) && v.str_of() == Some(y@),
            Data::Fixed(_) => n matches Needle::Bytes(y) && v.str_of() is Some && unhexed(
                v.str_of().unwrap(),
            ) == Some(y@),
            Data::Dict16(_, d) => n matches Needle::Codes(ok) && v.str_of() is Some && ok@.len()
                == d@.len() && (forall|i: int|
                0 <= i < d@.len() ==> #[trigger] ok@[i] == text_satisfies(
                    d@[i]@,
                    op,
                    v.str_of().unwrap(),
                )),
            _ => false,
        }
    }
}

fn test_text(s: &str, op: Op, needle: &str) -> (r: bool)
    ensures
        r == text_satisfies(s@, op, needle@),
{
    if op == Op::Contains {
        contains_text(s, needle)
    } else {
        op.test_ord(compare_text(s, needle))
    }
}

fn test_dictionary(values: &Vec<String>, op: Op, needle: &str) -> (ok: Vec<bool>)
    ensures
        ok@.len() == values@.len(),
        forall|i: int|
            0 <= i < values@.len() ==> #[trigger] ok@[i] == text_satisfies(values@[i]@, op, needle@),
{
    let mut ok: Vec<bool> = Vec::new();
    let mut i: usize = 0;
    while i < values.len()
        invariant
            i <= values@.len(),
            ok@.len() == i,
            forall|k: int|
                0 <= k < i ==> #[trigger] ok@[k] == text_satisfies(values@[k]@, op, needle@),
        decreases values@.len() - i,
    {
        ok.push(test_text(values[i].as_str(), op, needle));
        i = i + 1;
    }
    ok
}

/// Resolve everything about a term that does not depend on the row. `None`
/// where the scalar cannot be compared against this column.
fn prepare(c: &Column, op: Op, v: &Value, floats: &Floats) -> (r: Option<Needle>)
    requires
        floats.wf(),
    ensures
        r is Some <==> comparable(*c, *v, *floats),
        r matches Some(n) ==> prepared(n, *c, op, *v, *floats),
{
    match &c.data {
        Data::Time(_) | Data::I64(_) | Data::I32(_) | Data::U64(_) | Data::U32(_) | Data::U16(_)
        | Data::U8(_) => match v.as_i64() {
            Some(y) => Some(Needle::Int(y)),
            None => None,
        },
        Data::Double(_) => match v.as_double(floats) {
            Some(y) => Some(Needle::Double(y)),
            None => None,
        },
        Data::Bool(_) => match v.as_bool() {
            Some(y) => Some(Needle::Bool(y)),
            None => None,
        },
        Data::Dict16(_, d) => match v.as_str() {
            Some(y) => Some(Needle::Codes(test_dictionary(d, op, y))),
            None => None,
        },
        Data::Text(_) => match v.as_str() {
            Some(y) => Some(Needle::Text(y.to_owned())),
            None => None,
        },
        Data::Fixed(_) => match v.as_str() {
            Some(y) => match unhex(y) {
                Some(b) => Some(Needle::Bytes(b)),
                None => None,
            },
            None => None,
        },
        _ => None,
    }
}

/// Whether row `i` of the column satisfies a prepared term.
fn test_cell(c: &Column, i: usize, op: Op, n: &Needle, Ghost(v): Ghost<Value>, Ghost(floats): Ghost<Floats>) -> (r:
    bool)
    requires
        c.wf(),
        i < c.spec_len(),
        prepared(*n, *c, op, v, floats),
    ensures
        r == cell_satisfies(*c, i as int, op, v, floats),
{
    if !c.is_valid(i) {
        return false;
    }
    match n {
        Needle::Int(y) => {
            let r = match &c.data {
                Data::Time(xs) => rank_i64(xs[i], *y),
                Data::I64(xs) => rank_i64(xs[i], *y),
                Data::I32(xs) => rank_i64(xs[i] as i64, *y),
                Data::U64(xs) => rank_mixed(xs[i], *y),
                Data::U32(xs) => rank_i64(xs[i] as i64, *y),
                Data::U16(xs) => rank_i64(xs[i] as i64, *y),
                Data::U8(xs) => rank_i64(xs[i] as i64, *y),
                _ => rank_i64(0, *y),
            };
            op.test_ord(r)
        },
        Needle::Double(y) => match &c.data {
            Data::Double(xs) => match compare_doubles(xs[i], *y) {
                Some(r) => op.test_ord(r),
                None => false,
            },
            _ => false,
        },
        Needle::Bool(y) => match &c.data {
            Data::Bool(xs) => op.test_ord(rank_bool(xs[i], *y)),
            _ => false,
        },
        Needle::Codes(ok) => match &c.data {
            Data::Dict16(k, _) => ok[k[i] as usize],
            _ => false,
        },
        Needle::Text(y) => match &c.data {
            Data::Text(xs) => test_text(xs[i].as_str(), op, y.as_str()),
            _ => false,
        },
        Needle::Bytes(y) => match &c.data {
            Data::Fixed(xs) => op.test_ord(compare_bytes(xs[i].as_slice(), y.as_slice())),
            _ => false,
        },
    }
}

/// Narrow `sel` to the rows of `c` satisfying `op v`.
///
/// `false` means the scalar cannot be compared against this column at all, and
/// leaves `sel` as it was.
pub fn field_filter(sel: &mut Vec<u32>, c: &Column, op: Op, v: &Value, floats: &Floats) -> (r: bool)
    requires
        c.wf(),
        !(c.data is Dict32),
        floats.wf(),
        forall|i: int| 0 <= i < old(sel)@.len() ==> (#[trigger] old(sel)@[i]) < c.spec_len(),
    ensures
        r == comparable(*c, *v, *floats),
        !r ==> final(sel)@ == old(sel)@,
        r ==> final(sel)@ == old(sel)@.filter(
            |i: u32| cell_satisfies(*c, i as int, op, *v, *floats),
        ),
{
    let needle = match prepare(c, op, v, floats) {
        Some(n) => n,
        None => {
            return false;
        },
    };
    let ghost keep = |i: u32| cell_satisfies(*c, i as int, op, *v, *floats);
    let mut out: Vec<u32> = Vec::new();
    let mut k: usize = 0;
    assert(sel@.take(0).filter(keep) =~= Seq::<u32>::empty()) by {
        reveal(Seq::filter);
    }
    while k < sel.len()
        invariant
            k <= sel@.len(),
            sel@ == old(sel)@,
            c.wf(),
            forall|i: int| 0 <= i < sel@.len() ==> (#[trigger] sel@[i]) < c.spec_len(),
            prepared(needle, *c, op, *v, *floats),
            keep == (|i: u32| cell_satisfies(*c, i as int, op, *v, *floats)),
            out@ == sel@.take(k as int).filter(keep),
        decreases sel@.len() - k,
    {
        let row: u32 = sel[k];
        let hit = test_cell(c, row as usize, op, &needle, Ghost(*v), Ghost(*floats));
        proof {
            reveal(Seq::filter);
            assert(sel@.take(k + 1).drop_last() =~= sel@.take(k as int));
            assert(sel@.take(k + 1).last() == row);
        }
        if hit {
            out.push(row);
        }
        k = k + 1;
    }
    assert(sel@.take(k as int) =~= sel@);
    *sel = out;
    true
}

} // verus!
