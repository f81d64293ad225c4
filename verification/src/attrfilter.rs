//! Which rows of an attribute table a term keeps.
//!
//! Every attribute table has the same nine columns: the parent's number, the
//! key, the type, and six value columns of which the type names one.

use crate::filter::{canon, canonical};
use crate::float::{compare_doubles, rank_double, Floats};
use crate::order::{
    compare_text, contains_text, occurs, rank_bool, rank_bytes, rank_i64, rank_of, same_text, utf8,
};
use crate::query::{Op, Value};
use crate::schema::AttrType;
use crate::table::{Data, Table};
use vstd::prelude::*;

verus! {

/// The parent each row belongs to.
pub open spec fn parents_of(a: Table) -> Seq<u32> {
    match a.fields@[0].column.data {
        Data::U32(v) => v@,
        _ => Seq::empty(),
    }
}

/// The dictionary position of each row's key.
pub open spec fn codes_of(a: Table) -> Seq<u16> {
    match a.fields@[1].column.data {
        Data::Dict16(k, _) => k@,
        _ => Seq::empty(),
    }
}

/// The dictionary of keys.
pub open spec fn names_of(a: Table) -> Seq<String> {
    match a.fields@[1].column.data {
        Data::Dict16(_, d) => d@,
        _ => Seq::empty(),
    }
}

/// The type of each row's value.
pub open spec fn types_of(a: Table) -> Seq<u8> {
    match a.fields@[2].column.data {
        Data::U8(v) => v@,
        _ => Seq::empty(),
    }
}

/// A table with the first three columns of an attribute table, every key in
/// the dictionary, and room for the value columns.
pub open spec fn attrs_shaped(a: Table) -> bool {
    &&& a.wf()
    &&& a.fields@.len() >= 9
    &&& a.fields@[0].column.data is U32
    &&& a.fields@[1].column.data is Dict16
    &&& a.fields@[2].column.data is U8
    &&& parents_of(a).len() == a.rows
    &&& codes_of(a).len() == a.rows
    &&& types_of(a).len() == a.rows
    &&& forall|i: int| 0 <= i < a.rows ==> (#[trigger] codes_of(a)[i]) < names_of(a).len()
}

/// The key of one row.
pub open spec fn key_at(a: Table, row: int) -> Seq<char> {
    names_of(a)[codes_of(a)[row] as int]@
}

/// Where a text first stands in a dictionary.
pub open spec fn first_at(values: Seq<String>, needle: Seq<char>) -> Option<nat>
    decreases values.len(),
{
    if values.len() == 0 {
        None
    } else if values[0]@ == needle {
        Some(0)
    } else {
        match first_at(values.skip(1), needle) {
            Some(i) => Some(i + 1),
            None => None,
        }
    }
}

/// Whether a stored text satisfies `op v`.
///
/// Equality is equality with the scalar's canonical text. Ordering is numeric
/// where the scalar is a number and the stored text reads as one, and by text
/// otherwise.
pub open spec fn stored_text_satisfies(s: Seq<char>, op: Op, v: Value, floats: Floats) -> bool {
    let text = canonical(v, floats);
    if op == Op::Contains {
        occurs(utf8(s), utf8(text))
    } else if op == Op::Eq || op == Op::Ne || v is Str || floats.reading_of(s) is None
        || v.double_of(floats) is None {
        op.accepts(rank_bytes(utf8(s), utf8(text)))
    } else {
        match rank_double(floats.reading_of(s).unwrap(), v.double_of(floats).unwrap()) {
            Some(r) => op.accepts(r),
            None => false,
        }
    }
}

/// Whether the value of one row satisfies `op v`. The stored type decides how
/// the two are compared; a column that is not of the type's kind matches
/// nothing.
pub open spec fn attr_satisfies(a: Table, row: int, op: Op, v: Value, floats: Floats) -> bool {
    let ty = types_of(a)[row];
    if ty == AttrType::Str.number() {
        a.fields@[3].column.data matches Data::Dict32(k, d) && (k@[row] as int) < d@.len()
            && stored_text_satisfies(d@[k@[row] as int]@, op, v, floats)
    } else if ty == AttrType::Int.number() {
        a.fields@[4].column.data matches Data::I64(xs) && v.i64_of() matches Some(y) && op.accepts(
            rank_of(xs@[row] as int, y),
        )
    } else if ty == AttrType::Double.number() {
        a.fields@[5].column.data matches Data::Double(xs) && v.double_of(floats) matches Some(y)
            && rank_double(xs@[row], y) matches Some(r) && op.accepts(r)
    } else if ty == AttrType::Bool.number() {
        a.fields@[6].column.data matches Data::Bool(xs) && v.bool_of() matches Some(y)
            && op.accepts(
            rank_of(
                if xs@[row] {
                    1
                } else {
                    0
                },
                if y {
                    1
                } else {
                    0
                },
            ),
        )
    } else {
        false
    }
}

/// Whether one row carries `key op v`.
pub open spec fn carries(a: Table, row: int, key: Seq<char>, op: Op, v: Value, floats: Floats) -> bool {
    first_at(names_of(a), key) == Some(codes_of(a)[row] as nat) && attr_satisfies(
        a,
        row,
        op,
        v,
        floats,
    )
}

/// The parents of the first `n` rows that carry `key op v`, in row order.
pub open spec fn parents_carrying(
    a: Table,
    n: nat,
    key: Seq<char>,
    op: Op,
    v: Value,
    floats: Floats,
) -> Seq<u32>
    decreases n,
{
    if n == 0 {
        Seq::empty()
    } else {
        let before = parents_carrying(a, (n - 1) as nat, key, op, v, floats);
        if carries(a, n - 1, key, op, v, floats) {
            before.push(parents_of(a)[n - 1])
        } else {
            before
        }
    }
}

/// Where a text first stands in a dictionary.
pub fn dict_index(values: &Vec<String>, needle: &str) -> (r: Option<usize>)
    ensures
        r is Some <==> first_at(values@, needle@) is Some,
        r matches Some(i) ==> first_at(values@, needle@) == Some(i as nat) && i < values@.len(),
{
    let mut i: usize = 0;
    assert(values@.skip(0) =~= values@);
    while i < values.len()
        invariant
            i <= values@.len(),
            first_at(values@, needle@) == match first_at(values@.skip(i as int), needle@) {
                Some(k) => Some(i as nat + k),
                None => None,
            },
        decreases values@.len() - i,
    {
        assert(values@.skip(i as int)[0] == values@[i as int]);
        assert(values@.skip(i as int).skip(1) =~= values@.skip(i + 1));
        if same_text(values[i].as_str(), needle) {
            return Some(i);
        }
        i = i + 1;
    }
    None
}

/// One attribute term with everything that does not depend on the row resolved
/// once: the scalar coerced to each type it can be compared as, and the text
/// predicate already evaluated against the dictionary.
pub(crate) struct AttrPred {
    op: Op,
    strs: Option<Vec<bool>>,
    ints: Option<i64>,
    doubles: Option<u64>,
    bools: Option<bool>,
}

fn test_stored_text(s: &str, op: Op, v: &Value, text: &str, number: Option<u64>, floats: &Floats) -> (r:
    bool)
    requires
        floats.wf(),
        text@ == canonical(*v, *floats),
        number == v.double_of(*floats),
    ensures
        r == stored_text_satisfies(s@, op, *v, *floats),
{
    if op == Op::Contains {
        return contains_text(s, text);
    }
    let quoted = match v {
        Value::Str(_) => true,
        _ => false,
    };
    if op != Op::Eq && op != Op::Ne && !quoted {
        if let Some(y) = number {
            if let Some(x) = floats.reading(s) {
                return match compare_doubles(x, y) {
                    Some(r) => op.test_ord(r),
                    None => false,
                };
            }
        }
    }
    op.test_ord(compare_text(s, text))
}

impl AttrPred {
    /// The predicate answers for this table and this term.
    pub closed spec fn stands_for(&self, a: Table, op: Op, v: Value, floats: Floats) -> bool {
        &&& self.op == op
        &&& match a.fields@[3].column.data {
            Data::Dict32(_, d) => self.strs matches Some(ok) && ok@.len() == d@.len() && forall|
                i: int,
            |
                0 <= i < d@.len() ==> #[trigger] ok@[i] == stored_text_satisfies(
                    d@[i]@,
                    op,
                    v,
                    floats,
                ),
            _ => self.strs is None,
        }
        &&& self.ints is Some <==> v.i64_of() is Some
        &&& self.ints matches Some(y) ==> v.i64_of() == Some(y as int)
        &&& self.doubles == v.double_of(floats)
        &&& self.bools == v.bool_of()
    }

    pub fn new(a: &Table, op: Op, v: &Value, floats: &Floats) -> (p: AttrPred)
        requires
            attrs_shaped(*a),
            floats.wf(),
        ensures
            p.stands_for(*a, op, *v, *floats),
    {
        let text = canon(v, floats);
        let number = v.as_double(floats);
        let strs: Option<Vec<bool>> = match &a.fields[3].column.data {
            Data::Dict32(_, d) => {
                let mut ok: Vec<bool> = Vec::new();
                let mut i: usize = 0;
                while i < d.len()
                    invariant
                        i <= d@.len(),
                        ok@.len() == i,
                        floats.wf(),
                        text@ == canonical(*v, *floats),
                        number == v.double_of(*floats),
                        forall|k: int|
                            0 <= k < i ==> #[trigger] ok@[k] == stored_text_satisfies(
                                d@[k]@,
                                op,
                                *v,
                                *floats,
                            ),
                    decreases d@.len() - i,
                {
                    ok.push(test_stored_text(d[i].as_str(), op, v, text.as_str(), number, floats));
                    i = i + 1;
                }
                Some(ok)
            },
            _ => None,
        };
        AttrPred { op, strs, ints: v.as_i64(), doubles: number, bools: v.as_bool() }
    }

    /// Compare one attribute row against the query scalar, dispatching on the
    /// stored `type` rather than on the query's: the column decides what it is.
    pub fn test(
        &self,
        a: &Table,
        row: usize,
        Ghost(op): Ghost<Op>,
        Ghost(v): Ghost<Value>,
        Ghost(floats): Ghost<Floats>,
    ) -> (r: bool)
        requires
            attrs_shaped(*a),
            row < a.rows,
            self.stands_for(*a, op, v, floats),
        ensures
            r == attr_satisfies(*a, row as int, op, v, floats),
    {
        let ty: u8 = match &a.fields[2].column.data {
            Data::U8(t) => t[row],
            _ => 0,
        };
        assert(forall|i: int|
            0 <= i < a.fields@.len() ==> (#[trigger] a.fields@[i]).column.spec_len() == a.rows);
        if ty == AttrType::Str.code() {
            match (&a.fields[3].column.data, &self.strs) {
                (Data::Dict32(k, _), Some(ok)) => {
                    let c: usize = k[row] as usize;
                    c < ok.len() && ok[c]
                },
                _ => false,
            }
        } else if ty == AttrType::Int.code() {
            match (&a.fields[4].column.data, self.ints) {
                (Data::I64(xs), Some(y)) => self.op.test_ord(rank_i64(xs[row], y)),
                _ => false,
            }
        } else if ty == AttrType::Double.code() {
            match (&a.fields[5].column.data, self.doubles) {
                (Data::Double(xs), Some(y)) => match compare_doubles(xs[row], y) {
                    Some(r) => self.op.test_ord(r),
                    None => false,
                },
                _ => false,
            }
        } else if ty == AttrType::Bool.code() {
            match (&a.fields[6].column.data, self.bools) {
                (Data::Bool(xs), Some(y)) => self.op.test_ord(rank_bool(xs[row], y)),
                _ => false,
            }
        } else {
            false
        }
    }
}

/// `parent_id`s of the attribute rows whose key matches and whose value
/// satisfies `op value`.
pub fn attr_parents(a: &Table, key: &str, op: Op, v: &Value, floats: &Floats) -> (r: Vec<u32>)
    requires
        attrs_shaped(*a),
        floats.wf(),
    ensures
        r@ == parents_carrying(*a, a.rows as nat, key@, op, *v, *floats),
{
    let mut out: Vec<u32> = Vec::new();
    if let (Data::U32(parents), Data::Dict16(codes, names)) = (
        &a.fields[0].column.data,
        &a.fields[1].column.data,
    ) {
        let code: usize = match dict_index(names, key) {
            Some(i) => i,
            None => {
                proof {
                    lemma_no_key(*a, a.rows as nat, key@, op, *v, *floats);
                }
                return out;
            },
        };
        let pred = AttrPred::new(a, op, v, floats);
        let mut i: usize = 0;
        while i < a.rows
            invariant
                i <= a.rows,
                attrs_shaped(*a),
                parents@ == parents_of(*a),
                codes@ == codes_of(*a),
                first_at(names_of(*a), key@) == Some(code as nat),
                pred.stands_for(*a, op, *v, *floats),
                out@ == parents_carrying(*a, i as nat, key@, op, *v, *floats),
            decreases a.rows - i,
        {
            if codes[i] as usize == code && pred.test(a, i, Ghost(op), Ghost(*v), Ghost(*floats)) {
                out.push(parents[i]);
            }
            i = i + 1;
        }
    }
    out
}

proof fn lemma_no_key(a: Table, n: nat, key: Seq<char>, op: Op, v: Value, floats: Floats)
    requires
        first_at(names_of(a), key) is None,
    ensures
        parents_carrying(a, n, key, op, v, floats) == Seq::<u32>::empty(),
    decreases n,
{
    if n > 0 {
        lemma_no_key(a, (n - 1) as nat, key, op, v, floats);
    }
}

/// The key of one row.
pub fn attr_key(a: &Table, row: usize) -> (r: &str)
    requires
        attrs_shaped(*a),
        row < a.rows,
    ensures
        r@ == key_at(*a, row as int),
{
    match &a.fields[1].column.data {
        Data::Dict16(codes, names) => {
            assert(codes_of(*a)[row as int] < names_of(*a).len());
            names[codes[row] as usize].as_str()
        },
        _ => "",
    }
}

/// Decide [`attrs_shaped`].
pub fn check_attrs(a: &Table) -> (r: bool)
    ensures
        r == attrs_shaped(*a),
{
    if !a.check() || a.fields.len() < 9 {
        return false;
    }
    match (&a.fields[0].column.data, &a.fields[1].column.data, &a.fields[2].column.data) {
        (Data::U32(_), Data::Dict16(codes, names), Data::U8(_)) => {
            assert(forall|i: int|
                0 <= i < a.fields@.len() ==> (#[trigger] a.fields@[i]).column.spec_len() == a.rows);
            let mut i: usize = 0;
            while i < a.rows
                invariant
                    i <= a.rows,
                    codes@ == codes_of(*a),
                    names@ == names_of(*a),
                    codes@.len() == a.rows,
                    forall|k: int| 0 <= k < i ==> (#[trigger] codes_of(*a)[k]) < names_of(*a).len(),
                decreases a.rows - i,
            {
                if codes[i] as usize >= names.len() {
                    assert(!(codes_of(*a)[i as int] < names_of(*a).len()));
                    return false;
                }
                i = i + 1;
            }
            true
        },
        _ => false,
    }
}

} // verus!
