//! What a search asks of a block's sidecars before it opens the block, and what
//! rules the block out.

use crate::attrfilter::types_of;
use crate::attrindex::{doubles_upto, listed_upto};
use crate::attrs::{attr_row_is, attrs_table_of, AttrRow};
use crate::bloom::maybe;
use crate::filter::{canonical, unhexed};
use crate::float::Floats;
use crate::otlp::Val;
use crate::probe::{
    attr_asks, attrs_let_through, lets_through, needle_of, ranges_upto, ruled_out, term_needle,
    Sides,
};
use crate::query::{Op, Search, Target, Term, Value};
use crate::schema::AttrType;
use crate::table::Table;
use crate::text::{parse_signed, signed};
use vstd::prelude::*;

verus! {

/// A term that pins a trace down: `trace_id = "<32 hexadecimal digits>"`.
pub open spec fn pins(t: Term, id: Seq<u8>) -> bool {
    &&& t.target matches Target::Field(f)
    &&& f@ == "trace_id"@
    &&& t.op == Op::Eq
    &&& t.value matches Value::Str(s)
    &&& unhexed(s@) == Some(id)
    &&& id.len() == 16
}

/// The trace a search is for is the one that the first term to pin one down
/// pins down; where none does, it is for no one trace.
pub proof fn law_the_first_trace_is_asked_for(terms: Seq<Term>)
    ensures
        match needle_of(terms) {
            Some(id) => exists|k: int|
                0 <= k < terms.len() && #[trigger] pins(terms[k], id) && forall|j: int, other: Seq<u8>|
                    0 <= j < k ==> !#[trigger] pins(terms[j], other),
            None => forall|j: int, other: Seq<u8>|
                0 <= j < terms.len() ==> !#[trigger] pins(terms[j], other),
        },
    decreases terms.len(),
{
    if terms.len() > 0 {
        let rest = terms.skip(1);
        assert forall|other: Seq<u8>| pins(terms[0], other) implies term_needle(terms[0]) == Some(
            other,
        ) by {}
        match term_needle(terms[0]) {
            Some(id) => {
                assert(pins(terms[0], id));
            },
            None => {
                law_the_first_trace_is_asked_for(rest);
                assert forall|j: int, other: Seq<u8>| 1 <= j < terms.len() implies #[trigger] pins(
                    terms[j],
                    other,
                ) == pins(rest[j - 1], other) by {}
                if let Some(id) = needle_of(rest) {
                    let k = choose|k: int|
                        0 <= k < rest.len() && #[trigger] pins(rest[k], id) && forall|
                            j: int,
                            other: Seq<u8>,
                        |
                            0 <= j < k ==> !#[trigger] pins(rest[j], other);
                    assert(pins(terms[k + 1], id));
                    assert forall|j: int, other: Seq<u8>| 0 <= j < k + 1 implies !#[trigger] pins(
                        terms[j],
                        other,
                    ) by {
                        if j > 0 {
                            assert(!pins(rest[j - 1], other));
                        }
                    }
                }
            },
        }
    }
}

/// A term that an attribute filter can answer: an attribute equal to a scalar.
/// A quoted number counts only as numbers are written, because rows that hold
/// the number are listed under that spelling.
pub open spec fn asks_equal(t: Term) -> bool {
    &&& t.target is Attr
    &&& t.op == Op::Eq
    &&& t.value matches Value::Str(s) ==> (parse_signed(s@) matches Some(n) ==> s@ == signed(n))
}

/// What is asked of an attribute filter is one pair for each such term, in
/// their order: the key, and the scalar as attributes are listed.
pub proof fn law_equalities_are_asked_for(terms: Seq<Term>, n: nat, k: int, floats: Floats) -> (at: int)
    requires
        n <= terms.len(),
        0 <= k < n,
        asks_equal(terms[k]),
    ensures
        0 <= at < attr_asks(terms, n, floats).len(),
        terms[k].target matches Target::Attr(key) && attr_asks(terms, n, floats)[at].0 == key@,
        match terms[k].value {
            Value::Str(s) => attr_asks(terms, n, floats)[at].1 == s@,
            Value::Int(i) => attr_asks(terms, n, floats)[at].1 == signed(i as int),
            Value::Bool(b) => attr_asks(terms, n, floats)[at].1 == if b {
                "true"@
            } else {
                "false"@
            },
            Value::Double(d) => crate::float::whole_i64(d) matches Some(i) ==> attr_asks(
                terms,
                n,
                floats,
            )[at].1 == signed(i),
        },
        terms[k].value is Int || terms[k].value is Double ==> attr_asks(terms, n, floats)[at].2,
        terms[k].value is Bool ==> !attr_asks(terms, n, floats)[at].2,
    decreases n,
{
    if k == n - 1 {
        (attr_asks(terms, n, floats).len() - 1) as int
    } else {
        law_equalities_are_asked_for(terms, (n - 1) as nat, k, floats)
    }
}

/// An attribute filter is asked for nothing but what a term asks for.
pub proof fn law_nothing_else_is_asked_for(terms: Seq<Term>, n: nat, at: int, floats: Floats) -> (k: int)
    requires
        n <= terms.len(),
        0 <= at < attr_asks(terms, n, floats).len(),
    ensures
        0 <= k < n,
        asks_equal(terms[k]),
        terms[k].target matches Target::Attr(key) && attr_asks(terms, n, floats)[at].0 == key@,
        attr_asks(terms, n, floats)[at].1 == canonical(terms[k].value, floats),
    decreases n,
{
    let before = attr_asks(terms, (n - 1) as nat, floats);
    if at < before.len() {
        law_nothing_else_is_asked_for(terms, (n - 1) as nat, at, floats)
    } else {
        n - 1
    }
}

/// A term that a zone map can answer: a comparison with an unquoted number, but
/// for `!=`, which the ends of a range say nothing of.
pub open spec fn asks_range_of(t: Term) -> bool {
    &&& t.value is Int || t.value is Double
    &&& t.op == Op::Eq || t.op == Op::Lt || t.op == Op::Lte || t.op == Op::Gt || t.op == Op::Gte
}

proof fn lemma_ranges_ascend(terms: Seq<Term>, n: nat)
    ensures
        forall|i: int, j: int|
            0 <= i < j < ranges_upto(terms, n).len() ==> (#[trigger] ranges_upto(terms, n)[i])
                < (#[trigger] ranges_upto(terms, n)[j]),
        forall|i: int|
            0 <= i < ranges_upto(terms, n).len() ==> (#[trigger] ranges_upto(terms, n)[i]) < n,
    decreases n,
{
    if n > 0 {
        lemma_ranges_ascend(terms, (n - 1) as nat);
        let before = ranges_upto(terms, (n - 1) as nat);
        let now = ranges_upto(terms, n);
        assert(now == before || now == before.push(n - 1));
        assert forall|i: int| 0 <= i < now.len() implies (#[trigger] now[i]) < n by {
            if i < before.len() {
                assert(now[i] == before[i]);
            }
        }
        assert forall|i: int, j: int| 0 <= i < j < now.len() implies (#[trigger] now[i]) < (
        #[trigger] now[j]) by {
            assert(now[i] == before[i]);
            if j < before.len() {
                assert(now[j] == before[j]);
            }
        }
    }
}

/// What is asked of a zone map are exactly such terms, each once, in their
/// order.
pub proof fn law_comparisons_are_asked_for(terms: Seq<Term>, n: nat, k: int, i: int, j: int)
    requires
        n <= terms.len(),
    ensures
        ranges_upto(terms, n).contains(k) <==> 0 <= k < n && asks_range_of(terms[k]),
        0 <= i < j < ranges_upto(terms, n).len() ==> ranges_upto(terms, n)[i] < ranges_upto(
            terms,
            n,
        )[j],
    decreases n,
{
    lemma_ranges_ascend(terms, n);
    if n > 0 {
        law_comparisons_are_asked_for(terms, (n - 1) as nat, k, i, j);
        let before = ranges_upto(terms, (n - 1) as nat);
        let now = ranges_upto(terms, n);
        if before.contains(k) {
            assert(now[before.index_of(k)] == k);
        }
        if asks_range_of(terms[n - 1]) {
            assert(now[now.len() - 1] == n - 1);
        }
        if now.contains(k) && k != n - 1 {
            let at = now.index_of(k);
            assert(before[at] == k);
        }
    }
}

/// A block is ruled out exactly where one of its sidecars says no: its trace
/// filter to the trace asked for, its attribute filter to a pair, unless the
/// scalar is a number and the block holds doubles, or its zone map to a range.
/// A sidecar that is not there rules nothing out.
pub proof fn law_a_block_is_ruled_out_by_a_no(q: Search, s: Sides, floats: Floats)
    ensures
        ruled_out(q, s, floats) <==> {
            ||| says_no_trace(q, s)
            ||| says_no_pair(q, s, floats)
            ||| says_no_range(q, s)
        },
{
    let asks = attr_asks(q.terms@, q.terms@.len(), floats);
    if let Some((answers, doubles)) = s.attrs {
        assert forall|i: int| 0 <= i < asks.len() && i < answers@.len() implies refuses(
            #[trigger] asks[i],
            answers@[i],
            doubles,
        ) == !lets_through(asks[i], answers@[i], doubles) by {}
        if !attrs_let_through(asks, answers@, doubles) {
            let i = choose|i: int|
                0 <= i < asks.len() && i < answers@.len() && !lets_through(
                    #[trigger] asks[i],
                    answers@[i],
                    doubles,
                );
            assert(refuses(asks[i], answers@[i], doubles));
        }
    }
}

/// An answer to a pair that is a no: it is not listed, and it is not a number
/// that may be among the doubles.
pub open spec fn refuses(ask: (Seq<char>, Seq<char>, bool), listed: bool, doubles: bool) -> bool {
    !listed && !(ask.2 && doubles)
}

/// The trace filter is there, and says no to the trace asked for.
pub open spec fn says_no_trace(q: Search, s: Sides) -> bool {
    &&& s.trace matches Some(file)
    &&& needle_of(q.terms@) matches Some(id)
    &&& !maybe(file@, id)
}

/// The attribute filter is there, and says no to one of the pairs.
pub open spec fn says_no_pair(q: Search, s: Sides, floats: Floats) -> bool {
    let asks = attr_asks(q.terms@, q.terms@.len(), floats);
    &&& s.attrs matches Some((answers, doubles))
    &&& exists|i: int|
        0 <= i < asks.len() && i < answers@.len() && refuses(
            #[trigger] asks[i],
            answers@[i],
            doubles,
        )
}

/// The zone map is there, and says no to one of the ranges.
pub open spec fn says_no_range(q: Search, s: Sides) -> bool {
    &&& s.ranges matches Some(answers)
    &&& exists|i: int|
        0 <= i < ranges_upto(q.terms@, q.terms@.len()).len() && i < answers@.len()
            && !#[trigger] answers@[i]
}

/// An attribute is listed under its key and this text: a text as it is, an
/// integer in decimal, a truth value by its name. Nothing else is listed.
pub open spec fn is_listed_as(v: Val, text: Seq<char>) -> bool {
    match v {
        Val::Str(s) => text == s,
        Val::Int(i) => text == signed(i as int),
        Val::Bool(b) => text == if b {
            "true"@
        } else {
            "false"@
        },
        _ => false,
    }
}

/// What an attribute filter is built over are the attributes there are, each
/// under its key and its text, and no others; and it says that there are doubles
/// exactly if there are.
pub proof fn law_what_is_there_is_listed(
    t: Table,
    rows: Seq<AttrRow>,
    n: nat,
    key: Seq<char>,
    text: Seq<char>,
)
    requires
        attrs_table_of(t, rows),
        n <= rows.len(),
    ensures
        listed_upto(t, n).contains((key, text)) <==> exists|i: int|
            0 <= i < n && (#[trigger] rows[i]).key == key && is_listed_as(rows[i].value, text),
        doubles_upto(t, n) <==> exists|i: int| 0 <= i < n && (#[trigger] rows[i]).value is Double,
    decreases n,
{
    if n > 0 {
        law_what_is_there_is_listed(t, rows, (n - 1) as nat, key, text);
        let before = listed_upto(t, (n - 1) as nat);
        let now = listed_upto(t, n);
        let pair = (key, text);
        let r = rows[n - 1];
        assert(attr_row_is(t, n - 1, r));
        if before.contains(pair) {
            assert(now[before.index_of(pair)] == pair);
        }
        if r.key == key && is_listed_as(r.value, text) {
            assert(now[now.len() - 1] == pair);
        }
        if now.contains(pair) && !before.contains(pair) {
            let k = now.index_of(pair);
            if k < before.len() {
                assert(before[k] == pair);
            }
            assert(r.key == key && is_listed_as(r.value, text));
        }
    }
    lemma_doubles(t, rows, n);
}

proof fn lemma_doubles(t: Table, rows: Seq<AttrRow>, n: nat)
    requires
        attrs_table_of(t, rows),
        n <= rows.len(),
    ensures
        doubles_upto(t, n) <==> exists|i: int| 0 <= i < n && (#[trigger] rows[i]).value is Double,
{
    if doubles_upto(t, n) {
        let i = choose|i: int| 0 <= i < n && #[trigger] types_of(t)[i] == AttrType::Double.number();
        assert(attr_row_is(t, i, rows[i]));
        assert(rows[i].value is Double);
    }
    if exists|i: int| 0 <= i < n && (#[trigger] rows[i]).value is Double {
        let i = choose|i: int| 0 <= i < n && (#[trigger] rows[i]).value is Double;
        assert(attr_row_is(t, i, rows[i]));
        assert(types_of(t)[i] == AttrType::Double.number());
    }
}

} // verus!
