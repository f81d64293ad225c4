//! What a search asks of a block before it opens it.
//!
//! Three sidecars can answer: the trace filter, the attribute filter and the
//! zone map. Terms are AND-ed, so any single one a block cannot satisfy rules
//! the whole block out, and every missing or unreadable sidecar reads as "scan
//! me".

use crate::bloom::{may_contain, maybe};
use crate::filter::{canon, canonical, unhex, unhexed};
use crate::float::Floats;
use crate::order::same_text;
use crate::query::{Op, Search, Target, Term, Value};
use crate::text::{parse_signed, signed, signed_string};
use vstd::prelude::*;

verus! {

/// The trace id one term pins down: `trace_id = <32 hex digits>`.
pub open spec fn term_needle(t: Term) -> Option<Seq<u8>> {
    match t.target {
        Target::Field(f) => if f@ == "trace_id"@ && t.op == Op::Eq {
            match t.value.str_of() {
                Some(s) => match unhexed(s) {
                    Some(id) => if id.len() == 16 {
                        Some(id)
                    } else {
                        None
                    },
                    None => None,
                },
                None => None,
            }
        } else {
            None
        },
        Target::Attr(_) => None,
    }
}

/// The trace id that the first term to pin one down pins down.
pub open spec fn needle_of(terms: Seq<Term>) -> Option<Seq<u8>>
    decreases terms.len(),
{
    if terms.len() == 0 {
        None
    } else if term_needle(terms[0]) is Some {
        term_needle(terms[0])
    } else {
        needle_of(terms.skip(1))
    }
}

pub(crate) fn sixteen(v: &[u8]) -> (a: [u8; 16])
    requires
        v@.len() == 16,
    ensures
        a@ == v@,
{
    let a: [u8; 16] = [
        v[0],
        v[1],
        v[2],
        v[3],
        v[4],
        v[5],
        v[6],
        v[7],
        v[8],
        v[9],
        v[10],
        v[11],
        v[12],
        v[13],
        v[14],
        v[15],
    ];
    assert(a@ =~= v@);
    a
}

fn needle_of_term(t: &Term) -> (r: Option<[u8; 16]>)
    ensures
        r is Some <==> term_needle(*t) is Some,
        r matches Some(id) ==> term_needle(*t) == Some(id@),
{
    match &t.target {
        Target::Field(f) => {
            if !same_text(f.as_str(), "trace_id") || t.op != Op::Eq {
                return None;
            }
            match t.value.as_str() {
                Some(s) => match unhex(s) {
                    Some(v) => if v.len() == 16 {
                        Some(sixteen(v.as_slice()))
                    } else {
                        None
                    },
                    None => None,
                },
                None => None,
            }
        },
        Target::Attr(_) => None,
    }
}

/// The trace id this search pins down exactly, if it pins one down. One such
/// term is enough no matter what else is in the list: a block that cannot hold
/// the id cannot hold a row satisfying the conjunction.
pub fn trace_needle(q: &Search) -> (r: Option<[u8; 16]>)
    ensures
        r is Some <==> needle_of(q.terms@) is Some,
        r matches Some(id) ==> needle_of(q.terms@) == Some(id@),
{
    let mut i: usize = 0;
    let ghost terms = q.terms@;
    assert(terms.skip(0) =~= terms);
    while i < q.terms.len()
        invariant
            i <= terms.len(),
            terms == q.terms@,
            needle_of(terms) == needle_of(terms.skip(i as int)),
        decreases terms.len() - i,
    {
        assert(terms.skip(i as int)[0] == terms[i as int]);
        assert(terms.skip(i as int).skip(1) =~= terms.skip(i + 1));
        let found = needle_of_term(&q.terms[i]);
        if found.is_some() {
            return found;
        }
        i = i + 1;
    }
    None
}

/// An attribute equality in the form a block filter answers.
///
/// `numeric` records that the scalar can be read as a number. Doubles are not
/// in the index, so a block that holds any must be scanned for a numeric query
/// even when the text probe misses.
pub struct AttrProbe<'q> {
    pub key: &'q String,
    pub text: String,
    pub numeric: bool,
}

/// Whether a scalar that reads as an integer is spelled as integers are
/// written. A quoted `007` reads as seven, and a block lists its sevens as `7`.
pub open spec fn is_spelled_out(v: Value) -> bool {
    v matches Value::Str(s) ==> (parse_signed(s@) matches Some(y) ==> s@ == signed(y))
}

fn spelled_out(v: &Value) -> (r: bool)
    ensures
        r == is_spelled_out(*v),
{
    match v {
        Value::Str(s) => match v.as_i64() {
            Some(y) => {
                let text = signed_string(y);
                same_text(s.as_str(), text.as_str())
            },
            None => true,
        },
        _ => true,
    }
}

/// What a term asks of the attribute filter: a key, a text, and whether the
/// scalar is a number. It asks nothing where a row may satisfy the term under
/// another spelling.
pub open spec fn attr_ask(t: Term, floats: Floats) -> Option<(Seq<char>, Seq<char>, bool)> {
    match t.target {
        Target::Attr(key) => if t.op == Op::Eq && is_spelled_out(t.value) {
            Some((key@, canonical(t.value, floats), t.value.double_of(floats) is Some))
        } else {
            None
        },
        Target::Field(_) => None,
    }
}

/// What the first `n` terms ask of the attribute filter.
pub open spec fn attr_asks(terms: Seq<Term>, n: nat, floats: Floats) -> Seq<
    (Seq<char>, Seq<char>, bool),
>
    decreases n,
{
    if n == 0 {
        Seq::empty()
    } else {
        let before = attr_asks(terms, (n - 1) as nat, floats);
        match attr_ask(terms[n - 1], floats) {
            Some(a) => before.push(a),
            None => before,
        }
    }
}

impl<'q> AttrProbe<'q> {
    pub open spec fn ask(&self) -> (Seq<char>, Seq<char>, bool) {
        (self.key@, self.text@, self.numeric)
    }

    /// The block's own answer to "could a row here satisfy this term?", given
    /// whether its filter may hold the pair and whether it holds doubles.
    pub fn maybe(&self, in_filter: bool, has_double: bool) -> (r: bool)
        ensures
            r == (in_filter || (self.numeric && has_double)),
    {
        in_filter || (self.numeric && has_double)
    }
}

/// The attribute equalities in a search, in the form a block filter answers.
pub fn attr_probes<'q>(q: &'q Search, floats: &Floats) -> (r: Vec<AttrProbe<'q>>)
    requires
        floats.wf(),
    ensures
        r@.map_values(|p: AttrProbe<'q>| p.ask()) == attr_asks(q.terms@, q.terms@.len(), *floats),
{
    let mut out: Vec<AttrProbe<'q>> = Vec::new();
    let mut i: usize = 0;
    assert(out@.map_values(|p: AttrProbe<'q>| p.ask()) =~= attr_asks(q.terms@, 0, *floats));
    while i < q.terms.len()
        invariant
            i <= q.terms@.len(),
            floats.wf(),
            out@.map_values(|p: AttrProbe<'q>| p.ask()) == attr_asks(q.terms@, i as nat, *floats),
        decreases q.terms@.len() - i,
    {
        let t = &q.terms[i];
        let ghost before = attr_asks(q.terms@, i as nat, *floats);
        if let Target::Attr(key) = &t.target {
            if t.op == Op::Eq && spelled_out(&t.value) {
                let p = AttrProbe {
                    key,
                    text: canon(&t.value, floats),
                    numeric: t.value.as_double(floats).is_some(),
                };
                out.push(p);
                assert(out@.map_values(|p: AttrProbe<'q>| p.ask()) =~= before.push(p.ask()));
            }
        }
        assert(out@.map_values(|p: AttrProbe<'q>| p.ask()) == attr_asks(
            q.terms@,
            (i + 1) as nat,
            *floats,
        ));
        i = i + 1;
    }
    out
}

/// A comparison in the form a zone map answers: the same two readings of the
/// scalar that a row would be compared against.
pub struct RangeProbe<'q> {
    pub target: &'q Target,
    pub op: Op,
    pub int: Option<i64>,
    pub double: Option<u64>,
}

/// Whether a zone map can answer a term. Only an unquoted number qualifies: a
/// quoted one is a text comparison on some rows and a numeric one on others.
pub open spec fn has_range(t: Term) -> bool {
    t.op != Op::Ne && t.op != Op::Contains && (t.value is Int || t.value is Double)
}

/// What a term asks of a zone map.
pub open spec fn asks_range(p: RangeProbe, t: Term, floats: Floats) -> bool {
    &&& *p.target == t.target
    &&& p.op == t.op
    &&& p.int is Some <==> t.value.i64_of() is Some
    &&& p.int matches Some(i) ==> t.value.i64_of() == Some(i as int)
    &&& p.double == t.value.double_of(floats)
}

/// The positions among the first `n` terms that a zone map can answer.
pub open spec fn ranges_upto(terms: Seq<Term>, n: nat) -> Seq<int>
    decreases n,
{
    if n == 0 {
        Seq::empty()
    } else if has_range(terms[n - 1]) {
        ranges_upto(terms, (n - 1) as nat).push(n - 1)
    } else {
        ranges_upto(terms, (n - 1) as nat)
    }
}

/// The comparisons in a search that a zone map can answer.
pub fn range_probes<'q>(q: &'q Search, floats: &Floats) -> (r: Vec<RangeProbe<'q>>)
    requires
        floats.wf(),
    ensures
        r@.len() == ranges_upto(q.terms@, q.terms@.len()).len(),
        forall|k: int|
            0 <= k < r@.len() ==> asks_range(
                #[trigger] r@[k],
                q.terms@[ranges_upto(q.terms@, q.terms@.len())[k]],
                *floats,
            ),
{
    let mut out: Vec<RangeProbe<'q>> = Vec::new();
    let mut i: usize = 0;
    while i < q.terms.len()
        invariant
            i <= q.terms@.len(),
            floats.wf(),
            out@.len() == ranges_upto(q.terms@, i as nat).len(),
            forall|k: int|
                0 <= k < out@.len() ==> asks_range(
                    #[trigger] out@[k],
                    q.terms@[ranges_upto(q.terms@, i as nat)[k]],
                    *floats,
                ),
        decreases q.terms@.len() - i,
    {
        let t = &q.terms[i];
        let number = match &t.value {
            Value::Int(_) => true,
            Value::Double(_) => true,
            _ => false,
        };
        if t.op != Op::Ne && t.op != Op::Contains && number {
            out.push(
                RangeProbe {
                    target: &t.target,
                    op: t.op,
                    int: t.value.as_i64(),
                    double: t.value.as_double(floats),
                },
            );
        }
        i = i + 1;
    }
    out
}

/// What the sidecars of a block say: the bytes of its trace filter; whether its
/// attribute filter may hold each probe's pair, and whether it holds doubles;
/// and whether its zone map lets each range through. `None` where a sidecar is
/// missing or unreadable.
pub struct Sides {
    pub trace: Option<Vec<u8>>,
    pub attrs: Option<(Vec<bool>, bool)>,
    pub ranges: Option<Vec<bool>>,
}

/// Whether a probe may be satisfied: its pair may be there, or it is a number
/// and there are doubles.
pub open spec fn lets_through(
    ask: (Seq<char>, Seq<char>, bool),
    answer: bool,
    has_double: bool,
) -> bool {
    answer || (ask.2 && has_double)
}

/// Whether all the attribute probes may be satisfied.
pub open spec fn attrs_let_through(
    asks: Seq<(Seq<char>, Seq<char>, bool)>,
    answers: Seq<bool>,
    has_double: bool,
) -> bool {
    forall|i: int|
        0 <= i < asks.len() && i < answers.len() ==> lets_through(
            #[trigger] asks[i],
            answers[i],
            has_double,
        )
}

/// Whether the sidecars rule a block out.
pub open spec fn ruled_out(q: Search, s: Sides, floats: Floats) -> bool {
    let asks = attr_asks(q.terms@, q.terms@.len(), floats);
    ||| (needle_of(q.terms@) matches Some(id) && s.trace matches Some(f) && !maybe(f@, id))
    ||| (s.attrs matches Some((answers, has_double)) && !attrs_let_through(
        asks,
        answers@,
        has_double,
    ))
    ||| (s.ranges matches Some(answers) && exists|i: int|
        0 <= i < ranges_upto(q.terms@, q.terms@.len()).len() && i < answers@.len()
            && !#[trigger] answers@[i])
}

/// Everything the per-block half of a search asks before a block is opened,
/// prepared once.
pub struct Prepared<'q> {
    pub q: &'q Search,
    pub needle: Option<[u8; 16]>,
    pub probes: Vec<AttrProbe<'q>>,
    pub ranges: Vec<RangeProbe<'q>>,
}

impl<'q> Prepared<'q> {
    pub open spec fn wf(&self, floats: Floats) -> bool {
        let terms = self.q.terms@;
        &&& self.needle is Some <==> needle_of(terms) is Some
        &&& self.needle matches Some(id) ==> needle_of(terms) == Some(id@)
        &&& self.probes@.map_values(|p: AttrProbe<'q>| p.ask()) == attr_asks(
            terms,
            terms.len(),
            floats,
        )
        &&& self.ranges@.len() == ranges_upto(terms, terms.len()).len()
        &&& forall|k: int|
            0 <= k < self.ranges@.len() ==> asks_range(
                #[trigger] self.ranges@[k],
                terms[ranges_upto(terms, terms.len())[k]],
                floats,
            )
    }

    pub fn new(q: &'q Search, floats: &Floats) -> (r: Prepared<'q>)
        requires
            floats.wf(),
        ensures
            r.wf(*floats),
            r.q == q,
    {
        Prepared {
            q,
            needle: trace_needle(q),
            probes: attr_probes(q, floats),
            ranges: range_probes(q, floats),
        }
    }

    fn attrs_pass(&self, answers: &Vec<bool>, has_double: bool) -> (r: bool)
        ensures
            r == attrs_let_through(
                self.probes@.map_values(|p: AttrProbe<'q>| p.ask()),
                answers@,
                has_double,
            ),
    {
        let ghost asks = self.probes@.map_values(|p: AttrProbe<'q>| p.ask());
        let mut i: usize = 0;
        while i < self.probes.len() && i < answers.len()
            invariant
                i <= self.probes@.len(),
                i <= answers@.len(),
                asks == self.probes@.map_values(|p: AttrProbe<'q>| p.ask()),
                forall|k: int|
                    0 <= k < i ==> lets_through(#[trigger] asks[k], answers@[k], has_double),
            decreases self.probes@.len() - i,
        {
            assert(asks[i as int] == self.probes@[i as int].ask());
            let ok = self.probes[i].maybe(answers[i], has_double);
            assert(ok == lets_through(asks[i as int], answers@[i as int], has_double));
            if !ok {
                return false;
            }
            i = i + 1;
        }
        true
    }

    fn ranges_pass(&self, answers: &Vec<bool>) -> (r: bool)
        ensures
            r == !(exists|i: int|
                0 <= i < self.ranges@.len() && i < answers@.len() && !#[trigger] answers@[i]),
    {
        let mut i: usize = 0;
        while i < self.ranges.len() && i < answers.len()
            invariant
                i <= self.ranges@.len(),
                i <= answers@.len(),
                forall|k: int| 0 <= k < i ==> #[trigger] answers@[k],
            decreases self.ranges@.len() - i,
        {
            if !answers[i] {
                return false;
            }
            i = i + 1;
        }
        true
    }

    /// Whether the sidecars rule a block out.
    pub fn rules_out(&self, s: &Sides, floats: &Floats) -> (r: bool)
        requires
            self.wf(*floats),
        ensures
            r == ruled_out(*self.q, *s, *floats),
    {
        if let Some(id) = &self.needle {
            if let Some(f) = &s.trace {
                if !may_contain(f.as_slice(), id) {
                    return true;
                }
            }
        }
        if let Some((answers, has_double)) = &s.attrs {
            if !self.attrs_pass(answers, *has_double) {
                return true;
            }
        }
        if let Some(answers) = &s.ranges {
            if !self.ranges_pass(answers) {
                return true;
            }
        }
        false
    }
}

} // verus!
