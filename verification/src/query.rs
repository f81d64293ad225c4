//! What a query asks: operators, scalars, terms, and the cursor a page ends at.

use crate::float::{double_of, nearest_double, to_whole, whole_i64, Floats};
use crate::order::{same_text, Rank};
use crate::text::{
    after_field, chars_of, decimal, field_end, field_len, lemma_decimal_round_trip,
    lemma_digits_round_trip, lemma_digits_without, lemma_field_len_of, lemma_signed_round_trip,
    parse_digits, parse_signed, push_decimal, push_signed, push_str, read_digits, read_signed,
    signed,
};
use vstd::prelude::*;

verus! {

/// Comparison operator. `Contains` is substring matching on strings and matches
/// nothing on any other type: a filter that cannot apply returns no rows rather
/// than an error.
#[derive(Debug, Clone, Copy, PartialEq, Eq, Structural)]
pub enum Op {
    Eq,
    Ne,
    Lt,
    Lte,
    Gt,
    Gte,
    Contains,
}

impl Op {
    /// The operator a spelling stands for.
    pub open spec fn spelled(s: Seq<char>) -> Option<Op> {
        if s == "eq"@ || s == "="@ || s == "=="@ {
            Some(Op::Eq)
        } else if s == "ne"@ || s == "!="@ {
            Some(Op::Ne)
        } else if s == "lt"@ || s == "<"@ {
            Some(Op::Lt)
        } else if s == "lte"@ || s == "<="@ {
            Some(Op::Lte)
        } else if s == "gt"@ || s == ">"@ {
            Some(Op::Gt)
        } else if s == "gte"@ || s == ">="@ {
            Some(Op::Gte)
        } else if s == "contains"@ || s == "~"@ {
            Some(Op::Contains)
        } else {
            None
        }
    }

    /// Whether the operator accepts a comparison that came out this way.
    pub open spec fn accepts(self, r: Rank) -> bool {
        match self {
            Op::Eq => r == Rank::Equal,
            Op::Ne => r != Rank::Equal,
            Op::Lt => r == Rank::Less,
            Op::Lte => r != Rank::Greater,
            Op::Gt => r == Rank::Greater,
            Op::Gte => r != Rank::Less,
            Op::Contains => false,
        }
    }

    pub fn parse(s: &str) -> (r: Option<Op>)
        ensures
            r == Op::spelled(s@),
    {
        if same_text(s, "eq") || same_text(s, "=") || same_text(s, "==") {
            Some(Op::Eq)
        } else if same_text(s, "ne") || same_text(s, "!=") {
            Some(Op::Ne)
        } else if same_text(s, "lt") || same_text(s, "<") {
            Some(Op::Lt)
        } else if same_text(s, "lte") || same_text(s, "<=") {
            Some(Op::Lte)
        } else if same_text(s, "gt") || same_text(s, ">") {
            Some(Op::Gt)
        } else if same_text(s, "gte") || same_text(s, ">=") {
            Some(Op::Gte)
        } else if same_text(s, "contains") || same_text(s, "~") {
            Some(Op::Contains)
        } else {
            None
        }
    }

    /// Whether the operator accepts a comparison that came out this way.
    pub fn test_ord(self, ord: Rank) -> (r: bool)
        ensures
            r == self.accepts(ord),
    {
        match self {
            Op::Eq => ord == Rank::Equal,
            Op::Ne => ord != Rank::Equal,
            Op::Lt => ord == Rank::Less,
            Op::Lte => ord != Rank::Greater,
            Op::Gt => ord == Rank::Greater,
            Op::Gte => ord != Rank::Less,
            Op::Contains => false,
        }
    }
}

/// A scalar from a query document.
///
/// Deliberately loose about numbers: a query that arrives as JSON writes
/// `"200"` about as often as `200`, so coercion happens at comparison time,
/// once the column's real type is known.
#[derive(Debug, Clone)]
pub enum Value {
    Str(String),
    Int(i64),
    /// A double, by its bits.
    Double(u64),
    Bool(bool),
}

impl Value {
    /// The value as an integer. A whole-valued double is the same number; a
    /// fractional one is not.
    pub open spec fn i64_of(&self) -> Option<int> {
        match self {
            Value::Int(i) => Some(*i as int),
            Value::Double(d) => whole_i64(*d),
            Value::Str(s) => parse_signed(s@),
            Value::Bool(_) => None,
        }
    }

    /// The value as a double, by its bits.
    pub open spec fn double_of(&self, floats: Floats) -> Option<u64> {
        match self {
            Value::Int(i) => Some(nearest_double(*i)),
            Value::Double(d) => Some(*d),
            Value::Str(s) => floats.reading_of(s@),
            Value::Bool(_) => None,
        }
    }

    /// The value as a boolean.
    pub open spec fn bool_of(&self) -> Option<bool> {
        match self {
            Value::Bool(b) => Some(*b),
            Value::Str(s) => if s@ == "true"@ {
                Some(true)
            } else if s@ == "false"@ {
                Some(false)
            } else {
                None
            },
            _ => None,
        }
    }

    /// The value as text, if it was written as text.
    pub open spec fn str_of(&self) -> Option<Seq<char>> {
        match self {
            Value::Str(s) => Some(s@),
            _ => None,
        }
    }

    pub fn as_i64(&self) -> (r: Option<i64>)
        ensures
            r is Some <==> self.i64_of() is Some,
            r matches Some(i) ==> self.i64_of() == Some(i as int),
    {
        match self {
            Value::Int(i) => Some(*i),
            Value::Double(d) => to_whole(*d),
            Value::Str(s) => {
                let c = chars_of(s.as_str());
                assert(c@.subrange(0, c@.len() as int) =~= s@);
                read_signed(c.as_slice(), 0, c.len())
            },
            Value::Bool(_) => None,
        }
    }

    /// The value as a double. What floating point has to say about it comes in
    /// through `floats`.
    pub fn as_double(&self, floats: &Floats) -> (r: Option<u64>)
        requires
            floats.wf(),
        ensures
            r == self.double_of(*floats),
    {
        match self {
            Value::Int(i) => Some(double_of(*i)),
            Value::Double(d) => Some(*d),
            Value::Str(s) => floats.reading(s.as_str()),
            Value::Bool(_) => None,
        }
    }

    pub fn as_bool(&self) -> (r: Option<bool>)
        ensures
            r == self.bool_of(),
    {
        match self {
            Value::Bool(b) => Some(*b),
            Value::Str(s) => if same_text(s.as_str(), "true") {
                Some(true)
            } else if same_text(s.as_str(), "false") {
                Some(false)
            } else {
                None
            },
            _ => None,
        }
    }

    pub fn as_str(&self) -> (r: Option<&str>)
        ensures
            r is Some <==> self.str_of() is Some,
            r matches Some(s) ==> self.str_of() == Some(s@),
    {
        match self {
            Value::Str(s) => Some(s.as_str()),
            _ => None,
        }
    }
}

/// What a term filters on.
#[derive(Debug, Clone)]
pub enum Target {
    /// A column of the signal's root table, by name.
    Field(String),
    /// An attribute key, looked up at every level the signal has (record,
    /// resource, scope, and on traces the span's own events and links) and
    /// unioned.
    Attr(String),
}

/// One conjunct. Terms are AND-ed.
#[derive(Debug, Clone)]
pub struct Term {
    pub target: Target,
    pub op: Op,
    pub value: Value,
}

/// Which signal, and therefore which tables and which time column.
#[derive(Debug, Clone, Copy, PartialEq, Eq, Structural)]
pub enum Signal {
    Logs,
    Traces,
}

impl Signal {
    /// The signal a name stands for.
    pub open spec fn named(s: Seq<char>) -> Option<Signal> {
        if s == "logs"@ {
            Some(Signal::Logs)
        } else if s == "traces"@ || s == "spans"@ {
            Some(Signal::Traces)
        } else {
            None
        }
    }

    /// The root table's name.
    pub open spec fn root_name(self) -> Seq<char> {
        match self {
            Signal::Logs => "logs"@,
            Signal::Traces => "spans"@,
        }
    }

    /// The record-level attribute table's name.
    pub open spec fn attrs_name(self) -> Seq<char> {
        match self {
            Signal::Logs => "log_attrs"@,
            Signal::Traces => "span_attrs"@,
        }
    }

    /// The name of the column that orders results and bounds the query.
    pub open spec fn time_name(self) -> Seq<char> {
        match self {
            Signal::Logs => "time_unix_nano"@,
            Signal::Traces => "start_time_unix_nano"@,
        }
    }

    pub fn parse(s: &str) -> (r: Option<Signal>)
        ensures
            r == Signal::named(s@),
    {
        if same_text(s, "logs") {
            Some(Signal::Logs)
        } else if same_text(s, "traces") || same_text(s, "spans") {
            Some(Signal::Traces)
        } else {
            None
        }
    }

    /// The block directory, which is also the signal's name on the wire.
    pub fn dir(self) -> (r: &'static str)
        ensures
            r@ == match self {
                Signal::Logs => "logs"@,
                Signal::Traces => "traces"@,
            },
    {
        match self {
            Signal::Logs => "logs",
            Signal::Traces => "traces",
        }
    }

    /// The root table's file stem.
    pub fn root(self) -> (r: &'static str)
        ensures
            r@ == self.root_name(),
    {
        match self {
            Signal::Logs => "logs",
            Signal::Traces => "spans",
        }
    }

    /// The record-level attribute table.
    pub fn attrs(self) -> (r: &'static str)
        ensures
            r@ == self.attrs_name(),
    {
        match self {
            Signal::Logs => "log_attrs",
            Signal::Traces => "span_attrs",
        }
    }

    /// The column that orders results and bounds the query.
    pub fn time_col(self) -> (r: &'static str)
        ensures
            r@ == self.time_name(),
    {
        match self {
            Signal::Logs => "time_unix_nano",
            Signal::Traces => "start_time_unix_nano",
        }
    }
}

/// A record search: filter, order by time descending, take `limit`.
#[derive(Debug, Clone)]
pub struct Search {
    pub signal: Signal,
    /// Inclusive nanosecond bounds.
    pub from: i64,
    pub to: i64,
    pub terms: Vec<Term>,
    pub limit: usize,
    /// Start after this row. See [`Cursor`].
    pub after: Option<Cursor>,
}

/// Where the previous page stopped.
///
/// This is the sort key of the last row returned, so "the next page" is
/// "everything that sorts after this", which is exact whatever else has landed
/// meanwhile. `(node, seq)` identifies the block and `row` is the offset inside
/// it, so the key is intrinsic to the record rather than to the query that
/// found it.
#[derive(Debug, Clone, Copy, PartialEq, Eq, Structural)]
pub struct Cursor {
    pub ts: i64,
    pub node: u32,
    pub seq: u64,
    pub row: u32,
}

/// Digits alone, denoting at most `max`.
pub open spec fn plain_number(s: Seq<char>, max: nat) -> Option<nat> {
    parse_digits(s, 10, max)
}

/// A time: digits, with an optional minus sign in front. A plus sign is not
/// taken.
pub open spec fn plain_time(s: Seq<char>) -> Option<int> {
    if s.len() > 0 && s[0] == '-' {
        match plain_number(s.skip(1), 0x8000_0000_0000_0000) {
            Some(n) => Some(-(n as int)),
            None => None,
        }
    } else {
        match plain_number(s, 0x7fff_ffff_ffff_ffff) {
            Some(n) => Some(n as int),
            None => None,
        }
    }
}

impl Cursor {
    /// Descending: newest first, and for rows sharing a nanosecond, the
    /// higher-numbered block and row first. `a.precedes(b)` says that `a` is
    /// delivered before `b`.
    pub open spec fn precedes(self, other: Cursor) -> bool {
        ||| self.ts > other.ts
        ||| self.ts == other.ts && self.node > other.node
        ||| self.ts == other.ts && self.node == other.node && self.seq > other.seq
        ||| self.ts == other.ts && self.node == other.node && self.seq == other.seq && self.row
            > other.row
    }

    /// Whether `self` is delivered before `other`.
    pub fn before(&self, other: &Cursor) -> (r: bool)
        ensures
            r == self.precedes(*other),
    {
        if self.ts != other.ts {
            self.ts > other.ts
        } else if self.node != other.node {
            self.node > other.node
        } else if self.seq != other.seq {
            self.seq > other.seq
        } else {
            self.row > other.row
        }
    }

    /// The cursor as text: its four numbers in decimal, with full stops
    /// between.
    pub open spec fn text(self) -> Seq<char> {
        signed(self.ts as int) + seq!['.'] + decimal(self.node as nat) + seq!['.'] + decimal(
            self.seq as nat,
        ) + seq!['.'] + decimal(self.row as nat)
    }

    /// The cursor that four fields denote.
    pub open spec fn of_fields(f1: Seq<char>, f2: Seq<char>, f3: Seq<char>, f4: Seq<char>) -> Option<
        Cursor,
    > {
        match (
            plain_time(f1),
            plain_number(f2, u32::MAX as nat),
            plain_number(f3, u64::MAX as nat),
            plain_number(f4, u32::MAX as nat),
        ) {
            (Some(ts), Some(node), Some(seq), Some(row)) => Some(
                Cursor { ts: ts as i64, node: node as u32, seq: seq as u64, row: row as u32 },
            ),
            _ => None,
        }
    }

    /// The cursor a text denotes: exactly four fields, each of digits alone but
    /// for a minus sign that the first may have.
    pub open spec fn read(s: Seq<char>) -> Option<Cursor> {
        let f1 = s.take(field_len(s, '.') as int);
        match after_field(s, '.') {
            None => None,
            Some(s2) => {
                let f2 = s2.take(field_len(s2, '.') as int);
                match after_field(s2, '.') {
                    None => None,
                    Some(s3) => {
                        let f3 = s3.take(field_len(s3, '.') as int);
                        match after_field(s3, '.') {
                            None => None,
                            Some(s4) => Cursor::of_fields(f1, f2, f3, s4),
                        }
                    },
                }
            },
        }
    }

    /// The cursor as text.
    pub fn to_text(&self) -> (s: String)
        ensures
            s@ == self.text(),
    {
        let mut s: String = String::new();
        push_signed(&mut s, self.ts);
        s.push('.');
        push_decimal(&mut s, self.node as u64);
        s.push('.');
        push_decimal(&mut s, self.seq);
        s.push('.');
        push_decimal(&mut s, self.row as u64);
        assert(s@ =~= self.text());
        s
    }

    /// Read a cursor back from text. The error says what was expected.
    pub fn from_text(s: &str) -> (r: Result<Cursor, String>)
        ensures
            r is Ok <==> Cursor::read(s@) is Some,
            r matches Ok(c) ==> Cursor::read(s@) == Some(c),
            r matches Err(e) ==> e@ == refusal(s@),
    {
        let c = chars_of(s);
        match Cursor::read_chars(c.as_slice()) {
            Some(k) => Ok(k),
            None => Err(refuse(s)),
        }
    }

    fn read_chars(c: &[char]) -> (r: Option<Cursor>)
        ensures
            r == Cursor::read(c@),
    {
        let e1: usize = field_end(c, 0, '.');
        let ghost s = c@;
        assert(c@.skip(0) =~= c@);
        assert(s.take(field_len(s, '.') as int) =~= c@.subrange(0, e1 as int));
        if e1 == c.len() {
            return None;
        }
        let e2: usize = field_end(c, e1 + 1, '.');
        let ghost s2 = c@.skip(e1 + 1);
        assert(after_field(s, '.') == Some(s2));
        assert(s2.take(field_len(s2, '.') as int) =~= c@.subrange(e1 + 1, e2 as int));
        if e2 == c.len() {
            return None;
        }
        let e3: usize = field_end(c, e2 + 1, '.');
        let ghost s3 = c@.skip(e2 + 1);
        assert(s2.skip(field_len(s2, '.') as int + 1) =~= s3);
        assert(s3.take(field_len(s3, '.') as int) =~= c@.subrange(e2 + 1, e3 as int));
        if e3 == c.len() {
            return None;
        }
        let ghost s4 = c@.skip(e3 + 1);
        assert(s3.skip(field_len(s3, '.') as int + 1) =~= s4);
        assert(s4 =~= c@.subrange(e3 + 1, c@.len() as int));
        if e1 > 0 && c[0] == '+' {
            assert(c@.subrange(0, e1 as int)[0] == '+');
            return None;
        }
        let ts: i64 = match read_signed(c, 0, e1) {
            Some(n) => n,
            None => {
                return None;
            },
        };
        let node: u64 = match read_digits(c, e1 + 1, e2, 10, 0xffff_ffff) {
            Some(n) => n,
            None => {
                return None;
            },
        };
        let seq: u64 = match read_digits(c, e2 + 1, e3, 10, 0xffff_ffff_ffff_ffff) {
            Some(n) => n,
            None => {
                return None;
            },
        };
        let row: u64 = match read_digits(c, e3 + 1, c.len(), 10, 0xffff_ffff) {
            Some(n) => n,
            None => {
                return None;
            },
        };
        Some(Cursor { ts, node: node as u32, seq, row: row as u32 })
    }
}

/// The text in quotation marks, as Rust's `Debug` writes it.
pub uninterp spec fn debug_quoted(s: Seq<char>) -> Seq<char>;

/// `format!` with `{:?}` on a string slice: the text in quotation marks, with
/// whatever cannot be printed escaped. What it writes is named
/// [`debug_quoted`] and depends on the text alone.
#[verifier::external_body]
fn debug_string(s: &str) -> (r: String)
    ensures
        r@ == debug_quoted(s@),
{
    format!("{s:?}")
}

/// What is said of text that is not a cursor.
pub open spec fn refusal(s: Seq<char>) -> Seq<char> {
    debug_quoted(s) + " is not a cursor; pass back the `next` field verbatim"@
}

fn refuse(s: &str) -> (e: String)
    ensures
        e@ == refusal(s@),
{
    let mut e: String = debug_string(s);
    push_str(&mut e, " is not a cursor; pass back the `next` field verbatim");
    e
}

proof fn lemma_cursor_splits(f1: Seq<char>, f2: Seq<char>, f3: Seq<char>, f4: Seq<char>)
    requires
        !f1.contains('.'),
        !f2.contains('.'),
        !f3.contains('.'),
    ensures
        Cursor::read(f1 + seq!['.'] + f2 + seq!['.'] + f3 + seq!['.'] + f4) == Cursor::of_fields(
            f1,
            f2,
            f3,
            f4,
        ),
{
    let s = f1 + seq!['.'] + f2 + seq!['.'] + f3 + seq!['.'] + f4;
    let r3 = seq!['.'] + f4;
    let s3 = f3 + r3;
    let r2 = seq!['.'] + s3;
    let s2 = f2 + r2;
    let r1 = seq!['.'] + s2;
    assert(s =~= f1 + r1);
    lemma_field_len_of(f1, r1, '.');
    lemma_field_len_of(f2, r2, '.');
    lemma_field_len_of(f3, r3, '.');
    assert(s.take(f1.len() as int) =~= f1);
    assert(s.skip(f1.len() as int + 1) =~= s2);
    assert(s2.take(f2.len() as int) =~= f2);
    assert(s2.skip(f2.len() as int + 1) =~= s3);
    assert(s3.take(f3.len() as int) =~= f3);
    assert(s3.skip(f3.len() as int + 1) =~= f4);
}

proof fn lemma_number_field(n: nat, max: nat)
    requires
        n <= max,
    ensures
        plain_number(decimal(n), max) == Some(n),
        !decimal(n).contains('.'),
{
    lemma_decimal_round_trip(n, max);
    lemma_digits_round_trip(n, 10);
    lemma_digits_without(decimal(n), 10, '.');
}

proof fn lemma_time_field(ts: i64)
    ensures
        plain_time(signed(ts as int)) == Some(ts as int),
        !signed(ts as int).contains('.'),
{
    lemma_signed_round_trip(ts as int);
    if ts < 0 {
        let d = decimal((-(ts as int)) as nat);
        lemma_digits_round_trip((-(ts as int)) as nat, 10);
        lemma_digits_without(d, 10, '.');
    } else {
        lemma_digits_round_trip(ts as nat, 10);
        lemma_digits_without(signed(ts as int), 10, '.');
        lemma_digits_without(signed(ts as int), 10, '+');
        assert(signed(ts as int).contains(signed(ts as int)[0]));
    }
}

/// A cursor written as text reads back as itself.
pub proof fn law_cursor_round_trip(c: Cursor)
    ensures
        Cursor::read(c.text()) == Some(c),
{
    lemma_time_field(c.ts);
    lemma_number_field(c.node as nat, u32::MAX as nat);
    lemma_number_field(c.seq as nat, u64::MAX as nat);
    lemma_number_field(c.row as nat, u32::MAX as nat);
    lemma_cursor_splits(
        signed(c.ts as int),
        decimal(c.node as nat),
        decimal(c.seq as nat),
        decimal(c.row as nat),
    );
}

/// The order rows are delivered in is total: of two different cursors, exactly
/// one comes first, so no row can hide in a tie.
pub proof fn law_cursor_order_is_total(a: Cursor, b: Cursor, c: Cursor)
    ensures
        a == b || a.precedes(b) || b.precedes(a),
        !(a.precedes(b) && b.precedes(a)),
        !a.precedes(a),
        a.precedes(b) && b.precedes(c) ==> a.precedes(c),
{
}

} // verus!
