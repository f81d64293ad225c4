//! How numbers, operators and places are spelled.

use crate::block::BlockName;
use crate::path::{components, joined, place_of};
use crate::query::{Op, Signal};
use crate::text::{
    all_digits, digit_char, digit_value, digits, digits_value, field_len, lemma_digits_round_trip,
    lemma_field_len_of, padded, parse_signed, signed,
};
use vstd::prelude::*;

verus! {

/// Only the ten digits.
pub open spec fn is_decimal(s: Seq<char>) -> bool {
    s.len() > 0 && forall|i: int| 0 <= i < s.len() ==> '0' <= #[trigger] s[i] && s[i] <= '9'
}

/// What decimal digits are worth, the first of them most.
pub open spec fn worth(s: Seq<char>) -> nat
    decreases s.len(),
{
    if s.len() == 0 {
        0
    } else {
        (10 * worth(s.drop_last()) + (s.last() as int - '0' as int)) as nat
    }
}

proof fn lemma_worth(s: Seq<char>)
    requires
        forall|i: int| 0 <= i < s.len() ==> '0' <= #[trigger] s[i] && s[i] <= '9',
    ensures
        digits_value(s, 10) == worth(s),
        all_digits(s, 10),
    decreases s.len(),
{
    if s.len() > 0 {
        let t = s.drop_last();
        assert forall|i: int| 0 <= i < t.len() implies '0' <= #[trigger] t[i] && t[i] <= '9' by {
            assert(t[i] == s[i]);
        }
        lemma_worth(t);
        assert(s.last() == s[s.len() - 1]);
    }
}

proof fn lemma_are_decimal(s: Seq<char>)
    requires
        all_digits(s, 10),
        s.len() > 0,
    ensures
        is_decimal(s),
        digits_value(s, 10) == worth(s),
{
    assert forall|i: int| 0 <= i < s.len() implies '0' <= #[trigger] s[i] && s[i] <= '9' by {
        assert(digit_value(s[i], 10) is Some);
    }
    lemma_worth(s);
}

proof fn lemma_no_leading_zero(n: nat)
    ensures
        digits(n, 10).len() > 0,
        n > 0 ==> digits(n, 10)[0] != '0',
        n == 0 ==> digits(n, 10) == seq!['0'],
    decreases n,
{
    if n >= 10 {
        lemma_no_leading_zero(n / 10);
    }
}

/// An integer is written in decimal: a minus sign exactly where it is negative,
/// digits that are worth it, and no zero in front of others.
pub proof fn law_an_integer_is_written_in_decimal(i: int)
    ensures
        i < 0 ==> signed(i).len() > 0 && signed(i)[0] == '-' && is_decimal(signed(i).skip(1))
            && worth(signed(i).skip(1)) == -i && signed(i)[1] != '0',
        i >= 0 ==> is_decimal(signed(i)) && worth(signed(i)) == i,
        i > 0 ==> signed(i)[0] != '0',
        i == 0 ==> signed(i) == seq!['0'],
{
    let n: nat = if i < 0 {
        (-i) as nat
    } else {
        i as nat
    };
    lemma_digits_round_trip(n, 10);
    lemma_are_decimal(digits(n, 10));
    lemma_no_leading_zero(n);
    if i < 0 {
        assert(signed(i).skip(1) =~= digits(n, 10));
        assert(signed(i)[1] == digits(n, 10)[0]);
    }
}

/// A text reads as an integer exactly if it is decimal digits, behind a plus or
/// a minus sign or none, that are worth an integer of 64 bits; and it reads as
/// that integer.
pub proof fn law_what_is_decimal_reads_as_an_integer(s: Seq<char>)
    ensures
        ({
            let rest = if s.len() > 0 && (s[0] == '-' || s[0] == '+') {
                s.skip(1)
            } else {
                s
            };
            let n: int = if s.len() > 0 && s[0] == '-' {
                -(worth(rest) as int)
            } else {
                worth(rest) as int
            };
            parse_signed(s) == if is_decimal(rest) && i64::MIN <= n <= i64::MAX {
                Some(n)
            } else {
                None
            }
        }),
{
    let rest = if s.len() > 0 && (s[0] == '-' || s[0] == '+') {
        s.skip(1)
    } else {
        s
    };
    if is_decimal(rest) {
        lemma_worth(rest);
    }
    if rest.len() > 0 && all_digits(rest, 10) {
        lemma_are_decimal(rest);
    }
}

spec fn ten_to(n: nat) -> nat
    decreases n,
{
    if n == 0 {
        1
    } else {
        10 * ten_to((n - 1) as nat)
    }
}

proof fn lemma_padded_len(n: nat, width: nat)
    requires
        width > 0,
        n < ten_to(width),
    ensures
        padded(n, 10, width).len() == width,
    decreases width,
{
    reveal_with_fuel(ten_to, 2);
    if width > 1 {
        lemma_padded_len(n / 10, (width - 1) as nat);
    } else {
        assert(n < 10);
    }
}

/// Two texts agree up to a place, and there the first has the smaller
/// character.
pub open spec fn parts_before(a: Seq<char>, b: Seq<char>, at: int) -> bool {
    &&& 0 <= at < a.len()
    &&& at < b.len()
    &&& a.take(at) == b.take(at)
    &&& a[at] < b[at]
}

proof fn lemma_padded_order(n: nat, m: nat, width: nat) -> (at: int)
    requires
        width > 0,
        n < m < ten_to(width),
    ensures
        parts_before(padded(n, 10, width), padded(m, 10, width), at),
    decreases width,
{
    let a = padded(n, 10, width);
    let b = padded(m, 10, width);
    lemma_padded_len(n, width);
    lemma_padded_len(m, width);
    reveal_with_fuel(ten_to, 2);
    if width == 1 {
        assert(n < 10 && m < 10);
        assert(a =~= seq![digit_char(n)]);
        assert(b =~= seq![digit_char(m)]);
        assert(a.take(0) =~= b.take(0));
        0
    } else {
        let w = (width - 1) as nat;
        lemma_padded_len(n / 10, w);
        lemma_padded_len(m / 10, w);
        let c = padded(n / 10, 10, w);
        let d = padded(m / 10, 10, w);
        if n / 10 < m / 10 {
            let at = lemma_padded_order(n / 10, m / 10, w);
            assert(a.take(at) =~= c.take(at));
            assert(b.take(at) =~= d.take(at));
            at
        } else {
            assert(a.take(w as int) =~= c);
            assert(b.take(w as int) =~= d);
            w as int
        }
    }
}

/// The names of blocks sort as their oldest rows do, where these are not before
/// the epoch: the time comes first, and is as wide as any.
pub proof fn law_names_sort_by_their_oldest_row(a: BlockName, b: BlockName) -> (at: int)
    requires
        0 <= a.min_ts < b.min_ts,
    ensures
        parts_before(a.text(), b.text(), at),
        at < 20,
{
    let x = padded(a.min_ts as nat, 10, 20);
    let y = padded(b.min_ts as nat, 10, 20);
    reveal_with_fuel(ten_to, 21);
    assert(ten_to(20) == 100_000_000_000_000_000_000);
    lemma_padded_len(a.min_ts as nat, 20);
    lemma_padded_len(b.min_ts as nat, 20);
    let at = lemma_padded_order(a.min_ts as nat, b.min_ts as nat, 20);
    assert(a.text().take(at) =~= x.take(at));
    assert(b.text().take(at) =~= y.take(at));
    at
}

proof fn lemma_spellings()
    ensures
        "="@ != "=="@,
        "!="@ != "=="@ && "!="@ != "<="@ && "!="@ != ">="@,
        "<="@ != "=="@ && "<="@ != ">="@,
        ">="@ != "=="@,
        "="@ != "<"@ && "="@ != ">"@ && "="@ != "~"@ && "<"@ != ">"@ && "<"@ != "~"@ && ">"@ != "~"@,
        "eq"@ != "ne"@ && "eq"@ != "lt"@ && "eq"@ != "gt"@ && "ne"@ != "lt"@ && "ne"@ != "gt"@
            && "lt"@ != "gt"@,
        "lte"@ != "gte"@,
        "logs"@ != "traces"@ && "logs"@ != "spans"@,
        "="@.len() == 1 && "<"@.len() == 1 && ">"@.len() == 1 && "~"@.len() == 1,
        "=="@.len() == 2 && "!="@.len() == 2 && "<="@.len() == 2 && ">="@.len() == 2,
        "eq"@.len() == 2 && "ne"@.len() == 2 && "lt"@.len() == 2 && "gt"@.len() == 2,
        "lte"@.len() == 3 && "gte"@.len() == 3 && "contains"@.len() == 8,
        "eq"@[0] == 'e' && "ne"@[0] == 'n' && "lt"@[0] == 'l' && "gt"@[0] == 'g',
        "=="@[0] == '=' && "!="@[0] == '!' && "<="@[0] == '<' && ">="@[0] == '>',
{
    reveal_strlit("eq");
    reveal_strlit("=");
    reveal_strlit("==");
    reveal_strlit("ne");
    reveal_strlit("!=");
    reveal_strlit("lt");
    reveal_strlit("<");
    reveal_strlit("lte");
    reveal_strlit("<=");
    reveal_strlit("gt");
    reveal_strlit(">");
    reveal_strlit("gte");
    reveal_strlit(">=");
    reveal_strlit("contains");
    reveal_strlit("~");
    reveal_strlit("logs");
    reveal_strlit("traces");
    reveal_strlit("spans");
    assert("="@.len() == 1 && "=="@.len() == 2 && "!="@.len() == 2 && "<="@.len() == 2);
    assert(">="@.len() == 2 && "eq"@.len() == 2 && "ne"@.len() == 2 && "lt"@.len() == 2);
    assert("gt"@.len() == 2);
    assert("eq"@[0] == 'e' && "ne"@[0] == 'n' && "lt"@[0] == 'l' && "gt"@[0] == 'g');
    assert("=="@[0] == '=' && "!="@[0] == '!' && "<="@[0] == '<' && ">="@[0] == '>');
    assert("="@[0] == '=' && "<"@[0] == '<' && ">"@[0] == '>' && "~"@[0] == '~');
    assert("lte"@[0] == 'l' && "gte"@[0] == 'g');
    assert("logs"@.len() == 4 && "traces"@.len() == 6 && "spans"@.len() == 5);
}

/// Every operator has a word and a sign, and no other text is one.
pub proof fn law_operators_have_words_and_signs(s: Seq<char>)
    ensures
        Op::spelled(s) == Some(Op::Eq) <==> s == "eq"@ || s == "="@ || s == "=="@,
        Op::spelled(s) == Some(Op::Ne) <==> s == "ne"@ || s == "!="@,
        Op::spelled(s) == Some(Op::Lt) <==> s == "lt"@ || s == "<"@,
        Op::spelled(s) == Some(Op::Lte) <==> s == "lte"@ || s == "<="@,
        Op::spelled(s) == Some(Op::Gt) <==> s == "gt"@ || s == ">"@,
        Op::spelled(s) == Some(Op::Gte) <==> s == "gte"@ || s == ">="@,
        Op::spelled(s) == Some(Op::Contains) <==> s == "contains"@ || s == "~"@,
{
    lemma_spellings();
}

/// Logs are read from `logs` and `log_attrs` by the time they were made, spans
/// from `spans` and `span_attrs` by the time they started.
pub proof fn law_signals_have_tables(signal: Signal)
    ensures
        signal == Signal::Logs ==> signal.root_name() == "logs"@ && signal.attrs_name()
            == "log_attrs"@ && signal.time_name() == "time_unix_nano"@,
        signal == Signal::Traces ==> signal.root_name() == "spans"@ && signal.attrs_name()
            == "span_attrs"@ && signal.time_name() == "start_time_unix_nano"@,
{
}

/// Logs are asked for as `logs`, and spans as `traces` or `spans`.
pub proof fn law_signals_have_names(s: Seq<char>)
    ensures
        Signal::named(s) == Some(Signal::Logs) <==> s == "logs"@,
        Signal::named(s) == Some(Signal::Traces) <==> s == "traces"@ || s == "spans"@,
{
    lemma_spellings();
}

proof fn lemma_field_bounds(s: Seq<char>, sep: char)
    ensures
        field_len(s, sep) <= s.len(),
        forall|i: int| 0 <= i < field_len(s, sep) ==> s[i] != sep,
        field_len(s, sep) < s.len() ==> s[field_len(s, sep) as int] == sep,
    decreases s.len(),
{
    if s.len() > 0 && s[0] != sep {
        lemma_field_bounds(s.skip(1), sep);
        assert forall|i: int| 0 <= i < field_len(s, sep) implies s[i] != sep by {
            if i > 0 {
                assert(s[i] == s.skip(1)[i - 1]);
            }
        }
    }
}

proof fn lemma_components_join(a: Seq<char>, b: Seq<char>)
    ensures
        components(a + seq!['/'] + b) == components(a) + components(b),
    decreases a.len(),
{
    let n = field_len(a, '/');
    lemma_field_bounds(a, '/');
    let f = a.take(n as int);
    let s = a + seq!['/'] + b;
    if n < a.len() {
        let rest = a.skip(n as int);
        let more = a.skip(n as int + 1);
        assert(s =~= f + (rest + seq!['/'] + b));
        lemma_field_len_of(f, rest + seq!['/'] + b, '/');
        assert((rest + seq!['/'] + b).skip(1) =~= more + seq!['/'] + b);
        lemma_components_join(more, b);
        assert(components(s) =~= components(a) + components(b));
    } else {
        assert(f =~= a);
        assert(s =~= a + (seq!['/'] + b));
        lemma_field_len_of(a, seq!['/'] + b, '/');
        assert((seq!['/'] + b).skip(1) =~= b);
        assert(components(s) =~= components(a) + components(b));
    }
}

/// A part of a path that is neither empty nor a step, and holds no slash.
pub open spec fn is_part(s: Seq<char>) -> bool {
    &&& s.len() > 0
    &&& s != "."@
    &&& s != ".."@
    &&& forall|i: int| 0 <= i < s.len() ==> s[i] != '/'
}

proof fn lemma_one_component(s: Seq<char>)
    requires
        is_part(s),
    ensures
        components(s) == seq![s],
{
    reveal_strlit(".");
    assert("."@ =~= seq!['.']);
    let none = Seq::<char>::empty();
    assert(s + none =~= s);
    lemma_field_len_of(s, none, '/');
}

/// The place of a block under a directory is its partition and its name,
/// whatever the directory.
pub proof fn law_a_place_is_where_it_was_joined(base: Seq<char>, part: Seq<char>, name: Seq<char>)
    requires
        is_part(part),
        is_part(name),
    ensures
        place_of(joined(joined(base, part), name)) == Some((part, name)),
{
    let dir = joined(base, part);
    assert(dir.last() == part.last());
    assert(part[part.len() - 1] != '/' && part[0] != '/' && name[0] != '/');
    assert(joined(dir, name) == dir + seq!['/'] + name);
    lemma_components_join(dir, name);
    lemma_one_component(name);
    lemma_one_component(part);
    if base.len() == 0 {
        assert(dir =~= part);
    } else if crate::path::ends_in_slash(base) {
        let up = base.drop_last();
        assert(dir =~= up + seq!['/'] + part);
        lemma_components_join(up, part);
    } else {
        lemma_components_join(base, part);
    }
}

} // verus!
