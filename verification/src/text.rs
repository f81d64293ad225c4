//! Numbers as text: how the engine writes integers, and how it reads them back.

use vstd::prelude::*;

verus! {

/// `String::push` appends one character to the end of the string.
pub assume_specification[ String::push ](s: &mut String, c: char)
    ensures
        final(s)@ == old(s)@.push(c),
;

// ---------------------------------------------------------------------------
// Writing.

/// The character of one decimal or lowercase hexadecimal digit.
pub open spec fn digit_char(d: nat) -> char {
    if d < 10 {
        (48 + d) as char
    } else {
        (87 + d) as char
    }
}

/// `n` in the given base, with no leading zeros.
pub open spec fn digits(n: nat, base: nat) -> Seq<char>
    decreases n,
{
    if base < 2 || n < base {
        seq![digit_char(n)]
    } else {
        proof {
            assert(n / base < n) by (nonlinear_arith)
                requires
                    2 <= base <= n,
            ;
        }
        digits(n / base, base).push(digit_char(n % base))
    }
}

/// `n` in decimal.
pub open spec fn decimal(n: nat) -> Seq<char> {
    digits(n, 10)
}

/// `i` in decimal, with a minus sign where it is negative.
pub open spec fn signed(i: int) -> Seq<char> {
    if i < 0 {
        seq!['-'] + decimal((-i) as nat)
    } else {
        decimal(i as nat)
    }
}

/// `n` in the given base, filled with zeros on the left to at least `width`
/// digits.
pub open spec fn padded(n: nat, base: nat, width: nat) -> Seq<char>
    decreases width,
{
    if base < 2 || width <= 1 {
        digits(n, base)
    } else {
        padded(n / base, base, (width - 1) as nat).push(digit_char(n % base))
    }
}

/// `i` in decimal, filled with zeros after the sign to at least `width`
/// characters.
pub open spec fn signed_padded(i: int, width: nat) -> Seq<char> {
    if i < 0 {
        seq!['-'] + padded((-i) as nat, 10, if width > 0 {
            (width - 1) as nat
        } else {
            0
        })
    } else {
        padded(i as nat, 10, width)
    }
}

fn digit(d: u64) -> (c: char)
    requires
        d < 16,
    ensures
        c == digit_char(d as nat),
{
    if d < 10 {
        (48 + d) as u8 as char
    } else {
        (87 + d) as u8 as char
    }
}

/// Append `n` in the given base.
pub fn push_digits(out: &mut String, n: u64, base: u64)
    requires
        2 <= base <= 16,
    ensures
        final(out)@ == old(out)@ + digits(n as nat, base as nat),
    decreases n,
{
    if n < base {
        out.push(digit(n));
        assert(out@ =~= old(out)@ + digits(n as nat, base as nat));
    } else {
        assert(n / base < n) by (nonlinear_arith)
            requires
                2 <= base <= n,
        ;
        assert(0 <= n % base < base) by (nonlinear_arith)
            requires
                2 <= base,
        ;
        push_digits(out, n / base, base);
        out.push(digit(n % base));
        assert(out@ =~= old(out)@ + digits(n as nat, base as nat));
    }
}

/// Append `n` in decimal.
pub fn push_decimal(out: &mut String, n: u64)
    ensures
        final(out)@ == old(out)@ + decimal(n as nat),
{
    push_digits(out, n, 10);
}

fn magnitude(i: i64) -> (m: u64)
    requires
        i < 0,
    ensures
        m == -i,
{
    if i == i64::MIN {
        0x8000_0000_0000_0000
    } else {
        (-i) as u64
    }
}

/// Append `i` in decimal, signed.
pub fn push_signed(out: &mut String, i: i64)
    ensures
        final(out)@ == old(out)@ + signed(i as int),
{
    if i < 0 {
        out.push('-');
        push_decimal(out, magnitude(i));
        assert(out@ =~= old(out)@ + signed(i as int));
    } else {
        push_decimal(out, i as u64);
    }
}

/// Append `n` in the given base, zero-filled to `width` digits.
pub fn push_padded(out: &mut String, n: u64, base: u64, width: u32)
    requires
        2 <= base <= 16,
    ensures
        final(out)@ == old(out)@ + padded(n as nat, base as nat, width as nat),
    decreases width,
{
    if width <= 1 {
        push_digits(out, n, base);
    } else {
        assert(0 <= n % base < base) by (nonlinear_arith)
            requires
                2 <= base,
        ;
        push_padded(out, n / base, base, width - 1);
        out.push(digit(n % base));
        assert(out@ =~= old(out)@ + padded(n as nat, base as nat, width as nat));
    }
}

/// Append `i` in decimal, zero-filled after the sign to `width` characters.
pub fn push_signed_padded(out: &mut String, i: i64, width: u32)
    requires
        width > 0,
    ensures
        final(out)@ == old(out)@ + signed_padded(i as int, width as nat),
{
    if i < 0 {
        out.push('-');
        push_padded(out, magnitude(i), 10, width - 1);
        assert(out@ =~= old(out)@ + signed_padded(i as int, width as nat));
    } else {
        push_padded(out, i as u64, 10, width);
    }
}

/// `i` as a string of its own.
pub fn signed_string(i: i64) -> (s: String)
    ensures
        s@ == signed(i as int),
{
    let mut s: String = String::new();
    push_signed(&mut s, i);
    assert(s@ =~= signed(i as int));
    s
}

/// Append a string.
pub fn push_str(out: &mut String, s: &str)
    ensures
        final(out)@ == old(out)@ + s@,
{
    out.append(s);
}

// ---------------------------------------------------------------------------
// Reading.

/// The value of a digit character in the given base, where it has one. Both
/// cases of a letter count.
pub open spec fn digit_value(c: char, base: nat) -> Option<nat> {
    let v = if '0' <= c && c <= '9' {
        (c as int - 48) as nat
    } else if 'a' <= c && c <= 'z' {
        (c as int - 87) as nat
    } else if 'A' <= c && c <= 'Z' {
        (c as int - 55) as nat
    } else {
        base
    };
    if v < base {
        Some(v)
    } else {
        None
    }
}

/// Whether every character is a digit of the base.
pub open spec fn all_digits(s: Seq<char>, base: nat) -> bool {
    forall|i: int| 0 <= i < s.len() ==> digit_value(#[trigger] s[i], base) is Some
}

/// The number a run of digits denotes.
pub open spec fn digits_value(s: Seq<char>, base: nat) -> nat
    decreases s.len(),
{
    if s.len() == 0 {
        0
    } else {
        digits_value(s.drop_last(), base) * base + digit_value(s.last(), base).unwrap_or(0)
    }
}

/// A run of digits that denotes a number no larger than `max`.
pub open spec fn parse_digits(s: Seq<char>, base: nat, max: nat) -> Option<nat> {
    if s.len() > 0 && all_digits(s, base) && digits_value(s, base) <= max {
        Some(digits_value(s, base))
    } else {
        None
    }
}

/// Text that reads as an unsigned number of at most `max`: digits, with an
/// optional plus sign in front.
pub open spec fn parse_unsigned(s: Seq<char>, base: nat, max: nat) -> Option<nat> {
    if s.len() > 0 && s[0] == '+' {
        parse_digits(s.skip(1), base, max)
    } else {
        parse_digits(s, base, max)
    }
}

/// Text that reads as a signed 64-bit number.
pub open spec fn parse_signed(s: Seq<char>) -> Option<int> {
    if s.len() > 0 && s[0] == '-' {
        match parse_digits(s.skip(1), 10, 0x8000_0000_0000_0000) {
            Some(n) => Some(-(n as int)),
            None => None,
        }
    } else {
        match parse_unsigned(s, 10, 0x7fff_ffff_ffff_ffff) {
            Some(n) => Some(n as int),
            None => None,
        }
    }
}

/// The characters of a string.
pub fn chars_of(s: &str) -> (v: Vec<char>)
    ensures
        v@ == s@,
{
    let mut v: Vec<char> = Vec::new();
    for c in it: s.chars()
        invariant
            it.seq() == s@,
            v@ == s@.take(it.index()),
    {
        v.push(c);
        assert(v@ =~= s@.take(it.index() + 1));
    }
    assert(v@ =~= s@);
    v
}

fn read_digit(c: char, base: u64) -> (r: Option<u64>)
    requires
        base <= 16,
    ensures
        r is Some <==> digit_value(c, base as nat) is Some,
        r matches Some(d) ==> d < base && digit_value(c, base as nat) == Some(d as nat),
{
    let u = c as u32 as u64;
    let d: u64 = if u >= 48 && u <= 57 {
        u - 48
    } else if u >= 97 && u <= 122 {
        u - 87
    } else if u >= 65 && u <= 90 {
        u - 55
    } else {
        base
    };
    if d < base {
        Some(d)
    } else {
        None
    }
}

proof fn lemma_digits_value_grows(s: Seq<char>, k: int, base: nat)
    requires
        0 <= k <= s.len(),
        base >= 1,
    ensures
        digits_value(s.take(k), base) <= digits_value(s, base),
    decreases s.len(),
{
    if k < s.len() {
        let t = s.drop_last();
        lemma_digits_value_grows(t, k, base);
        assert(t.take(k) =~= s.take(k));
        let v = digits_value(t, base);
        assert(v <= v * base) by (nonlinear_arith)
            requires
                base >= 1,
        ;
    } else {
        assert(s.take(k) =~= s);
    }
}

/// Read the characters `[from, to)` as digits denoting at most `max`.
pub fn read_digits(s: &[char], from: usize, to: usize, base: u64, max: u64) -> (r: Option<u64>)
    requires
        from <= to <= s@.len(),
        2 <= base <= 16,
    ensures
        r is Some <==> parse_digits(s@.subrange(from as int, to as int), base as nat, max as nat) is Some,
        r matches Some(n) ==> parse_digits(
            s@.subrange(from as int, to as int),
            base as nat,
            max as nat,
        ) == Some(n as nat),
{
    let ghost t = s@.subrange(from as int, to as int);
    if from == to {
        return None;
    }
    let mut n: u64 = 0;
    let mut i: usize = from;
    while i < to
        invariant
            from <= i <= to <= s@.len(),
            from < to,
            2 <= base <= 16,
            t == s@.subrange(from as int, to as int),
            n == digits_value(t.take(i - from), base as nat),
            n <= max,
            forall|k: int| 0 <= k < i - from ==> digit_value(#[trigger] t[k], base as nat) is Some,
        decreases to - i,
    {
        let ghost k = i - from;
        assert(t[k] == s@[i as int]);
        assert(t.take(k + 1).drop_last() =~= t.take(k));
        proof {
            lemma_digits_value_grows(t, k + 1, base as nat);
        }
        let d: u64 = match read_digit(s[i], base) {
            Some(d) => d,
            None => {
                return None;
            },
        };
        assert(digits_value(t.take(k + 1), base as nat) == n * base + d);
        assert((n as u128) * (base as u128) + (d as u128) <= 0xffff_ffff_ffff_ffff_ffff)
            by (nonlinear_arith)
            requires
                n <= 0xffff_ffff_ffff_ffff,
                base <= 16,
                d < base,
        ;
        let wide: u128 = (n as u128) * (base as u128) + (d as u128);
        if wide > max as u128 {
            return None;
        }
        n = wide as u64;
        i = i + 1;
    }
    assert(t.take(t.len() as int) =~= t);
    Some(n)
}

/// Read the characters `[from, to)` as an unsigned number of at most `max`.
pub fn read_unsigned(s: &[char], from: usize, to: usize, base: u64, max: u64) -> (r: Option<u64>)
    requires
        from <= to <= s@.len(),
        2 <= base <= 16,
    ensures
        r is Some <==> parse_unsigned(s@.subrange(from as int, to as int), base as nat, max as nat) is Some,
        r matches Some(n) ==> parse_unsigned(
            s@.subrange(from as int, to as int),
            base as nat,
            max as nat,
        ) == Some(n as nat),
{
    let ghost t = s@.subrange(from as int, to as int);
    if from < to && s[from] == '+' {
        assert(t.skip(1) =~= s@.subrange(from + 1, to as int));
        read_digits(s, from + 1, to, base, max)
    } else {
        read_digits(s, from, to, base, max)
    }
}

/// Read the characters `[from, to)` as a signed 64-bit number.
pub fn read_signed(s: &[char], from: usize, to: usize) -> (r: Option<i64>)
    requires
        from <= to <= s@.len(),
    ensures
        r is Some <==> parse_signed(s@.subrange(from as int, to as int)) is Some,
        r matches Some(n) ==> parse_signed(s@.subrange(from as int, to as int)) == Some(n as int),
{
    let ghost t = s@.subrange(from as int, to as int);
    if from < to && s[from] == '-' {
        assert(t.skip(1) =~= s@.subrange(from + 1, to as int));
        match read_digits(s, from + 1, to, 10, 0x8000_0000_0000_0000) {
            Some(n) => if n == 0x8000_0000_0000_0000 {
                Some(i64::MIN)
            } else {
                Some(-(n as i64))
            },
            None => None,
        }
    } else {
        match read_unsigned(s, from, to, 10, 0x7fff_ffff_ffff_ffff) {
            Some(n) => Some(n as i64),
            None => None,
        }
    }
}

// ---------------------------------------------------------------------------
// What is written reads back.

/// A digit character denotes the digit it was written for.
pub proof fn lemma_digit_round_trip(d: nat, base: nat)
    requires
        d < base <= 16,
    ensures
        digit_value(digit_char(d), base) == Some(d),
{
}

/// Digits written without padding denote the number they were written for.
pub proof fn lemma_digits_round_trip(n: nat, base: nat)
    requires
        2 <= base <= 16,
    ensures
        digits(n, base).len() > 0,
        all_digits(digits(n, base), base),
        digits_value(digits(n, base), base) == n,
    decreases n,
{
    let s = digits(n, base);
    if n < base {
        lemma_digit_round_trip(n, base);
        assert(s.drop_last() =~= Seq::<char>::empty());
        assert(digits_value(s.drop_last(), base) == 0);
        assert(0 * base == 0) by (nonlinear_arith);
    } else {
        assert(n / base < n && n % base < base && n == (n / base) * base + n % base)
            by (nonlinear_arith)
            requires
                2 <= base <= n,
        ;
        lemma_digits_round_trip(n / base, base);
        lemma_digit_round_trip(n % base, base);
        assert(s.drop_last() =~= digits(n / base, base));
        assert forall|i: int| 0 <= i < s.len() implies digit_value(#[trigger] s[i], base) is Some by {
            if i < s.len() - 1 {
                assert(s[i] == digits(n / base, base)[i]);
            }
        }
    }
}

/// Digits written with padding denote the number they were written for.
pub proof fn lemma_padded_round_trip(n: nat, base: nat, width: nat)
    requires
        2 <= base <= 16,
    ensures
        padded(n, base, width).len() > 0,
        padded(n, base, width).len() >= width,
        all_digits(padded(n, base, width), base),
        digits_value(padded(n, base, width), base) == n,
    decreases width,
{
    let s = padded(n, base, width);
    if width <= 1 {
        lemma_digits_round_trip(n, base);
    } else {
        assert(n % base < base && n == (n / base) * base + n % base) by (nonlinear_arith)
            requires
                2 <= base,
        ;
        lemma_padded_round_trip(n / base, base, (width - 1) as nat);
        lemma_digit_round_trip(n % base, base);
        assert(s.drop_last() =~= padded(n / base, base, (width - 1) as nat));
        assert forall|i: int| 0 <= i < s.len() implies digit_value(#[trigger] s[i], base) is Some by {
            if i < s.len() - 1 {
                assert(s[i] == padded(n / base, base, (width - 1) as nat)[i]);
            }
        }
    }
}

/// A signed number in decimal reads back as itself.
pub proof fn lemma_signed_round_trip(i: int)
    requires
        i64::MIN <= i <= i64::MAX,
    ensures
        parse_signed(signed(i)) == Some(i),
{
    let s = signed(i);
    if i < 0 {
        lemma_digits_round_trip((-i) as nat, 10);
        assert(s.skip(1) =~= decimal((-i) as nat));
    } else {
        lemma_digits_round_trip(i as nat, 10);
        assert(digit_value(s[0], 10) is Some);
    }
}

/// An unsigned number in decimal reads back as itself, wherever it is allowed.
pub proof fn lemma_decimal_round_trip(n: nat, max: nat)
    requires
        n <= max,
    ensures
        parse_unsigned(decimal(n), 10, max) == Some(n),
        parse_digits(decimal(n), 10, max) == Some(n),
{
    lemma_digits_round_trip(n, 10);
    assert(digit_value(decimal(n)[0], 10) is Some);
}

// ---------------------------------------------------------------------------
// Fields between separators.

/// How many characters stand before the first separator.
pub open spec fn field_len(s: Seq<char>, sep: char) -> nat
    decreases s.len(),
{
    if s.len() == 0 || s[0] == sep {
        0
    } else {
        1 + field_len(s.skip(1), sep)
    }
}

/// What stands after the first separator, where there is one.
pub open spec fn after_field(s: Seq<char>, sep: char) -> Option<Seq<char>> {
    if field_len(s, sep) < s.len() {
        Some(s.skip(field_len(s, sep) as int + 1))
    } else {
        None
    }
}

/// What stands before the first separator.
pub open spec fn field_of(s: Seq<char>, sep: char) -> Seq<char> {
    s.take(field_len(s, sep) as int)
}

/// The end of the field that starts at `from`.
pub fn field_end(c: &[char], from: usize, sep: char) -> (end: usize)
    requires
        from <= c@.len(),
    ensures
        from <= end <= c@.len(),
        end - from == field_len(c@.skip(from as int), sep),
{
    let mut i: usize = from;
    while i < c.len() && c[i] != sep
        invariant
            from <= i <= c@.len(),
            i - from + field_len(c@.skip(i as int), sep) == field_len(c@.skip(from as int), sep),
        decreases c@.len() - i,
    {
        assert(c@.skip(i as int)[0] == c@[i as int]);
        assert(c@.skip(i as int).skip(1) =~= c@.skip(i + 1));
        i = i + 1;
    }
    if i < c.len() {
        assert(c@.skip(i as int)[0] == c@[i as int]);
    }
    i
}

/// A field followed by a separator or by nothing is read whole.
pub proof fn lemma_field_len_of(f: Seq<char>, rest: Seq<char>, sep: char)
    requires
        forall|i: int| 0 <= i < f.len() ==> f[i] != sep,
        rest.len() > 0 ==> rest[0] == sep,
    ensures
        field_len(f + rest, sep) == f.len(),
        field_of(f + rest, sep) == f,
        rest.len() > 0 ==> after_field(f + rest, sep) == Some(rest.skip(1)),
        rest.len() == 0 ==> after_field(f + rest, sep) is None,
    decreases f.len(),
{
    let s = f + rest;
    if f.len() > 0 {
        assert(s.skip(1) =~= f.skip(1) + rest);
        lemma_field_len_of(f.skip(1), rest, sep);
    } else {
        assert(s =~= rest);
    }
    assert(s.take(f.len() as int) =~= f);
    if rest.len() > 0 {
        assert(s.skip(f.len() as int + 1) =~= rest.skip(1));
    }
}

/// A separator that is no digit does not stand among digits.
pub proof fn lemma_digits_without(s: Seq<char>, base: nat, sep: char)
    requires
        all_digits(s, base),
        digit_value(sep, base) is None,
    ensures
        forall|i: int| 0 <= i < s.len() ==> s[i] != sep,
{
    assert forall|i: int| 0 <= i < s.len() implies s[i] != sep by {
        assert(digit_value(s[i], base) is Some);
    }
}

} // verus!
