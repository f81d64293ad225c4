//! A JSON writer.
//!
//! The nesting methods take a closure per container, so brackets cannot be
//! unbalanced and commas cannot be missed: there is no closing call to forget.

use crate::float::Floats;
use crate::text::{decimal, digit_char, push_decimal, push_signed, push_str, signed};
use vstd::prelude::*;

verus! {

/// What a writer has written: the text so far, and whether the next value
/// needs a comma in front of it.
pub struct Doc {
    pub text: Seq<char>,
    pub comma: bool,
}

/// One character of a string, as RFC 8259 has it escaped: the quote, the
/// backslash and the control characters below U+0020, the common ones by name.
pub open spec fn escaped_char(c: char) -> Seq<char> {
    if c == '"' {
        seq!['\\', '"']
    } else if c == '\\' {
        seq!['\\', '\\']
    } else if c == '\n' {
        seq!['\\', 'n']
    } else if c == '\r' {
        seq!['\\', 'r']
    } else if c == '\t' {
        seq!['\\', 't']
    } else if c == '\u{08}' {
        seq!['\\', 'b']
    } else if c == '\u{0c}' {
        seq!['\\', 'f']
    } else if (c as u32) < 0x20 {
        seq!['\\', 'u', '0', '0', digit_char((c as u32 / 16) as nat), digit_char((c as u32 % 16) as nat)]
    } else {
        seq![c]
    }
}

/// The characters of a string, escaped.
pub open spec fn escaped(s: Seq<char>) -> Seq<char>
    decreases s.len(),
{
    if s.len() == 0 {
        Seq::empty()
    } else {
        escaped(s.drop_last()) + escaped_char(s.last())
    }
}

/// A string literal.
pub open spec fn quoted(s: Seq<char>) -> Seq<char> {
    seq!['"'] + escaped(s) + seq!['"']
}

/// Two lowercase hexadecimal digits for each byte.
pub open spec fn hex_of(bytes: Seq<u8>) -> Seq<char>
    decreases bytes.len(),
{
    if bytes.len() == 0 {
        Seq::empty()
    } else {
        hex_of(bytes.drop_last()) + seq![
            digit_char((bytes.last() / 16) as nat),
            digit_char((bytes.last() % 16) as nat),
        ]
    }
}

impl Doc {
    /// A document with nothing in it.
    pub open spec fn empty() -> Doc {
        Doc { text: Seq::empty(), comma: false }
    }

    /// What stands before a value: a comma, where one is due.
    pub open spec fn lead(self) -> Seq<char> {
        if self.comma {
            self.text + seq![',']
        } else {
            self.text
        }
    }

    /// A value, given as it is written.
    pub open spec fn value(self, v: Seq<char>) -> Doc {
        Doc { text: self.lead() + v, comma: true }
    }

    /// The inside of a container that has just been opened.
    pub open spec fn enter(self, bracket: char) -> Doc {
        Doc { text: self.lead().push(bracket), comma: false }
    }

    /// The container closed again.
    pub open spec fn leave(self, bracket: char) -> Doc {
        Doc { text: self.text.push(bracket), comma: true }
    }

    /// A member name. The value that follows attaches to it.
    pub open spec fn key(self, k: Seq<char>) -> Doc {
        Doc { text: self.lead() + quoted(k) + seq![':'], comma: false }
    }

    /// A string.
    pub open spec fn str(self, s: Seq<char>) -> Doc {
        self.value(quoted(s))
    }

    /// A 64-bit integer, as the string of its digits.
    pub open spec fn digits_str(self, i: int) -> Doc {
        self.value(seq!['"'] + signed(i) + seq!['"'])
    }

    /// A run of bytes, as the string of its hexadecimal digits.
    pub open spec fn hex(self, bytes: Seq<u8>) -> Doc {
        self.value(seq!['"'] + hex_of(bytes) + seq!['"'])
    }

    /// A boolean.
    pub open spec fn bool(self, b: bool) -> Doc {
        self.value(if b {
            "true"@
        } else {
            "false"@
        })
    }

    /// A double, by its text; `null` where it has none.
    pub open spec fn double(self, bits: u64, floats: Floats) -> Doc {
        self.value(match floats.text_of(bits) {
            Some(t) => t,
            None => "null"@,
        })
    }

    /// A fragment written earlier. An empty one leaves no trace.
    pub open spec fn raw(self, fragment: Seq<char>) -> Doc {
        if fragment.len() == 0 {
            self
        } else {
            self.value(fragment)
        }
    }
}

/// Incrementally built JSON. `key` before a value inside `obj`, bare values
/// inside `arr`.
pub struct Json {
    buf: String,
    comma: bool,
}

impl View for Json {
    type V = Doc;

    closed spec fn view(&self) -> Doc {
        Doc { text: self.buf@, comma: self.comma }
    }
}

impl Default for Json {
    fn default() -> (j: Json)
        ensures
            j@ == Doc::empty(),
    {
        Json::new()
    }
}

impl Json {
    pub fn new() -> (j: Json)
        ensures
            j@ == Doc::empty(),
    {
        Json { buf: String::new(), comma: false }
    }

    /// The text.
    pub fn into_string(self) -> (s: String)
        ensures
            s@ == self@.text,
    {
        self.buf
    }

    fn sep(&mut self)
        ensures
            final(self)@ == (Doc { text: old(self)@.lead(), comma: true }),
    {
        if self.comma {
            self.buf.push(',');
        }
        self.comma = true;
        assert(self.buf@ =~= old(self)@.lead());
    }

    /// Open a container.
    pub(crate) fn enter(&mut self, bracket: char)
        ensures
            final(self)@ == old(self)@.enter(bracket),
    {
        self.sep();
        self.buf.push(bracket);
        self.comma = false;
    }

    /// Close the container opened last.
    pub(crate) fn leave(&mut self, bracket: char)
        ensures
            final(self)@ == old(self)@.leave(bracket),
    {
        self.buf.push(bracket);
        self.comma = true;
    }

    /// Write a `{...}`. Inside `f`, call [`key`](Self::key), then a value.
    pub fn obj<F: FnOnce(&mut Json)>(&mut self, f: F)
        requires
            forall|j: &mut Json|
                (*j)@ == old(self)@.enter('{') ==> #[trigger] call_requires(f, (j,)),
        ensures
            exists|j: &mut Json|
                {
                    &&& (*j)@ == old(self)@.enter('{')
                    &&& #[trigger] call_ensures(f, (j,), ())
                    &&& final(self)@ == (*final(j))@.leave('}')
                },
    {
        self.enter('{');
        f(self);
        self.leave('}');
    }

    /// Write a `[...]`.
    pub fn arr<F: FnOnce(&mut Json)>(&mut self, f: F)
        requires
            forall|j: &mut Json|
                (*j)@ == old(self)@.enter('[') ==> #[trigger] call_requires(f, (j,)),
        ensures
            exists|j: &mut Json|
                {
                    &&& (*j)@ == old(self)@.enter('[')
                    &&& #[trigger] call_ensures(f, (j,), ())
                    &&& final(self)@ == (*final(j))@.leave(']')
                },
    {
        self.enter('[');
        f(self);
        self.leave(']');
    }

    /// A member name. The value that follows attaches to it.
    pub fn key(&mut self, k: &str)
        ensures
            final(self)@ == old(self)@.key(k@),
    {
        self.sep();
        escape(&mut self.buf, k);
        self.buf.push(':');
        self.comma = false;
        assert(self.buf@ =~= old(self)@.key(k@).text);
    }

    pub fn str(&mut self, s: &str)
        ensures
            final(self)@ == old(self)@.str(s@),
    {
        self.sep();
        escape(&mut self.buf, s);
    }

    pub fn i64(&mut self, v: i64)
        ensures
            final(self)@ == old(self)@.value(signed(v as int)),
    {
        self.sep();
        push_signed(&mut self.buf, v);
    }

    pub fn u64(&mut self, v: u64)
        ensures
            final(self)@ == old(self)@.value(decimal(v as nat)),
    {
        self.sep();
        push_decimal(&mut self.buf, v);
    }

    /// A 64-bit integer as a JSON *string*, which is what OTLP/JSON says a
    /// 64-bit integer is: as a bare number a reader would round it to a double.
    pub fn i64_str(&mut self, v: i64)
        ensures
            final(self)@ == old(self)@.digits_str(v as int),
    {
        self.sep();
        self.buf.push('"');
        push_signed(&mut self.buf, v);
        self.buf.push('"');
        assert(self.buf@ =~= old(self)@.digits_str(v as int).text);
    }

    pub fn u64_str(&mut self, v: u64)
        ensures
            final(self)@ == old(self)@.digits_str(v as int),
    {
        self.sep();
        self.buf.push('"');
        push_decimal(&mut self.buf, v);
        self.buf.push('"');
        assert(self.buf@ =~= old(self)@.digits_str(v as int).text);
    }

    /// A double, given by its bits. Non-finite becomes `null`: JSON has no NaN
    /// or Infinity, and both turn up in real metrics.
    pub fn double(&mut self, bits: u64, floats: &Floats)
        ensures
            final(self)@ == old(self)@.double(bits, *floats),
    {
        self.sep();
        match floats.text(bits) {
            Some(t) => push_str(&mut self.buf, t.as_str()),
            None => push_str(&mut self.buf, "null"),
        }
    }

    pub fn bool(&mut self, v: bool)
        ensures
            final(self)@ == old(self)@.bool(v),
    {
        self.sep();
        push_str(&mut self.buf, if v {
            "true"
        } else {
            "false"
        });
    }

    pub fn null(&mut self)
        ensures
            final(self)@ == old(self)@.value("null"@),
    {
        self.sep();
        push_str(&mut self.buf, "null");
    }

    /// Splice in a fragment this writer produced earlier: a rendered value, or
    /// a run of members inside an object. Empty is a no-op, so a fragment that
    /// turned out to be empty cannot leave a stray comma.
    pub fn raw(&mut self, fragment: &str)
        ensures
            final(self)@ == old(self)@.raw(fragment@),
    {
        if fragment.is_empty() {
            return;
        }
        self.sep();
        push_str(&mut self.buf, fragment);
    }

    /// Lowercase hex of `bytes`, as one string.
    pub fn hex(&mut self, bytes: &[u8])
        ensures
            final(self)@ == old(self)@.hex(bytes@),
    {
        self.sep();
        self.buf.push('"');
        let ghost start = self.buf@;
        let mut i: usize = 0;
        assert(bytes@.take(0) =~= Seq::<u8>::empty());
        while i < bytes.len()
            invariant
                i <= bytes@.len(),
                self.comma,
                self.buf@ == start + hex_of(bytes@.take(i as int)),
            decreases bytes@.len() - i,
        {
            let b: u8 = bytes[i];
            self.buf.push(hex_digit(b / 16));
            self.buf.push(hex_digit(b % 16));
            assert(bytes@.take(i + 1).drop_last() =~= bytes@.take(i as int));
            assert(self.buf@ =~= start + hex_of(bytes@.take(i + 1)));
            i = i + 1;
        }
        assert(bytes@.take(i as int) =~= bytes@);
        self.buf.push('"');
        assert(self.buf@ =~= old(self)@.hex(bytes@).text);
    }
}

fn hex_digit(d: u8) -> (c: char)
    requires
        d < 16,
    ensures
        c == digit_char(d as nat),
{
    if d < 10 {
        (48 + d) as char
    } else {
        (87 + d) as char
    }
}

/// RFC 8259 string escaping, including the control characters below 0x20 that
/// must be escaped.
fn escape(out: &mut String, s: &str)
    ensures
        final(out)@ == old(out)@ + quoted(s@),
{
    out.push('"');
    let ghost start = out@;
    for c in it: s.chars()
        invariant
            it.seq() == s@,
            out@ == start + escaped(s@.take(it.index())),
    {
        let ghost i = it.index();
        assert(s@.take(i + 1).drop_last() =~= s@.take(i));
        escape_char(out, c);
        assert(out@ =~= start + escaped(s@.take(i + 1)));
    }
    assert(s@.take(s@.len() as int) =~= s@);
    out.push('"');
    assert(out@ =~= old(out)@ + quoted(s@));
}

fn escape_char(out: &mut String, c: char)
    ensures
        final(out)@ == old(out)@ + escaped_char(c),
{
    let u: u32 = c as u32;
    if c == '"' || c == '\\' {
        out.push('\\');
        out.push(c);
    } else if c == '\n' {
        out.push('\\');
        out.push('n');
    } else if c == '\r' {
        out.push('\\');
        out.push('r');
    } else if c == '\t' {
        out.push('\\');
        out.push('t');
    } else if c == '\u{08}' {
        out.push('\\');
        out.push('b');
    } else if c == '\u{0c}' {
        out.push('\\');
        out.push('f');
    } else if u < 0x20 {
        out.push('\\');
        out.push('u');
        out.push('0');
        out.push('0');
        out.push(hex_digit((u / 16) as u8));
        out.push(hex_digit((u % 16) as u8));
    } else {
        out.push(c);
    }
    assert(out@ =~= old(out)@ + escaped_char(c));
}

} // verus!
