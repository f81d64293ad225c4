//! What holds of text that is written and read back.

use crate::emit::{put, put_all, At};
use crate::filter::unhexed;
use crate::json::{escaped, escaped_char, hex_of};
use crate::order::{lemma_rank_bytes, lemma_utf8_injective, rank_bytes, utf8, Rank};
use crate::text::{all_digits, digit_char, digit_value, lemma_digit_round_trip};
use vstd::prelude::*;

verus! {

// ---------------------------------------------------------------------------
// Hexadecimal.

proof fn lemma_hex_pair(bytes: Seq<u8>, i: int)
    requires
        0 <= i < bytes.len(),
    ensures
        hex_of(bytes).len() == 2 * bytes.len(),
        hex_of(bytes)[2 * i] == digit_char((bytes[i] / 16) as nat),
        hex_of(bytes)[2 * i + 1] == digit_char((bytes[i] % 16) as nat),
    decreases bytes.len(),
{
    let t = bytes.drop_last();
    if t.len() > 0 {
        lemma_hex_pair(t, if i < t.len() {
            i
        } else {
            0
        });
    }
    assert(hex_of(t).len() == 2 * t.len());
}

/// Bytes written in hexadecimal read back as themselves.
pub proof fn law_hex_round_trip(bytes: Seq<u8>)
    ensures
        unhexed(hex_of(bytes)) == Some(bytes),
{
    let s = hex_of(bytes);
    if bytes.len() > 0 {
        lemma_hex_pair(bytes, 0);
    }
    assert forall|k: int| 0 <= k < s.len() implies digit_value(#[trigger] s[k], 16) is Some by {
        lemma_hex_pair(bytes, k / 2);
        lemma_digit_round_trip((bytes[k / 2] / 16) as nat, 16);
        lemma_digit_round_trip((bytes[k / 2] % 16) as nat, 16);
        assert(k == 2 * (k / 2) || k == 2 * (k / 2) + 1);
    }
    assert(all_digits(s, 16));
    let r = unhexed(s)->0;
    assert(r.len() == bytes.len());
    assert forall|i: int| 0 <= i < r.len() implies r[i] == bytes[i] by {
        lemma_hex_pair(bytes, i);
        lemma_digit_round_trip((bytes[i] / 16) as nat, 16);
        lemma_digit_round_trip((bytes[i] % 16) as nat, 16);
    }
    assert(r =~= bytes);
}

// ---------------------------------------------------------------------------
// JSON strings.

/// What one escape or plain character at the start of a text stands for, and
/// how long it is.
pub open spec fn unescaped_char(s: Seq<char>) -> Option<(char, nat)> {
    if s.len() == 0 {
        None
    } else if s[0] != '\\' {
        Some((s[0], 1))
    } else if s.len() < 2 {
        None
    } else if s[1] == '"' || s[1] == '\\' {
        Some((s[1], 2))
    } else if s[1] == 'n' {
        Some(('\n', 2))
    } else if s[1] == 'r' {
        Some(('\r', 2))
    } else if s[1] == 't' {
        Some(('\t', 2))
    } else if s[1] == 'b' {
        Some(('\u{08}', 2))
    } else if s[1] == 'f' {
        Some(('\u{0c}', 2))
    } else if s[1] == 'u' && s.len() >= 6 && s[2] == '0' && s[3] == '0' {
        match (digit_value(s[4], 16), digit_value(s[5], 16)) {
            (Some(a), Some(b)) => Some(((a * 16 + b) as char, 6)),
            _ => None,
        }
    } else {
        None
    }
}

/// What a string literal's characters stand for.
pub open spec fn unescaped(s: Seq<char>) -> Option<Seq<char>>
    decreases s.len(),
{
    if s.len() == 0 {
        Some(Seq::empty())
    } else {
        match unescaped_char(s) {
            None => None,
            Some((c, n)) => if 0 < n <= s.len() {
                match unescaped(s.skip(n as int)) {
                    Some(rest) => Some(seq![c] + rest),
                    None => None,
                }
            } else {
                None
            },
        }
    }
}

proof fn lemma_one(c: char, rest: Seq<char>)
    ensures
        ({
            let s = escaped_char(c) + rest;
            unescaped_char(s) == Some((c, escaped_char(c).len())) && escaped_char(c).len() > 0
                && s.skip(escaped_char(c).len() as int) == rest
        }),
{
    let e = escaped_char(c);
    let s = e + rest;
    assert(s.skip(e.len() as int) =~= rest);
    assert(s[0] == e[0]);
    if e.len() > 1 {
        assert(s[1] == e[1]);
    }
    if e.len() == 6 {
        assert(s[2] == e[2] && s[3] == e[3] && s[4] == e[4] && s[5] == e[5]);
        lemma_digit_round_trip((c as u32 / 16) as nat, 16);
        lemma_digit_round_trip((c as u32 % 16) as nat, 16);
    }
}

proof fn lemma_escaped_front(s: Seq<char>)
    requires
        s.len() > 0,
    ensures
        escaped(s) == escaped_char(s[0]) + escaped(s.skip(1)),
    decreases s.len(),
{
    if s.len() == 1 {
        assert(s.drop_last() =~= Seq::<char>::empty());
        assert(s.skip(1) =~= Seq::<char>::empty());
        assert(escaped(s) =~= escaped_char(s[0]) + escaped(s.skip(1)));
    } else {
        let t = s.drop_last();
        lemma_escaped_front(t);
        assert(t.skip(1) =~= s.skip(1).drop_last());
        assert(s.skip(1).last() == s.last());
        assert(escaped(s) =~= escaped_char(s[0]) + escaped(s.skip(1)));
    }
}

/// A text written as a string literal reads back as itself.
pub proof fn law_strings_survive(s: Seq<char>)
    ensures
        unescaped(escaped(s)) == Some(s),
    decreases s.len(),
{
    if s.len() > 0 {
        let rest = s.skip(1);
        lemma_escaped_front(s);
        law_strings_survive(rest);
        lemma_one(s[0], escaped(rest));
        assert(seq![s[0]] + rest =~= s);
    }
}

/// No text breaks out of its string literal: what is written holds no control
/// character, and every quote in it is behind a backslash.
pub proof fn law_strings_stay_inside(s: Seq<char>, i: int)
    requires
        0 <= i < escaped(s).len(),
    ensures
        escaped(s)[i] as u32 >= 0x20,
        escaped(s)[i] == '"' ==> i > 0 && escaped(s)[i - 1] == '\\',
    decreases s.len(),
{
    let before = escaped(s.drop_last());
    let e = escaped_char(s.last());
    if i < before.len() {
        law_strings_stay_inside(s.drop_last(), i);
    } else {
        assert(escaped(s)[i] == e[i - before.len()]);
        if e.len() == 6 {
            lemma_digit_round_trip((s.last() as u32 / 16) as nat, 16);
            lemma_digit_round_trip((s.last() as u32 % 16) as nat, 16);
        }
    }
}

// ---------------------------------------------------------------------------
// Merged attributes.

/// Attributes in order of their keys, no key twice.
pub open spec fn keys_ascend(s: Seq<At>) -> bool {
    forall|i: int, j: int|
        0 <= i < j < s.len() ==> rank_bytes(
            utf8((#[trigger] s[i]).key()),
            utf8((#[trigger] s[j]).key()),
        ) == Rank::Less
}

/// The attribute with a key.
pub open spec fn with_key(s: Seq<At>, key: Seq<char>) -> Option<At>
    decreases s.len(),
{
    if s.len() == 0 {
        None
    } else if s[0].key() == key {
        Some(s[0])
    } else {
        with_key(s.skip(1), key)
    }
}

proof fn lemma_put_bound(s: Seq<At>, e: At, low: Seq<u8>)
    requires
        rank_bytes(low, utf8(e.key())) == Rank::Less,
        forall|j: int|
            0 <= j < s.len() ==> rank_bytes(low, utf8((#[trigger] s[j]).key())) == Rank::Less,
    ensures
        forall|j: int|
            0 <= j < put(s, e).len() ==> rank_bytes(low, utf8((#[trigger] put(s, e)[j]).key()))
                == Rank::Less,
    decreases s.len(),
{
    let w = put(s, e);
    if s.len() > 0 {
        let t = s.skip(1);
        assert forall|j: int| 0 <= j < t.len() implies rank_bytes(low, utf8((#[trigger] t[j]).key()))
            == Rank::Less by {
            assert(t[j] == s[j + 1]);
        }
        lemma_put_bound(t, e, low);
        let u = put(t, e);
        assert forall|j: int| 0 <= j < w.len() implies rank_bytes(
            low,
            utf8((#[trigger] w[j]).key()),
        ) == Rank::Less by {
            match rank_bytes(utf8(e.key()), utf8(s[0].key())) {
                Rank::Less => {
                    if j > 0 {
                        assert(w[j] == s[j - 1]);
                    }
                },
                Rank::Equal => {
                    if j > 0 {
                        assert(w[j] == s[j]);
                    }
                },
                Rank::Greater => {
                    if j > 0 {
                        assert(w[j] == u[j - 1]);
                    } else {
                        assert(w[0] == s[0]);
                    }
                },
            }
        }
    }
}

/// Putting an attribute among others keeps their keys in order and apart; it
/// then stands under its key, and every other key has what it had.
#[verifier::spinoff_prover]
#[verifier::rlimit(60)]
pub proof fn law_the_last_attribute_put_wins(s: Seq<At>, e: At, key: Seq<char>)
    requires
        keys_ascend(s),
    ensures
        keys_ascend(put(s, e)),
        with_key(put(s, e), key) == if key == e.key() {
            Some(e)
        } else {
            with_key(s, key)
        },
    decreases s.len(),
{
    let w = put(s, e);
    if s.len() == 0 {
        assert(w.skip(1) =~= Seq::<At>::empty());
    } else {
        let t = s.skip(1);
        let (a, b) = (utf8(e.key()), utf8(s[0].key()));
        lemma_rank_bytes(a, b, b);
        lemma_rank_bytes(b, a, b);
        lemma_utf8_injective(e.key(), s[0].key());
        assert(keys_ascend(t)) by {
            assert forall|i: int, j: int| 0 <= i < j < t.len() implies rank_bytes(
                utf8((#[trigger] t[i]).key()),
                utf8((#[trigger] t[j]).key()),
            ) == Rank::Less by {
                assert(t[i] == s[i + 1] && t[j] == s[j + 1]);
            }
        }
        match rank_bytes(a, b) {
            Rank::Less => {
                assert(w.skip(1) =~= s);
                assert forall|i: int, j: int| 0 <= i < j < w.len() implies rank_bytes(
                    utf8((#[trigger] w[i]).key()),
                    utf8((#[trigger] w[j]).key()),
                ) == Rank::Less by {
                    assert(w[j] == s[j - 1]);
                    if i == 0 {
                        if j > 1 {
                            lemma_rank_bytes(a, b, utf8(s[j - 1].key()));
                        }
                    } else {
                        assert(w[i] == s[i - 1]);
                    }
                }
            },
            Rank::Equal => {
                assert(w.skip(1) =~= t);
                assert forall|i: int, j: int| 0 <= i < j < w.len() implies rank_bytes(
                    utf8((#[trigger] w[i]).key()),
                    utf8((#[trigger] w[j]).key()),
                ) == Rank::Less by {
                    assert(w[j] == s[j]);
                    if i > 0 {
                        assert(w[i] == s[i]);
                    } else {
                        assert(s[0].key() == e.key());
                    }
                }
            },
            Rank::Greater => {
                let u = put(t, e);
                law_the_last_attribute_put_wins(t, e, key);
                assert(w.skip(1) =~= u);
                assert(w[0] == s[0]);
                assert forall|j: int| 0 <= j < t.len() implies rank_bytes(
                    b,
                    utf8((#[trigger] t[j]).key()),
                ) == Rank::Less by {
                    assert(t[j] == s[j + 1]);
                }
                lemma_put_bound(t, e, b);
                assert forall|i: int, j: int| 0 <= i < j < w.len() implies rank_bytes(
                    utf8((#[trigger] w[i]).key()),
                    utf8((#[trigger] w[j]).key()),
                ) == Rank::Less by {
                    assert(w[j] == u[j - 1]);
                    if i > 0 {
                        assert(w[i] == u[i - 1]);
                    }
                }
            },
        }
    }
}

/// The last of some attributes with a key.
pub open spec fn last_with_key(es: Seq<At>, key: Seq<char>) -> Option<At>
    decreases es.len(),
{
    if es.len() == 0 {
        None
    } else if es.last().key() == key {
        Some(es.last())
    } else {
        last_with_key(es.drop_last(), key)
    }
}

/// Where a level is merged over others, its own attributes win: the merged row
/// has every key once, in order, with the level's value where it has one and
/// the value from below where it does not.
pub proof fn law_the_most_specific_level_wins(s: Seq<At>, es: Seq<At>, key: Seq<char>)
    requires
        keys_ascend(s),
    ensures
        keys_ascend(put_all(s, es)),
        with_key(put_all(s, es), key) == match last_with_key(es, key) {
            Some(e) => Some(e),
            None => with_key(s, key),
        },
    decreases es.len(),
{
    if es.len() > 0 {
        law_the_most_specific_level_wins(s, es.drop_last(), key);
        law_the_last_attribute_put_wins(put_all(s, es.drop_last()), es.last(), key);
    }
}

} // verus!
