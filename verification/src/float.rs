//! Doubles, held as their IEEE 754 bits.
//!
//! The engine stores doubles, compares them and asks whether they are whole,
//! all of which their bits answer. Two things they do not: the shortest text
//! that denotes a double, and the double a text denotes. Whoever holds a
//! floating-point unit computes those and hands them in as [`Floats`].

use crate::index::ByteIndex;
use crate::order::{lemma_utf8_injective, utf8, Rank};
use std::collections::HashMap;
use vstd::arithmetic::power2::pow2;
use vstd::prelude::*;

verus! {

broadcast use vstd::std_specs::hash::group_hash_axioms;

/// The weight of the sign bit.
pub const SIGN: u64 = 0x8000_0000_0000_0000;

/// The bits of positive infinity. Above it, sign aside, is not a number.
pub const INFINITY: u64 = 0x7ff0_0000_0000_0000;

/// The weight of the lowest exponent bit.
pub const EXPONENT: u64 = 0x0010_0000_0000_0000;

/// The bits without the sign.
pub open spec fn magnitude(bits: u64) -> int {
    bits as int % SIGN as int
}

/// Neither infinite nor not a number.
pub open spec fn is_finite(bits: u64) -> bool {
    magnitude(bits) < INFINITY
}

/// Not a number.
pub open spec fn is_nan(bits: u64) -> bool {
    magnitude(bits) > INFINITY
}

/// A number that orders as the doubles themselves do, both zeros alike.
pub open spec fn order_key(bits: u64) -> int {
    if bits >= SIGN {
        -magnitude(bits)
    } else {
        magnitude(bits)
    }
}

/// How one double stands to another; `None` where either is not a number.
pub open spec fn rank_double(a: u64, b: u64) -> Option<Rank> {
    if is_nan(a) || is_nan(b) {
        None
    } else {
        Some(crate::order::rank_of(order_key(a), order_key(b)))
    }
}

/// The significand of a finite double, an integer.
pub open spec fn significand(bits: u64) -> nat {
    let m = magnitude(bits);
    if m < EXPONENT {
        m as nat
    } else {
        (m % EXPONENT as int + EXPONENT) as nat
    }
}

/// The power of two its significand is scaled by.
pub open spec fn scale(bits: u64) -> int {
    let m = magnitude(bits);
    if m < EXPONENT {
        -1074
    } else {
        m / EXPONENT as int - 1075
    }
}

/// The absolute value of a double that is a whole number.
pub open spec fn whole_magnitude(bits: u64) -> Option<nat> {
    if !is_finite(bits) {
        None
    } else if scale(bits) >= 0 {
        Some(significand(bits) * pow2(scale(bits) as nat))
    } else if significand(bits) % pow2((-scale(bits)) as nat) == 0 {
        Some(significand(bits) / pow2((-scale(bits)) as nat))
    } else {
        None
    }
}

/// A whole double as a 64-bit integer, at the end of the range where it lies
/// beyond it. `None` for a double with a fraction, an infinity or not a
/// number.
pub open spec fn whole_i64(bits: u64) -> Option<int> {
    match whole_magnitude(bits) {
        None => None,
        Some(m) => Some(
            if bits >= SIGN {
                if m > 0x8000_0000_0000_0000 {
                    i64::MIN as int
                } else {
                    -(m as int)
                }
            } else {
                if m > 0x7fff_ffff_ffff_ffff {
                    i64::MAX as int
                } else {
                    m as int
                }
            },
        ),
    }
}

/// Whether a double is finite.
pub fn finite(bits: u64) -> (r: bool)
    ensures
        r == is_finite(bits),
{
    bits % SIGN < INFINITY
}

/// Compare two doubles.
pub fn compare_doubles(a: u64, b: u64) -> (r: Option<Rank>)
    ensures
        r == rank_double(a, b),
{
    let x: u64 = a % SIGN;
    let y: u64 = b % SIGN;
    if x > INFINITY || y > INFINITY {
        return None;
    }
    let i: i64 = if a >= SIGN {
        -(x as i64)
    } else {
        x as i64
    };
    let j: i64 = if b >= SIGN {
        -(y as i64)
    } else {
        y as i64
    };
    Some(crate::order::rank_i64(i, j))
}

fn power_of_two(k: u32) -> (r: u64)
    requires
        k <= 62,
    ensures
        r == pow2(k as nat),
    decreases k,
{
    if k == 0 {
        proof {
            vstd::arithmetic::power2::lemma2_to64();
        }
        1
    } else {
        let half: u64 = power_of_two(k - 1);
        proof {
            vstd::arithmetic::power2::lemma_pow2_unfold(k as nat);
            vstd::arithmetic::power2::lemma2_to64_rest();
            if k < 62 {
                vstd::arithmetic::power2::lemma_pow2_strictly_increases(k as nat, 62);
            }
        }
        half * 2
    }
}

proof fn lemma_pow2_small(m: nat, k: nat)
    requires
        m < 0x20_0000_0000_0000,
        k >= 53,
    ensures
        m < pow2(k),
        m % pow2(k) == m,
        m / pow2(k) == 0,
{
    vstd::arithmetic::power2::lemma2_to64();
    assert(pow2(53) == 0x20_0000_0000_0000) by {
        vstd::arithmetic::power2::lemma2_to64_rest();
    }
    if k > 53 {
        vstd::arithmetic::power2::lemma_pow2_strictly_increases(53, k);
    }
    vstd::arithmetic::div_mod::lemma_small_mod(m, pow2(k));
    vstd::arithmetic::div_mod::lemma_basic_div(m as int, pow2(k) as int);
}

proof fn lemma_pow2_large(m: nat, k: nat)
    requires
        m >= 0x10_0000_0000_0000,
        k >= 11,
    ensures
        m * pow2(k) >= 0x8000_0000_0000_0000,
{
    vstd::arithmetic::power2::lemma2_to64();
    if k > 11 {
        vstd::arithmetic::power2::lemma_pow2_strictly_increases(11, k);
    }
    assert(pow2(11) == 2048);
    assert(m * pow2(k) >= 0x10_0000_0000_0000 * 2048) by (nonlinear_arith)
        requires
            m >= 0x10_0000_0000_0000,
            pow2(k) >= 2048,
    ;
}

/// A whole double as a 64-bit integer.
pub fn to_whole(bits: u64) -> (r: Option<i64>)
    ensures
        r is Some <==> whole_i64(bits) is Some,
        r matches Some(i) ==> whole_i64(bits) == Some(i as int),
{
    let m: u64 = bits % SIGN;
    if m >= INFINITY {
        return None;
    }
    let sig: u64;
    let exp: i64;
    if m < EXPONENT {
        sig = m;
        exp = -1074;
    } else {
        sig = m % EXPONENT + EXPONENT;
        exp = (m / EXPONENT) as i64 - 1075;
    }
    assert(sig == significand(bits) && exp == scale(bits));
    let abs: u64 = if exp >= 11 {
        proof {
            lemma_pow2_large(sig as nat, exp as nat);
        }
        SIGN
    } else if exp >= 0 {
        let p: u64 = power_of_two(exp as u32);
        proof {
            vstd::arithmetic::power2::lemma2_to64();
            if exp < 10 {
                vstd::arithmetic::power2::lemma_pow2_strictly_increases(exp as nat, 10);
            }
        }
        assert(sig * p < 0x8000_0000_0000_0000) by (nonlinear_arith)
            requires
                sig < 0x20_0000_0000_0000,
                p <= 1024,
        ;
        sig * p
    } else if exp <= -53 {
        proof {
            lemma_pow2_small(sig as nat, (-exp) as nat);
        }
        if sig != 0 {
            return None;
        }
        0
    } else {
        let p: u64 = power_of_two((-exp) as u32);
        proof {
            vstd::arithmetic::power2::lemma_pow2_pos((-exp) as nat);
        }
        if sig % p != 0 {
            return None;
        }
        let q: u64 = sig / p;
        assert(q <= sig) by (nonlinear_arith)
            requires
                q == sig / p,
                p > 0,
        ;
        q
    };
    if bits >= SIGN {
        if abs >= SIGN {
            Some(i64::MIN)
        } else {
            Some(-(abs as i64))
        }
    } else if abs >= SIGN {
        Some(i64::MAX)
    } else {
        Some(abs as i64)
    }
}

// ---------------------------------------------------------------------------
// The double nearest to an integer.

/// How often a number can be halved before it is one.
pub open spec fn log2(m: nat) -> nat
    decreases m,
{
    if m <= 1 {
        0
    } else {
        1 + log2(m / 2)
    }
}

/// A number in units of `p`, rounded to the nearest; half-way, to the even one.
pub open spec fn rounded(m: nat, p: nat) -> nat {
    let q = m / p;
    let r = m % p;
    if 2 * r > p || (2 * r == p && q % 2 == 1) {
        q + 1
    } else {
        q
    }
}

/// The bits of the double nearest to a number that is not negative. The
/// significand has 53 bits; one that rounds up to the next power of two carries
/// into the exponent.
pub open spec fn nearest_bits(m: nat) -> nat {
    if m == 0 {
        0
    } else {
        let e = log2(m);
        let s = if e <= 52 {
            m * pow2((52 - e) as nat)
        } else {
            rounded(m, pow2((e - 52) as nat))
        };
        ((e + 1022) * EXPONENT + s) as nat
    }
}

/// The double nearest to an integer.
pub open spec fn nearest_double(i: i64) -> u64 {
    if i < 0 {
        (SIGN + nearest_bits((-i) as nat)) as u64
    } else {
        nearest_bits(i as nat) as u64
    }
}

pub proof fn lemma_log2(m: nat)
    requires
        m > 0,
    ensures
        pow2(log2(m)) <= m < 2 * pow2(log2(m)),
    decreases m,
{
    vstd::arithmetic::power2::lemma2_to64();
    if m > 1 {
        lemma_log2(m / 2);
        vstd::arithmetic::power2::lemma_pow2_unfold(log2(m));
    }
}

/// The significand has 53 bits, or is the next power of two.
pub proof fn lemma_nearest_bits(m: nat)
    requires
        0 < m <= 0x8000_0000_0000_0000,
    ensures
        log2(m) <= 63,
        log2(m) <= 52 ==> 0x10_0000_0000_0000 <= m * pow2((52 - log2(m)) as nat)
            < 0x20_0000_0000_0000,
        log2(m) > 52 ==> 0x10_0000_0000_0000 <= rounded(m, pow2((log2(m) - 52) as nat))
            <= 0x20_0000_0000_0000,
        nearest_bits(m) < INFINITY,
{
    let e = log2(m);
    lemma_log2(m);
    vstd::arithmetic::power2::lemma2_to64();
    vstd::arithmetic::power2::lemma2_to64_rest();
    if e > 63 {
        vstd::arithmetic::power2::lemma_pow2_strictly_increases(63, e);
    }
    assert(pow2(52) == 0x10_0000_0000_0000);
    if e <= 52 {
        let k = (52 - e) as nat;
        vstd::arithmetic::power2::lemma_pow2_adds(e, k);
        vstd::arithmetic::power2::lemma_pow2_pos(k);
        assert(pow2(e) * pow2(k) <= m * pow2(k) < 2 * pow2(e) * pow2(k)) by (nonlinear_arith)
            requires
                pow2(e) <= m < 2 * pow2(e),
                pow2(k) > 0,
        ;
        assert(2 * pow2(e) * pow2(k) == 2 * (pow2(e) * pow2(k))) by (nonlinear_arith);
    } else {
        let k = (e - 52) as nat;
        let p = pow2(k);
        vstd::arithmetic::power2::lemma_pow2_adds(52, k);
        vstd::arithmetic::power2::lemma_pow2_pos(k);
        let q = m / p;
        assert(0x10_0000_0000_0000 <= q < 0x20_0000_0000_0000) by (nonlinear_arith)
            requires
                q == m / p,
                p > 0,
                0x10_0000_0000_0000 * p <= m < 0x20_0000_0000_0000 * p,
        ;
    }
}

/// The double nearest to an integer.
pub fn double_of(i: i64) -> (r: u64)
    ensures
        r == nearest_double(i),
        is_finite(r),
{
    let m: u64 = if i < 0 {
        (-(i as i128)) as u64
    } else {
        i as u64
    };
    if m == 0 {
        return 0;
    }
    let mut x: u64 = m;
    let mut e: u64 = 0;
    while x > 1
        invariant
            x >= 1,
            e + log2(x as nat) == log2(m as nat),
            e <= 64,
            e + x <= m + 1,
            m <= 0x8000_0000_0000_0000,
            m > 0,
        decreases x,
    {
        proof {
            lemma_nearest_bits(m as nat);
        }
        x = x / 2;
        e = e + 1;
    }
    proof {
        lemma_nearest_bits(m as nat);
    }
    let s: u64 = if e <= 52 {
        let p = power_of_two((52 - e) as u32);
        m * p
    } else {
        let p = power_of_two((e - 52) as u32);
        proof {
            vstd::arithmetic::power2::lemma_pow2_pos((e - 52) as nat);
            vstd::arithmetic::power2::lemma2_to64();
            if e - 52 < 11 {
                vstd::arithmetic::power2::lemma_pow2_strictly_increases((e - 52) as nat, 11);
            }
        }
        let q = m / p;
        let r = m % p;
        if 2 * r > p || (2 * r == p && q % 2 == 1) {
            q + 1
        } else {
            q
        }
    };
    let bits: u64 = (e + 1022) * EXPONENT + s;
    assert(bits == nearest_bits(m as nat));
    if i < 0 {
        SIGN + bits
    } else {
        bits
    }
}

/// An integer of no more than 53 bits is its nearest double, exactly.
pub proof fn law_small_integers_survive(i: i64)
    requires
        -0x20_0000_0000_0000 <= i <= 0x20_0000_0000_0000,
    ensures
        whole_i64(nearest_double(i)) == Some(i as int),
{
    let m: nat = if i < 0 {
        (-i) as nat
    } else {
        i as nat
    };
    vstd::arithmetic::power2::lemma2_to64();
    vstd::arithmetic::power2::lemma2_to64_rest();
    if m > 0 {
        lemma_nearest_bits(m);
        lemma_log2(m);
        let e = log2(m);
        let b = nearest_bits(m);
        let bits = nearest_double(i);
        assert(magnitude(bits) == b);
        if e <= 52 {
            let k = (52 - e) as nat;
            let p = pow2(k);
            let s = (m * p) as nat;
            assert(b == (e + 1023) * EXPONENT + (s - EXPONENT));
            assert(b / EXPONENT as nat == e + 1023 && b % EXPONENT as nat == s - EXPONENT)
                by (nonlinear_arith)
                requires
                    b == (e + 1023) * EXPONENT + (s - EXPONENT),
                    EXPONENT <= s < 2 * EXPONENT,
                    EXPONENT == 0x10_0000_0000_0000,
            ;
            assert(significand(bits) == s);
            assert(scale(bits) == e - 52);
            vstd::arithmetic::power2::lemma_pow2_pos(k);
            if k > 0 {
                assert(s % p == 0 && s / p == m) by (nonlinear_arith)
                    requires
                        s == m * p,
                        p > 0,
                ;
            } else {
                assert(pow2(0) == 1);
                assert(s * pow2(0) == m) by (nonlinear_arith)
                    requires
                        s == m * pow2(0),
                        pow2(0) == 1,
                ;
            }
            assert(whole_magnitude(bits) == Some(m));
        } else {
            assert(e == 53) by {
                if e > 53 {
                    vstd::arithmetic::power2::lemma_pow2_strictly_increases(53, e);
                }
            }
            assert(m == 0x20_0000_0000_0000);
            assert(rounded(m, 2) == 0x10_0000_0000_0000);
            assert(b == 1076 * EXPONENT);
            assert(significand(bits) == 0x10_0000_0000_0000);
            assert(scale(bits) == 1);
            assert(pow2(1) == 2);
            assert(is_finite(bits));
            assert(significand(bits) * pow2(scale(bits) as nat) == m) by (nonlinear_arith)
                requires
                    significand(bits) == 0x10_0000_0000_0000,
                    pow2(scale(bits) as nat) == 2,
                    m == 0x20_0000_0000_0000,
            ;
            assert(whole_magnitude(bits) == Some(m));
        }
    } else {
        assert(significand(0) == 0);
        vstd::arithmetic::power2::lemma_pow2_pos(1074);
        assert(0nat % pow2(1074) == 0 && 0nat / pow2(1074) == 0) by (nonlinear_arith)
            requires
                pow2(1074) > 0,
        ;
        assert(whole_magnitude(0) == Some(0nat));
    }
}

/// What has been computed in floating point for the engine to use: the text of
/// some doubles, and the double some texts denote.
pub struct Floats {
    texts: HashMap<u64, String>,
    read: ByteIndex,
    values: Vec<u64>,
}

impl Floats {
    pub closed spec fn wf(&self) -> bool {
        &&& self.read.wf()
        &&& self.values@.len() == self.read@.len()
    }

    /// The text of a finite double, where it is known.
    pub closed spec fn text_of(&self, bits: u64) -> Option<Seq<char>> {
        if is_finite(bits) && self.texts@.contains_key(bits) {
            Some(self.texts@[bits]@)
        } else {
            None
        }
    }

    /// The double a text denotes, where it is known to denote one.
    pub closed spec fn reading_of(&self, s: Seq<char>) -> Option<u64> {
        if self.read@.contains(utf8(s)) {
            Some(self.values@[self.read@.index_of(utf8(s))])
        } else {
            None
        }
    }

    pub fn new() -> (r: Floats)
        ensures
            r.wf(),
            forall|b: u64| r.text_of(b) is None,
            forall|s: Seq<char>| r.reading_of(s) is None,
    {
        Floats { texts: HashMap::new(), read: ByteIndex::new(), values: Vec::new() }
    }

    /// Record the text of a double.
    pub fn add_text(&mut self, bits: u64, text: &str)
        requires
            old(self).wf(),
        ensures
            final(self).wf(),
            forall|b: u64|
                #[trigger] final(self).text_of(b) == if b == bits && is_finite(b) {
                    Some(text@)
                } else {
                    old(self).text_of(b)
                },
            forall|s: Seq<char>| #[trigger] final(self).reading_of(s) == old(self).reading_of(s),
    {
        self.texts.insert(bits, text.to_owned());
    }

    /// Record the double that a text denotes. The first record of a text
    /// stands.
    pub fn add_reading(&mut self, text: &str, bits: u64)
        requires
            old(self).wf(),
        ensures
            final(self).wf(),
            forall|b: u64| #[trigger] final(self).text_of(b) == old(self).text_of(b),
            forall|s: Seq<char>|
                #[trigger] final(self).reading_of(s) == if s == text@ && old(self).reading_of(s) is None {
                    Some(bits)
                } else {
                    old(self).reading_of(s)
                },
    {
        let key = text.as_bytes();
        if self.read.find(key).is_some() {
            return;
        }
        let ghost before = *self;
        self.read.push(vstd::slice::slice_to_vec(key));
        self.values.push(bits);
        proof {
            self.read.lemma_distinct();
            assert forall|s: Seq<char>| #[trigger] self.reading_of(s) == (if s == text@
                && before.reading_of(s) is None {
                Some(bits)
            } else {
                before.reading_of(s)
            }) by {
                lemma_utf8_injective(s, text@);
                if s == text@ {
                    assert(self.read@[before.read@.len() as int] == utf8(s));
                } else if before.read@.contains(utf8(s)) {
                    let i = before.read@.index_of(utf8(s));
                    assert(self.read@[i] == utf8(s));
                } else if self.read@.contains(utf8(s)) {
                    let i = self.read@.index_of(utf8(s));
                    assert(before.read@[i] == utf8(s));
                }
            }
        }
    }

    /// The text of a finite double, where it is known.
    pub fn text(&self, bits: u64) -> (r: Option<&String>)
        ensures
            r is Some <==> self.text_of(bits) is Some,
            r matches Some(s) ==> self.text_of(bits) == Some(s@),
    {
        if finite(bits) {
            self.texts.get(&bits)
        } else {
            None
        }
    }

    /// The double a text denotes, where it is known to denote one.
    pub fn reading(&self, s: &str) -> (r: Option<u64>)
        requires
            self.wf(),
        ensures
            r == self.reading_of(s@),
    {
        match self.read.find(s.as_bytes()) {
            Some(i) => {
                proof {
                    self.read.lemma_distinct();
                }
                Some(self.values[i])
            },
            None => None,
        }
    }
}

} // verus!
