//! What the bits of a double are worth, and what integers become as doubles.

use crate::float::{
    lemma_log2, lemma_nearest_bits, log2, nearest_bits, nearest_double, rounded, whole_i64,
};
use vstd::arithmetic::power2::pow2;
use vstd::prelude::*;

verus! {

/// The eleven bits of the exponent.
pub open spec fn exponent(bits: u64) -> int {
    bits as int / 0x10_0000_0000_0000 % 2048
}

/// The fifty-two bits of the fraction.
pub open spec fn fraction(bits: u64) -> int {
    bits as int % 0x10_0000_0000_0000
}

/// Whether the sign bit is set.
pub open spec fn is_negative(bits: u64) -> bool {
    bits as int >= 0x8000_0000_0000_0000
}

/// The number a normal double stands for, where its exponent is large enough
/// for it to be whole whatever the fraction.
pub open spec fn large_value(bits: u64) -> int {
    (0x10_0000_0000_0000 + fraction(bits)) * pow2((exponent(bits) - 1075) as nat)
}

/// The step from one double to the next of the same exponent.
pub open spec fn step(bits: u64) -> int {
    pow2((exponent(bits) - 1075) as nat) as int
}

proof fn lemma_fields(bits: u64, b: nat, x: int, f: int)
    requires
        b == x * 0x10_0000_0000_0000 + f,
        0 <= f < 0x10_0000_0000_0000,
        0 <= x < 2048,
        bits == b || bits == 0x8000_0000_0000_0000 + b,
    ensures
        exponent(bits) == x,
        fraction(bits) == f,
        is_negative(bits) == (bits != b),
{
    let e: int = 0x10_0000_0000_0000;
    assert(b < 0x8000_0000_0000_0000);
    assert(b as int / e == x && b as int % e == f) by (nonlinear_arith)
        requires
            b == x * e + f,
            0 <= f < e,
            e == 0x10_0000_0000_0000,
    ;
    if bits != b {
        assert(bits as int / e == x + 2048 && bits as int % e == f) by (nonlinear_arith)
            requires
                bits == 0x8000_0000_0000_0000 + x * e + f,
                0 <= f < e,
                e == 0x10_0000_0000_0000,
        ;
    }
}

/// An integer of more than 53 bits becomes the double nearest to it, of its
/// sign: no further off than half a step, on the side of the smaller steps half
/// of that, and half-way between two it is the one with the even fraction.
pub proof fn law_a_large_integer_becomes_the_nearest_double(i: i64)
    requires
        i > 0x20_0000_0000_0000 || i < -0x20_0000_0000_0000,
    ensures
        ({
            let d = nearest_double(i);
            let m: int = if i < 0 {
                -i
            } else {
                i as int
            };
            let off = large_value(d) - m;
            &&& is_negative(d) == (i < 0)
            &&& 1075 <= exponent(d) < 2047
            &&& -step(d) <= 2 * off <= step(d)
            &&& off > 0 && fraction(d) == 0 ==> 4 * off <= step(d)
            &&& 2 * off == step(d) || -2 * off == step(d) ==> fraction(d) % 2 == 0
        }),
{
    let m: nat = if i < 0 {
        (-i) as nat
    } else {
        i as nat
    };
    let d = nearest_double(i);
    let e = log2(m);
    let b = nearest_bits(m);
    let one: int = 0x10_0000_0000_0000;
    vstd::arithmetic::power2::lemma2_to64();
    vstd::arithmetic::power2::lemma2_to64_rest();
    lemma_nearest_bits(m);
    lemma_log2(m);
    if e < 53 {
        if e < 52 {
            vstd::arithmetic::power2::lemma_pow2_strictly_increases(e, 52);
        }
        assert(m < 0x20_0000_0000_0000);
    }
    let k = (e - 52) as nat;
    let p = pow2(k);
    vstd::arithmetic::power2::lemma_pow2_pos(k);
    vstd::arithmetic::power2::lemma_pow2_adds(52, k);
    let s = rounded(m, p);
    let q = m / p;
    let r = m % p;
    assert(m == q * p + r && 0 <= r < p) by (nonlinear_arith)
        requires
            q == m / p,
            r == m % p,
            p > 0,
    ;
    assert(one * p <= m);
    assert(b == (e + 1022) * one + s);
    assert((q + 1) * p == q * p + p) by (nonlinear_arith);
    if s < 2 * one {
        lemma_fields(d, b, e as int + 1023, s - one);
        assert(exponent(d) - 1075 == k);
        assert(large_value(d) == s * p);
        if s == one && s * p > m {
            assert(one * p > m);
        }
    } else {
        lemma_fields(d, b, e as int + 1024, 0);
        vstd::arithmetic::power2::lemma_pow2_unfold(k + 1);
        assert(exponent(d) - 1075 == k + 1);
        assert(step(d) == 2 * p);
        assert(large_value(d) == one * (2 * p));
        assert(one * (2 * p) == s * p) by (nonlinear_arith)
            requires
                s == 2 * one,
        ;
    }
}

/// A double is whole exactly if its fraction does not reach below one: one of a
/// large exponent always is, one between needs zeros at its end, one below one
/// is only if it is zero. It is the integer it stands for, or the end of the
/// range beyond which that lies. Infinities and what is not a number are not
/// whole.
pub proof fn law_a_whole_double_is_what_it_stands_for(d: u64)
    ensures
        exponent(d) == 2047 ==> whole_i64(d) is None,
        1075 <= exponent(d) < 2047 ==> whole_i64(d) == Some(held(is_negative(d), large_value(d))),
        0 < exponent(d) < 1075 ==> ({
            let unit = pow2((1075 - exponent(d)) as nat) as int;
            let n = 0x10_0000_0000_0000 + fraction(d);
            &&& n % unit == 0 ==> whole_i64(d) == Some(held(is_negative(d), n / unit))
            &&& n % unit != 0 ==> whole_i64(d) is None
        }),
        exponent(d) == 0 ==> (whole_i64(d) == Some(0int) <==> fraction(d) == 0),
        exponent(d) == 0 && fraction(d) != 0 ==> whole_i64(d) is None,
{
    let m = crate::float::magnitude(d);
    let e: int = 0x10_0000_0000_0000;
    let x = exponent(d);
    assert(m == x * e + fraction(d)) by {
        assert(d as int == (d as int / e) * e + d as int % e);
        if is_negative(d) {
            assert(m == d - 0x8000_0000_0000_0000);
        }
    }
    assert(x > 0 ==> m >= e && m / e == x && m % e == fraction(d)) by (nonlinear_arith)
        requires
            m == x * e + fraction(d),
            0 <= fraction(d) < e,
            e == 0x10_0000_0000_0000,
    ;
    if x == 0 {
        vstd::arithmetic::power2::lemma2_to64_rest();
        vstd::arithmetic::power2::lemma_pow2_strictly_increases(52, 1074);
        let n = fraction(d) as nat;
        let unit = pow2(1074);
        assert(n < unit);
        vstd::arithmetic::div_mod::lemma_small_mod(n, unit);
        vstd::arithmetic::div_mod::lemma_basic_div(n as int, unit as int);
    }
}

/// An integer of a sign and a size, or the end of the range of 64 bits that it
/// lies beyond.
pub open spec fn held(negative: bool, n: int) -> int {
    if negative {
        if n > 0x8000_0000_0000_0000 {
            -0x8000_0000_0000_0000
        } else {
            -n
        }
    } else {
        if n > 0x7fff_ffff_ffff_ffff {
            0x7fff_ffff_ffff_ffff
        } else {
            n
        }
    }
}

} // verus!
