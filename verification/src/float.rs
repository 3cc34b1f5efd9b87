//! IEEE-754 binary64 values, handled through their bit patterns.
//!
//! Bit 63 is the sign, bits 62..52 the biased exponent and bits 51..0 the
//! fraction. Everything here is integer arithmetic on those 64 bits.

use crate::order::Order;
use vstd::arithmetic::power2::{
    lemma2_to64,
    lemma2_to64_rest,
    lemma_pow2_adds,
    lemma_pow2_pos,
    lemma_pow2_strictly_increases,
    lemma_pow2_unfold,
    pow2,
};
use vstd::prelude::*;

verus! {

/// The bit that tells a negative value.
pub const SIGN_BIT: u64 = 0x8000_0000_0000_0000;

/// Positive infinity.
pub const INFINITY_BITS: u64 = 0x7FF0_0000_0000_0000;

/// Negative infinity.
pub const NEG_INFINITY_BITS: u64 = 0xFFF0_0000_0000_0000;

/// The quiet not-a-number that stands for the literal `NaN`.
pub const NAN_BITS: u64 = 0x7FF8_0000_0000_0000;

/// Two to the power 52: the implicit leading bit of a normal significand.
pub const HIDDEN_BIT: u64 = 0x0010_0000_0000_0000;

/// The pattern without its sign.
pub open spec fn magnitude(bits: int) -> int {
    if bits >= SIGN_BIT {
        bits - SIGN_BIT
    } else {
        bits
    }
}

/// The sign bit is set.
pub open spec fn is_negative(bits: int) -> bool {
    bits >= SIGN_BIT
}

/// Not a number: the exponent is all ones and the fraction is not zero.
pub open spec fn is_nan(bits: int) -> bool {
    magnitude(bits) > INFINITY_BITS
}

/// Positive or negative infinity.
pub open spec fn is_infinite(bits: int) -> bool {
    magnitude(bits) == INFINITY_BITS
}

/// Zero, subnormal or normal: neither infinite nor NaN.
pub open spec fn is_finite(bits: int) -> bool {
    magnitude(bits) < INFINITY_BITS
}

/// Positive or negative zero.
pub open spec fn is_zero(bits: int) -> bool {
    magnitude(bits) == 0
}

/// Equality of two floats as values: two NaN are equal, infinities are equal
/// when their signs agree, finite values when they are the same number (so
/// the two zeros are equal).
pub open spec fn float_equal(a: int, b: int) -> bool {
    if is_finite(a) && is_finite(b) {
        a == b || (is_zero(a) && is_zero(b))
    } else if is_nan(a) && is_nan(b) {
        true
    } else if is_infinite(a) && is_infinite(b) {
        is_negative(a) == is_negative(b)
    } else {
        false
    }
}

/// Place of a float on a line of integers that runs
/// -inf, negative finite, -0, +0, positive finite, +inf, NaN.
/// Every NaN takes the same, last place.
pub open spec fn order_key(bits: int) -> int {
    if is_nan(bits) {
        0x8000_0000_0000_0000
    } else if is_negative(bits) {
        -magnitude(bits) - 1
    } else {
        magnitude(bits)
    }
}

/// The total order of floats: the order of their places on that line.
pub open spec fn float_order(a: int, b: int) -> Order {
    Order::of_ints(order_key(a), order_key(b))
}

/// The integer that a float is, if it is finite, has no fractional part and
/// lies strictly between -2^127 and 2^127.
pub open spec fn exact_int(bits: int) -> Option<int> {
    let mag = magnitude(bits);
    let e: int = mag / HIDDEN_BIT as int;
    let sig: int = HIDDEN_BIT as int + mag % HIDDEN_BIT as int;
    if mag >= INFINITY_BITS {
        None
    } else if e == 0 {
        if mag == 0 {
            Some(0)
        } else {
            None
        }
    } else if e >= 1075 {
        let n = sig * pow2((e - 1075) as nat);
        if n < 0x8000_0000_0000_0000_0000_0000_0000_0000 {
            Some(
                if is_negative(bits) {
                    -n
                } else {
                    n
                },
            )
        } else {
            None
        }
    } else {
        let d: int = pow2((1075 - e) as nat) as int;
        if sig % d == 0 {
            Some(
                if is_negative(bits) {
                    -(sig / d)
                } else {
                    sig / d
                },
            )
        } else {
            None
        }
    }
}

/// Position of the highest set bit of a positive number.
pub open spec fn top_bit(m: nat) -> nat
    decreases m,
{
    if m < 2 {
        0
    } else {
        1 + top_bit(m / 2)
    }
}

/// `m / d` rounded to the nearest integer, a tie going to the even one.
pub open spec fn round_half_even(m: nat, d: nat) -> nat {
    let q = m / d;
    let r = m % d;
    if 2 * r > d || (2 * r == d && q % 2 == 1) {
        q + 1
    } else {
        q
    }
}

/// Bits of the float nearest to a natural number below 2^128 (ties to even).
pub open spec fn nat_to_bits(m: nat) -> int {
    if m == 0 {
        0
    } else {
        let p = top_bit(m);
        if p <= 52 {
            (1023 + p) * HIDDEN_BIT + (m * pow2((52 - p) as nat) - HIDDEN_BIT)
        } else {
            (1023 + p) * HIDDEN_BIT + (round_half_even(m, pow2((p - 52) as nat)) - HIDDEN_BIT)
        }
    }
}

/// Bits of the float nearest to an integer (ties to even): what promoting a
/// 128-bit integer to a float gives.
pub open spec fn spec_int_to_bits(v: int) -> int {
    if v < 0 {
        SIGN_BIT + nat_to_bits((-v) as nat)
    } else {
        nat_to_bits(v as nat)
    }
}

/// The pattern without its sign.
pub fn bits_magnitude(bits: u64) -> (r: u64)
    ensures
        r == magnitude(bits as int),
{
    if bits >= SIGN_BIT {
        bits - SIGN_BIT
    } else {
        bits
    }
}

/// Tells whether the float is positive or negative zero.
pub fn bits_is_zero(bits: u64) -> (r: bool)
    ensures
        r == is_zero(bits as int),
{
    bits_magnitude(bits) == 0
}

/// The same value with the opposite sign.
pub fn bits_negate(bits: u64) -> (r: u64)
    ensures
        magnitude(r as int) == magnitude(bits as int),
        is_negative(r as int) != is_negative(bits as int),
{
    if bits >= SIGN_BIT {
        bits - SIGN_BIT
    } else {
        bits + SIGN_BIT
    }
}

/// Tells whether two floats are equal as values.
pub fn bits_equal(a: u64, b: u64) -> (r: bool)
    ensures
        r == float_equal(a as int, b as int),
{
    let ma = bits_magnitude(a);
    let mb = bits_magnitude(b);
    if ma < INFINITY_BITS && mb < INFINITY_BITS {
        a == b || (ma == 0 && mb == 0)
    } else if ma > INFINITY_BITS && mb > INFINITY_BITS {
        true
    } else if ma == INFINITY_BITS && mb == INFINITY_BITS {
        (a >= SIGN_BIT) == (b >= SIGN_BIT)
    } else {
        false
    }
}

fn bits_key(bits: u64) -> (r: i128)
    ensures
        r == order_key(bits as int),
{
    let m = bits_magnitude(bits);
    if m > INFINITY_BITS {
        0x8000_0000_0000_0000i128
    } else if bits >= SIGN_BIT {
        -(m as i128) - 1
    } else {
        m as i128
    }
}

/// Compares two floats in the total order.
pub fn bits_order(a: u64, b: u64) -> (r: Order)
    ensures
        r == float_order(a as int, b as int),
{
    let ka = bits_key(a);
    let kb = bits_key(b);
    if ka < kb {
        Order::Less
    } else if ka == kb {
        Order::Equal
    } else {
        Order::Greater
    }
}

/// The integer that a float is exactly, if it is one of moderate size.
#[verifier::loop_isolation(false)]
pub fn bits_to_int(bits: u64) -> (r: Option<i128>)
    ensures
        exact_int(bits as int) == match r {
            Some(n) => Some(n as int),
            None => None,
        },
{
    let mag = bits_magnitude(bits);
    let negative = bits >= SIGN_BIT;
    if mag >= INFINITY_BITS {
        return None;
    }
    let e: u64 = mag / HIDDEN_BIT;
    let sig: u128 = (HIDDEN_BIT + mag % HIDDEN_BIT) as u128;
    if e == 0 {
        if mag == 0 {
            return Some(0);
        } else {
            return None;
        }
    }
    if e >= 1075 {
        let k: u64 = e - 1075;
        let mut n: u128 = sig;
        let mut j: u64 = 0;
        proof {
            lemma2_to64();
        }
        while j < k
            invariant
                j <= k,
                n == sig * pow2(j as nat),
                n < 0x8000_0000_0000_0000_0000_0000_0000_0000,
                sig > 0,
            decreases k - j,
        {
            if n >= 0x4000_0000_0000_0000_0000_0000_0000_0000u128 {
                proof {
                    lemma_pow2_adds(j as nat, (k - j) as nat);
                    lemma_pow2_strictly_increases(0, (k - j) as nat);
                    assert(sig * pow2(k as nat) >= 0x8000_0000_0000_0000_0000_0000_0000_0000)
                        by (nonlinear_arith)
                        requires
                            n == sig * pow2(j as nat),
                            n >= 0x4000_0000_0000_0000_0000_0000_0000_0000,
                            pow2(k as nat) == pow2(j as nat) * pow2((k - j) as nat),
                            pow2((k - j) as nat) >= 2,
                    ;
                }
                return None;
            }
            proof {
                lemma_pow2_unfold((j + 1) as nat);
                assert(sig * (2 * pow2(j as nat)) == 2 * (sig * pow2(j as nat)))
                    by (nonlinear_arith);
            }
            n = n * 2;
            j = j + 1;
        }
        if negative {
            Some(-(n as i128))
        } else {
            Some(n as i128)
        }
    } else {
        let t: u64 = 1075 - e;
        let mut d: u128 = 1;
        let mut j: u64 = 0;
        proof {
            lemma2_to64();
        }
        while j < t
            invariant
                j <= t,
                d == pow2(j as nat),
                d > 0,
                d <= 2 * sig,
                sig < 0x20_0000_0000_0000,
                sig > 0,
            decreases t - j,
        {
            if d > sig {
                proof {
                    lemma_pow2_strictly_increases(j as nat, t as nat);
                    let dt = pow2(t as nat) as int;
                    assert(sig as int % dt == sig) by (nonlinear_arith)
                        requires
                            0 < sig < dt,
                    ;
                }
                return None;
            }
            proof {
                lemma_pow2_unfold((j + 1) as nat);
            }
            d = d * 2;
            j = j + 1;
        }
        if sig % d == 0 {
            let q: u128 = sig / d;
            if negative {
                Some(-(q as i128))
            } else {
                Some(q as i128)
            }
        } else {
            None
        }
    }
}

/// Two to the power 128 is beyond every 128-bit unsigned value.
proof fn lemma_pow2_128()
    ensures
        pow2(64) == 0x1_0000_0000_0000_0000,
        pow2(128) == 0x1_0000_0000_0000_0000_0000_0000_0000_0000,
{
    lemma2_to64();
    lemma_pow2_adds(64, 64);
}

/// The highest set bit brackets the number between two powers of two.
pub proof fn lemma_top_bit_brackets(m: nat)
    requires
        m >= 1,
    ensures
        pow2(top_bit(m)) <= m < 2 * pow2(top_bit(m)),
    decreases m,
{
    lemma2_to64();
    if m >= 2 {
        lemma_top_bit_brackets(m / 2);
        lemma_pow2_unfold(top_bit(m));
    }
}

/// Promotes an integer to the nearest float, ties to even.
#[verifier::loop_isolation(false)]
pub fn int_to_bits(v: i128) -> (r: u64)
    ensures
        r == spec_int_to_bits(v as int),
{
    let negative = v < 0;
    let m: u128 = if v == i128::MIN {
        0x8000_0000_0000_0000_0000_0000_0000_0000u128
    } else if negative {
        (-v) as u128
    } else {
        v as u128
    };
    if m == 0 {
        return 0;
    }
    let mut x: u128 = m;
    let mut p: u64 = 0;
    proof {
        lemma_top_bit_brackets(m as nat);
        lemma_pow2_128();
        if top_bit(m as nat) >= 128 {
            if top_bit(m as nat) > 128 {
                lemma_pow2_strictly_increases(128, top_bit(m as nat));
            }
        }
    }
    while x >= 2
        invariant
            x >= 1,
            top_bit(m as nat) == p + top_bit(x as nat),
            top_bit(m as nat) < 128,
        decreases x,
    {
        x = x / 2;
        p = p + 1;
    }
    assert(p == top_bit(m as nat));
    let body: u64 = if p <= 52 {
        let mut s: u128 = m;
        let mut j: u64 = 0;
        proof {
            lemma2_to64();
            lemma2_to64_rest();
        }
        while j < 52 - p
            invariant
                p <= 52,
                j <= 52 - p,
                s == m * pow2(j as nat),
                pow2(p as nat) <= m < 2 * pow2(p as nat),
                s < 0x20_0000_0000_0000,
            decreases 52 - p - j,
        {
            proof {
                lemma_pow2_unfold((j + 1) as nat);
                lemma_pow2_pos((j + 1) as nat);
                lemma_pow2_adds(p as nat, (j + 1) as nat);
                if p + j + 1 < 52 {
                    lemma_pow2_strictly_increases((p + j + 1) as nat, 52);
                }
                assert(m * (2 * pow2(j as nat)) == 2 * (m * pow2(j as nat))) by (nonlinear_arith);
                assert(m * pow2((j + 1) as nat) < 2 * pow2((p + j + 1) as nat)) by (nonlinear_arith)
                    requires
                        m < 2 * pow2(p as nat),
                        pow2((p + j + 1) as nat) == pow2(p as nat) * pow2((j + 1) as nat),
                        pow2((j + 1) as nat) > 0,
                ;
            }
            s = s * 2;
            j = j + 1;
        }
        proof {
            lemma_pow2_adds(p as nat, (52 - p) as nat);
            assert(m * pow2((52 - p) as nat) >= pow2(52)) by (nonlinear_arith)
                requires
                    m >= pow2(p as nat),
                    pow2(52) == pow2(p as nat) * pow2((52 - p) as nat),
                    pow2((52 - p) as nat) > 0,
            ;
        }
        (1023 + p) * HIDDEN_BIT + ((s as u64) - HIDDEN_BIT)
    } else {
        let t: u64 = p - 52;
        let mut d: u128 = 1;
        let mut j: u64 = 0;
        proof {
            lemma2_to64();
            lemma2_to64_rest();
        }
        while j < t
            invariant
                j <= t,
                t == p - 52,
                p < 128,
                d == pow2(j as nat),
                d > 0,
                pow2(p as nat) <= m,
                d <= m,
            decreases t - j,
        {
            proof {
                lemma_pow2_unfold((j + 1) as nat);
                if j + 1 < p {
                    lemma_pow2_strictly_increases((j + 1) as nat, p as nat);
                }
            }
            d = d * 2;
            j = j + 1;
        }
        let q: u128 = m / d;
        let r: u128 = m % d;
        proof {
            lemma_pow2_adds(t as nat, 52);
            lemma_pow2_pos(t as nat);
            let dd = d as int;
            let mm = m as int;
            assert(0x10_0000_0000_0000 <= mm / dd < 0x20_0000_0000_0000) by (nonlinear_arith)
                requires
                    dd > 0,
                    dd * 0x10_0000_0000_0000 <= mm < 2 * (dd * 0x10_0000_0000_0000),
            ;
        }
        let up = r > d - r || (r == d - r && q % 2 == 1);
        let rounded: u128 = if up {
            q + 1
        } else {
            q
        };
        assert(rounded == round_half_even(m as nat, pow2(t as nat)));
        (1023 + p) * HIDDEN_BIT + ((rounded as u64) - HIDDEN_BIT)
    };
    if negative {
        SIGN_BIT + body
    } else {
        body
    }
}

/// Equality of two floats as the machine compares them: a NaN equals
/// nothing, the two zeros are equal, any other float equals itself only.
pub open spec fn machine_equal(a: int, b: int) -> bool {
    !is_nan(a) && !is_nan(b) && (a == b || (is_zero(a) && is_zero(b)))
}

/// Place of a float on the line on which every bit pattern has a place of
/// its own: negative NaN, -inf, negative finite, -0, +0, positive finite,
/// +inf, positive NaN.
pub open spec fn total_key(bits: int) -> int {
    if is_negative(bits) {
        -magnitude(bits) - 1
    } else {
        magnitude(bits)
    }
}

/// The order of bit patterns on that line.
pub open spec fn pattern_order(a: int, b: int) -> Order {
    Order::of_ints(total_key(a), total_key(b))
}

/// Tells whether two floats are equal as the machine compares them.
pub fn bits_machine_equal(a: u64, b: u64) -> (r: bool)
    ensures
        r == machine_equal(a as int, b as int),
{
    let ma = bits_magnitude(a);
    let mb = bits_magnitude(b);
    ma <= INFINITY_BITS && mb <= INFINITY_BITS && (a == b || (ma == 0 && mb == 0))
}

/// Compares two bit patterns on the line on which each has its own place.
pub fn bits_pattern_order(a: u64, b: u64) -> (r: Order)
    ensures
        r == pattern_order(a as int, b as int),
{
    let ka: i128 = if a >= SIGN_BIT {
        -(bits_magnitude(a) as i128) - 1
    } else {
        a as i128
    };
    let kb: i128 = if b >= SIGN_BIT {
        -(bits_magnitude(b) as i128) - 1
    } else {
        b as i128
    };
    if ka < kb {
        Order::Less
    } else if ka == kb {
        Order::Equal
    } else {
        Order::Greater
    }
}

} // verus!
