//! 64-bit IEEE 754 numbers, held as bit patterns and ordered by value with
//! integer arithmetic alone.
//!
//! Every finite number of the format is a whole multiple of 2^-1074, so a
//! number is ordered by its key: its value times 2^1074, an integer. The
//! infinities get keys beyond every finite one, and a NaN, which has no
//! value, sorts before every number.

use crate::order::{order_of, Order};
use vstd::arithmetic::power2::{
    lemma2_to64,
    lemma2_to64_rest,
    lemma_pow2_adds,
    lemma_pow2_pos,
    lemma_pow2_strictly_increases,
    pow2,
};
use vstd::prelude::*;

verus! {

/// Two to the power 52: the weight of the hidden bit of a fraction.
pub const HIDDEN_BIT: u64 = 0x10_0000_0000_0000;

/// Two to the power 63: the weight of the sign bit.
pub const SIGN_BIT: u64 = 0x8000_0000_0000_0000;

/// Whether the sign bit is set.
pub open spec fn float_negative(bits: u64) -> bool {
    bits >= SIGN_BIT
}

/// The 11-bit exponent field.
pub open spec fn float_exponent(bits: u64) -> nat {
    ((bits / HIDDEN_BIT) % 2048) as nat
}

/// The 52-bit fraction field.
pub open spec fn float_fraction(bits: u64) -> nat {
    (bits % HIDDEN_BIT) as nat
}

/// Whether the pattern is a NaN.
pub open spec fn float_is_nan(bits: u64) -> bool {
    float_exponent(bits) == 2047 && float_fraction(bits) != 0
}

/// Whether the pattern is an infinity.
pub open spec fn float_is_infinite(bits: u64) -> bool {
    float_exponent(bits) == 2047 && float_fraction(bits) == 0
}

/// The absolute value of a finite number, times 2^1074.
pub open spec fn float_magnitude(bits: u64) -> nat {
    let e = float_exponent(bits);
    let f = float_fraction(bits);
    if e == 0 {
        f
    } else {
        (HIDDEN_BIT + f) as nat * pow2((e - 1) as nat)
    }
}

/// The key of a number: its value times 2^1074. An infinity has a key of
/// magnitude 2^2100, beyond all finite ones; a NaN has the least key of all.
pub open spec fn float_key(bits: u64) -> int {
    if float_is_nan(bits) {
        -(pow2(2100) as int) - 1
    } else {
        let magnitude = if float_is_infinite(bits) {
            pow2(2100)
        } else {
            float_magnitude(bits)
        };
        if float_negative(bits) {
            -(magnitude as int)
        } else {
            magnitude as int
        }
    }
}

/// The key of an integer: its value times 2^1074.
pub open spec fn integer_key(x: i64) -> int {
    x * pow2(1074)
}

/// Multiplying both sides by a positive number keeps their order.
pub proof fn lemma_scaled_order(a: int, b: int, p: int)
    requires
        p > 0,
    ensures
        order_of(a * p, b * p) == order_of(a, b),
{
    assert((a * p < b * p) == (a < b) && (a * p == b * p) == (a == b)) by (nonlinear_arith)
        requires
            p > 0,
    ;
}

/// A product of bounded factors is bounded by the product of the bounds.
pub proof fn lemma_product_bound(a: int, b: int, x: int, y: int)
    requires
        0 <= a < x,
        0 <= b <= y,
    ensures
        a * b < x * y || (b == 0 && a * b == 0),
        a * b <= x * y,
        0 <= a * b,
{
    assert(a * b <= x * y && 0 <= a * b && (b > 0 ==> a * b < x * y)) by (nonlinear_arith)
        requires
            0 <= a < x,
            0 <= b <= y,
    ;
}

/// The magnitude of a finite number is below 2^2100.
pub proof fn lemma_magnitude_bound(bits: u64)
    requires
        float_exponent(bits) < 2047,
    ensures
        float_magnitude(bits) < pow2(2100),
{
    let e = float_exponent(bits);
    let f = float_fraction(bits);
    lemma2_to64();
    lemma2_to64_rest();
    if e == 0 {
        lemma_pow2_strictly_increases(53, 2100);
    } else {
        let s = (e - 1) as nat;
        lemma_pow2_pos(s);
        lemma_product_bound((HIDDEN_BIT + f) as int, pow2(s) as int, pow2(53) as int, pow2(s) as int);
        lemma_pow2_adds(53, s);
        lemma_pow2_strictly_increases(53 + s, 2100);
    }
}

/// Among the numbers that are no NaN and have the sign bit clear, the
/// magnitude grows with the bit pattern.
pub proof fn lemma_magnitude_increases(a: u64, b: u64)
    requires
        a < b < SIGN_BIT,
        !float_is_nan(a),
        !float_is_nan(b),
    ensures
        float_key(a) < float_key(b),
{
    let ea = float_exponent(a);
    let fa = float_fraction(a);
    let eb = float_exponent(b);
    let fb = float_fraction(b);
    assert(a == ea * HIDDEN_BIT + fa);
    assert(b == eb * HIDDEN_BIT + fb);
    assert(ea < eb || (ea == eb && fa < fb));
    lemma2_to64();
    lemma2_to64_rest();
    if eb == 2047 {
        lemma_magnitude_bound(a);
    } else if ea == eb {
        if ea > 0 {
            let p = pow2((ea - 1) as nat);
            lemma_pow2_pos((ea - 1) as nat);
            lemma_scaled_order((HIDDEN_BIT + fa) as int, (HIDDEN_BIT + fb) as int, p as int);
        }
    } else {
        let sb = (eb - 1) as nat;
        lemma_pow2_pos(sb);
        assert(float_magnitude(b) >= pow2(52) * pow2(sb)) by (nonlinear_arith)
            requires
                float_magnitude(b) == (HIDDEN_BIT + fb) * pow2(sb),
                HIDDEN_BIT == pow2(52),
                fb >= 0,
                pow2(sb) > 0,
        ;
        lemma_pow2_adds(52, sb);
        if ea == 0 {
            if sb > 0 {
                lemma_pow2_strictly_increases(52, 52 + sb);
            }
        } else {
            let sa = (ea - 1) as nat;
            lemma_pow2_pos(sa);
            lemma_product_bound(
                (HIDDEN_BIT + fa) as int,
                pow2(sa) as int,
                pow2(53) as int,
                pow2(sa) as int,
            );
            lemma_pow2_adds(53, sa);
            if 53 + sa < 52 + sb {
                lemma_pow2_strictly_increases(53 + sa, 52 + sb);
            }
        }
    }
}

/// Whether the pattern is a NaN.
pub fn is_nan(bits: u64) -> (r: bool)
    ensures
        r == float_is_nan(bits),
{
    (bits / HIDDEN_BIT) % 2048 == 2047 && bits % HIDDEN_BIT != 0
}

/// Compares two numbers by value. The two zeros are equal; a NaN equals
/// every NaN and is less than every number.
pub fn compare_floats(a: u64, b: u64) -> (r: Order)
    ensures
        r == order_of(float_key(a), float_key(b)),
{
    let a_nan = is_nan(a);
    let b_nan = is_nan(b);
    proof {
        lemma_pow2_pos(2100);
        if !a_nan {
            lemma_key_range(a);
        }
        if !b_nan {
            lemma_key_range(b);
        }
    }
    if a_nan || b_nan {
        return if a_nan && b_nan {
            Order::Equal
        } else if a_nan {
            Order::Less
        } else {
            Order::Greater
        };
    }
    let a_negative = a >= SIGN_BIT;
    let b_negative = b >= SIGN_BIT;
    let a_abs = a % SIGN_BIT;
    let b_abs = b % SIGN_BIT;
    proof {
        lemma_same_magnitude(a);
        lemma_same_magnitude(b);
        if a_abs < b_abs {
            lemma_magnitude_increases(a_abs, b_abs);
        }
        if b_abs < a_abs {
            lemma_magnitude_increases(b_abs, a_abs);
        }
    }
    if a_abs == 0 && b_abs == 0 {
        Order::Equal
    } else if a_negative != b_negative {
        if a_negative {
            Order::Less
        } else {
            Order::Greater
        }
    } else {
        let by_magnitude = if a_abs < b_abs {
            Order::Less
        } else if a_abs == b_abs {
            Order::Equal
        } else {
            Order::Greater
        };
        if a_negative {
            by_magnitude.reversed()
        } else {
            by_magnitude
        }
    }
}

/// Clearing the sign bit keeps the fields, and so the magnitude.
pub proof fn lemma_same_magnitude(bits: u64)
    ensures
        float_exponent((bits % SIGN_BIT) as u64) == float_exponent(bits),
        float_fraction((bits % SIGN_BIT) as u64) == float_fraction(bits),
        !float_negative((bits % SIGN_BIT) as u64),
        !float_is_nan(bits) ==> float_key(bits) == if float_negative(bits) {
            -float_key((bits % SIGN_BIT) as u64)
        } else {
            float_key((bits % SIGN_BIT) as u64)
        },
{
}

/// The key of a number that is no NaN lies between the keys of the
/// infinities, and is zero only for the two zeros.
pub proof fn lemma_key_range(bits: u64)
    requires
        !float_is_nan(bits),
    ensures
        -pow2(2100) <= float_key(bits) <= pow2(2100),
        float_negative(bits) ==> float_key(bits) <= 0,
        !float_negative(bits) ==> float_key(bits) >= 0,
        float_key(bits) == 0 <==> bits % SIGN_BIT == 0,
{
    let e = float_exponent(bits);
    let f = float_fraction(bits);
    lemma_pow2_pos(2100);
    assert(bits % SIGN_BIT == e * HIDDEN_BIT + f);
    if e < 2047 {
        lemma_magnitude_bound(bits);
        if e > 0 {
            lemma_pow2_pos((e - 1) as nat);
            assert((HIDDEN_BIT + f) * pow2((e - 1) as nat) > 0) by (nonlinear_arith)
                requires
                    HIDDEN_BIT + f > 0,
                    pow2((e - 1) as nat) > 0,
            ;
        }
    }
}

/// Two to the power `e`.
fn power_of_two(e: u64) -> (r: u128)
    requires
        e < 64,
    ensures
        r == pow2(e as nat),
        r < 0x1_0000_0000_0000_0000,
{
    let mut r: u128 = 1;
    let mut i: u64 = 0;
    proof {
        lemma2_to64();
        lemma2_to64_rest();
    }
    while i < e
        invariant
            i <= e < 64,
            r == pow2(i as nat),
            r <= pow2(63),
            pow2(63) == 0x8000_0000_0000_0000,
        decreases e - i,
    {
        proof {
            vstd::arithmetic::power2::lemma_pow2_unfold((i + 1) as nat);
            if i + 1 < 63 {
                lemma_pow2_strictly_increases((i + 1) as nat, 63);
            }
        }
        r = r * 2;
        i += 1;
    }
    r
}

/// How the integer `x`, which is positive, stands to a finite number with
/// the sign bit clear.
fn compare_positive(x: u64, bits: u64) -> (r: Order)
    requires
        1 <= x <= SIGN_BIT,
        bits < SIGN_BIT,
        float_exponent(bits) < 2047,
    ensures
        r == order_of(x * pow2(1074), float_magnitude(bits) as int),
{
    let e = bits / HIDDEN_BIT;
    let f = bits % HIDDEN_BIT;
    let mantissa: u64 = if e == 0 {
        f
    } else {
        HIDDEN_BIT + f
    };
    let shift: u64 = if e == 0 {
        0
    } else {
        e - 1
    };
    proof {
        lemma2_to64();
        lemma2_to64_rest();
        assert(float_magnitude(bits) == mantissa * pow2(shift as nat)) by {
            if e == 0 {
                assert(mantissa * 1 == mantissa);
            }
        }
    }
    if shift >= 1074 {
        // The number is a multiple of one: compare the integer with
        // mantissa * 2^(shift - 1074).
        let up = shift - 1074;
        proof {
            lemma_pow2_adds(up as nat, 1074);
            lemma_pow2_pos(1074);
            assert(mantissa * pow2(shift as nat) == (mantissa * pow2(up as nat)) * pow2(1074))
                by (nonlinear_arith)
                requires
                    pow2(shift as nat) == pow2(up as nat) * pow2(1074),
            ;
            lemma_scaled_order(x as int, mantissa * pow2(up as nat), pow2(1074) as int);
        }
        if up >= 12 {
            proof {
                if up > 12 {
                    lemma_pow2_strictly_increases(12, up as nat);
                }
                assert(mantissa * pow2(up as nat) >= 0x10_0000_0000_0000 * 0x1000)
                    by (nonlinear_arith)
                    requires
                        mantissa >= 0x10_0000_0000_0000,
                        pow2(up as nat) >= 0x1000,
                ;
            }
            Order::Less
        } else {
            let factor = power_of_two(up);
            proof {
                if up < 11 {
                    lemma_pow2_strictly_increases(up as nat, 11);
                }
                lemma_product_bound(
                    mantissa as int,
                    factor as int,
                    0x20_0000_0000_0000,
                    0x800,
                );
            }
            let scaled = mantissa as u128 * factor;
            if (x as u128) < scaled {
                Order::Less
            } else if x as u128 == scaled {
                Order::Equal
            } else {
                Order::Greater
            }
        }
    } else {
        // The integer is a multiple of the number's unit: compare
        // x * 2^(1074 - shift) with the mantissa.
        let down = 1074 - shift;
        proof {
            lemma_pow2_adds(down as nat, shift as nat);
            lemma_pow2_pos(shift as nat);
            assert(x * pow2(1074) == (x * pow2(down as nat)) * pow2(shift as nat))
                by (nonlinear_arith)
                requires
                    pow2(1074) == pow2(down as nat) * pow2(shift as nat),
            ;
            lemma_scaled_order(x * pow2(down as nat), mantissa as int, pow2(shift as nat) as int);
        }
        if down >= 53 {
            proof {
                if down > 53 {
                    lemma_pow2_strictly_increases(53, down as nat);
                }
                assert(x * pow2(down as nat) >= 0x20_0000_0000_0000) by (nonlinear_arith)
                    requires
                        x >= 1,
                        pow2(down as nat) >= 0x20_0000_0000_0000,
                ;
            }
            Order::Greater
        } else {
            let factor = power_of_two(down);
            proof {
                if down < 52 {
                    lemma_pow2_strictly_increases(down as nat, 52);
                }
                lemma_product_bound(
                    x as int,
                    factor as int,
                    0x8000_0000_0000_0001,
                    0x10_0000_0000_0000,
                );
            }
            let scaled = x as u128 * factor;
            if scaled < mantissa as u128 {
                Order::Less
            } else if scaled == mantissa as u128 {
                Order::Equal
            } else {
                Order::Greater
            }
        }
    }
}

/// Compares an integer with a number by value. Every integer is greater
/// than a NaN.
pub fn compare_integer_float(x: i64, bits: u64) -> (r: Order)
    ensures
        r == order_of(integer_key(x), float_key(bits)),
{
    proof {
        lemma_pow2_pos(2100);
        lemma_pow2_pos(1074);
        lemma_integer_key_range(x);
        lemma_same_magnitude(bits);
        if !float_is_nan(bits) {
            lemma_key_range(bits);
        }
    }
    if is_nan(bits) {
        return Order::Greater;
    }
    let negative = bits >= SIGN_BIT;
    let abs = bits % SIGN_BIT;
    if abs / HIDDEN_BIT == 2047 {
        return if negative {
            Order::Greater
        } else {
            Order::Less
        };
    }
    if x == 0 {
        if abs == 0 {
            Order::Equal
        } else if negative {
            Order::Greater
        } else {
            Order::Less
        }
    } else if x > 0 {
        if negative || abs == 0 {
            Order::Greater
        } else {
            compare_positive(x as u64, abs)
        }
    } else {
        if !negative || abs == 0 {
            Order::Less
        } else {
            let size = (-(x as i128)) as u64;
            proof {
                assert(size * pow2(1074) == -(x * pow2(1074))) by (nonlinear_arith)
                    requires
                        size == -x,
                ;
            }
            compare_positive(size, abs).reversed()
        }
    }
}

/// The key of an integer has the sign of the integer and lies strictly
/// between the keys of the infinities.
pub proof fn lemma_integer_key_range(x: i64)
    ensures
        -pow2(2100) < integer_key(x) < pow2(2100),
        x > 0 ==> integer_key(x) > 0,
        x < 0 ==> integer_key(x) < 0,
        x == 0 ==> integer_key(x) == 0,
{
    lemma2_to64();
    lemma_pow2_pos(1074);
    lemma_pow2_adds(64, 1074);
    lemma_pow2_strictly_increases(64 + 1074, 2100);
    assert(-(pow2(64) * pow2(1074)) < x * pow2(1074) < pow2(64) * pow2(1074) && (x > 0 ==> x
        * pow2(1074) > 0) && (x < 0 ==> x * pow2(1074) < 0) && (x == 0 ==> x * pow2(1074) == 0))
        by (nonlinear_arith)
        requires
            -pow2(64) < x < pow2(64),
            pow2(1074) > 0,
    ;
}

} // verus!
