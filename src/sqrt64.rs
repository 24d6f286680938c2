use vstd::prelude::*;
use vstd::arithmetic::power2::{
    pow2, lemma2_to64, lemma2_to64_rest, lemma_pow2_adds, lemma_pow2_pos, lemma_pow2_unfold,
    lemma_pow2_strictly_increases,
};
use crate::layout::{F64_DEFAULT_NAN, F64_EXP_MASK, F64_MANTISSA_MASK, F64_QUIET_BIT, F64_SIGN_MASK};
use crate::root::{
    is_nearest_sqrt, nearest_root, lemma_nearest_sqrt_monotone, lemma_nearest_sqrt_square,
    lemma_root_in_binade,
};

verus! {

/// The stored (biased) exponent field of a 64-bit pattern.
pub open spec fn f64_exp_field(x: u64) -> int {
    (x as int / 0x10_0000_0000_0000) % 0x800
}

/// The stored mantissa field of a 64-bit pattern.
pub open spec fn f64_mant_field(x: u64) -> int {
    x as int % 0x10_0000_0000_0000
}

pub open spec fn f64_is_negative(x: u64) -> bool {
    x >= 0x8000_0000_0000_0000
}

pub open spec fn f64_is_nan(x: u64) -> bool {
    f64_exp_field(x) == 0x7FF && f64_mant_field(x) != 0
}

pub open spec fn f64_is_infinite(x: u64) -> bool {
    f64_exp_field(x) == 0x7FF && f64_mant_field(x) == 0
}

pub open spec fn f64_is_zero(x: u64) -> bool {
    f64_exp_field(x) == 0 && f64_mant_field(x) == 0
}

/// A positive value that is finite and not zero (normal or subnormal).
pub open spec fn f64_is_positive_finite(x: u64) -> bool {
    !f64_is_negative(x) && f64_exp_field(x) != 0x7FF && !f64_is_zero(x)
}

/// How many doublings raise a subnormal mantissa to the hidden-bit position.
pub open spec fn f64_lead_shift(m: int) -> nat
    decreases 0x20_0000_0000_0000 - m,
{
    if m <= 0 || m >= 0x10_0000_0000_0000 {
        0
    } else {
        1 + f64_lead_shift(2 * m)
    }
}

/// A subnormal mantissa doubled up to the hidden-bit position.
pub open spec fn f64_lead_sig(m: int) -> int
    decreases 0x20_0000_0000_0000 - m,
{
    if m <= 0 || m >= 0x10_0000_0000_0000 {
        m
    } else {
        f64_lead_sig(2 * m)
    }
}

/// The significand of a positive finite `x`, in `[2^52, 2^53)`:
/// `x == f64_sig(x) * 2^f64_exp(x)`.
pub open spec fn f64_sig(x: u64) -> int {
    if f64_exp_field(x) == 0 {
        f64_lead_sig(f64_mant_field(x))
    } else {
        f64_mant_field(x) + 0x10_0000_0000_0000
    }
}

pub open spec fn f64_exp(x: u64) -> int {
    if f64_exp_field(x) == 0 {
        -1074 - f64_lead_shift(f64_mant_field(x))
    } else {
        f64_exp_field(x) - 1075
    }
}

/// The significand scaled into `[2^104, 2^106)` so that what is left of the
/// exponent is even: `x == f64_root_input(x) * 4^(f64_root_exp(x) - 1075)`.
pub open spec fn f64_root_input(x: u64) -> int {
    if f64_exp(x) % 2 == 0 {
        f64_sig(x) * 0x10_0000_0000_0000
    } else {
        f64_sig(x) * 0x20_0000_0000_0000
    }
}

/// The stored exponent field of the square root of a positive finite `x`.
pub open spec fn f64_root_exp(x: u64) -> int {
    if f64_exp(x) % 2 == 0 {
        (f64_exp(x) - 52) / 2 + 1075
    } else {
        (f64_exp(x) - 53) / 2 + 1075
    }
}

/// `r` is the correctly rounded square root of the positive finite `x`:
/// a positive normal number whose significand is the integer nearest to the
/// square root of `f64_root_input(x)`, with the halved exponent.
pub open spec fn f64_is_root_of(r: u64, x: u64) -> bool {
    r as int / 0x10_0000_0000_0000 == f64_root_exp(x)
        && is_nearest_sqrt(f64_mant_field(r) + 0x10_0000_0000_0000, f64_root_input(x))
}

/// The square root of a positive finite 64-bit value.
fn f64_positive_root(x: u64) -> (r: u64)
    requires
        f64_is_positive_finite(x),
    ensures
        f64_is_root_of(r, x),
{
    let e: u64 = (x & F64_EXP_MASK) >> 52;
    let mut m: u64 = x & F64_MANTISSA_MASK;
    assert(e == f64_exp_field(x) && m == f64_mant_field(x)) by (bit_vector)
        requires
            e == (x & 0x7FF0_0000_0000_0000) >> 52,
            m == x & 0x000F_FFFF_FFFF_FFFF,
    ;
    // `k` is the true exponent of `m` (the value is `m * 2^(k - 2048)`), offset
    // so that it stays unsigned; each doubling of a subnormal mantissa takes
    // one from it.
    let mut k: u64;
    if e == 0 {
        k = 974;
        proof {
            lemma2_to64();
            lemma2_to64_rest();
        }
        while m < 0x10_0000_0000_0000
            invariant
                0 < m < 0x20_0000_0000_0000,
                922 <= k <= 974,
                m >= pow2((974 - k) as nat),
                f64_lead_sig(m as int) == f64_sig(x),
                f64_lead_shift(m as int) + (974 - k) == f64_lead_shift(f64_mant_field(x)),
                f64_exp_field(x) == 0,
                pow2(52) == 0x10_0000_0000_0000,
            decreases 0x20_0000_0000_0000 - m,
        {
            proof {
                if 974 - k >= 52 {
                    if 974 - k > 52 {
                        lemma_pow2_strictly_increases(52, (974 - k) as nat);
                    }
                }
                lemma_pow2_unfold((975 - k) as nat);
            }
            m = m * 2;
            k = k - 1;
        }
    } else {
        m = m | 0x10_0000_0000_0000;
        assert(m == f64_mant_field(x) + 0x10_0000_0000_0000) by (bit_vector)
            requires
                m == (x & 0x000F_FFFF_FFFF_FFFF) | 0x10_0000_0000_0000,
                f64_mant_field(x) == x & 0x000F_FFFF_FFFF_FFFF,
        ;
        k = e + 973;
    }
    assert(f64_exp(x) == k - 2048);
    // Halving the exponent: an odd one gives one doubling of the significand.
    let n: u128 = if k % 2 == 1 {
        (m as u128) * 0x20_0000_0000_0000
    } else {
        (m as u128) * 0x10_0000_0000_0000
    };
    assert(n == f64_root_input(x));
    assert(0x1_0000_0000_0000_0000_0000_0000 <= n <= 0x400_0000_0000_0000_0000_0000_0000 - 0x20_0000_0000_0000);
    assert(n >> 106u128 == 0) by (bit_vector)
        requires
            n < 0x400_0000_0000_0000_0000_0000_0000,
    ;
    let q: u128 = nearest_root(n, 54);
    proof {
        lemma_root_in_binade(q as int, n as int, 0x10_0000_0000_0000);
    }
    // The root's exponent is the floor of half of what `n` leaves, and its
    // stored field adds the bias back.
    let field: u64 = (k + 50) / 2;
    // Sign 0, the exponent field, and the significand without its hidden bit.
    let r: u64 = field * 0x10_0000_0000_0000 + (q as u64 - 0x10_0000_0000_0000);
    assert(r as int / 0x10_0000_0000_0000 == field as int);
    assert(f64_mant_field(r) == q - 0x10_0000_0000_0000);
    r
}

/// The square root of the 64-bit binary floating-point value whose bit
/// pattern is `x`, as a bit pattern, computed with integer operations alone.
///
/// A positive finite input gets the correctly rounded root (round to nearest,
/// ties to even; no tie can occur). Zeros of either sign come back unchanged,
/// and so does positive infinity. A NaN comes back quieted with its payload
/// kept. Negative infinity and negative nonzero finite values give the
/// default quiet NaN.
pub fn sqrt_f64_bits(x: u64) -> (r: u64)
    ensures
        f64_is_nan(x) ==> r == x | F64_QUIET_BIT && f64_is_nan(r),
        f64_is_infinite(x) && !f64_is_negative(x) ==> r == x,
        f64_is_zero(x) ==> r == x,
        f64_is_negative(x) && !f64_is_nan(x) && !f64_is_zero(x) ==> r == F64_DEFAULT_NAN
            && f64_is_nan(r),
        f64_is_positive_finite(x) ==> f64_is_root_of(r, x),
{
    let e: u64 = (x & F64_EXP_MASK) >> 52;
    assert(e == f64_exp_field(x) && (x & F64_MANTISSA_MASK) == f64_mant_field(x)
        && ((x & F64_SIGN_MASK) == 0 <==> !f64_is_negative(x))
        && ((x & !F64_SIGN_MASK) == 0 <==> f64_is_zero(x))
        && (f64_is_nan(x) ==> f64_is_nan(x | 0x0008_0000_0000_0000))) by (bit_vector)
        requires
            e == (x & 0x7FF0_0000_0000_0000) >> 52,
    ;
    assert(f64_is_nan(0x7FF8_0000_0000_0000u64)) by (bit_vector);
    if e == 0x7FF {
        if x & F64_MANTISSA_MASK != 0 {
            // NaN in, the same NaN out, made quiet.
            return x | F64_QUIET_BIT;
        }
        if x & F64_SIGN_MASK == 0 {
            return x;
        }
        return F64_DEFAULT_NAN;
    }
    if x & !F64_SIGN_MASK == 0 {
        return x;
    }
    if x & F64_SIGN_MASK != 0 {
        return F64_DEFAULT_NAN;
    }
    f64_positive_root(x)
}

/// A nonzero subnormal mantissa doubled up to the hidden-bit position lands
/// in `[2^52, 2^53)`, and is the mantissa times `2^f64_lead_shift(m)`.
proof fn lemma_f64_lead(m: int)
    requires
        0 < m < 0x20_0000_0000_0000,
    ensures
        0x10_0000_0000_0000 <= f64_lead_sig(m) < 0x20_0000_0000_0000,
        f64_lead_sig(m) == m * pow2(f64_lead_shift(m)),
        m < 0x10_0000_0000_0000 ==> f64_lead_shift(m) >= 1,
    decreases 0x20_0000_0000_0000 - m,
{
    if m < 0x10_0000_0000_0000 {
        lemma_f64_lead(2 * m);
        let s = f64_lead_shift(2 * m);
        lemma_pow2_unfold(s + 1);
        assert(pow2((s + 1) as nat) == 2 * pow2(s));
        assert(2 * m * pow2(s) == m * (2 * pow2(s))) by (nonlinear_arith);
    } else {
        lemma2_to64();
        assert(m * pow2(0) == m) by (nonlinear_arith)
            requires
                pow2(0) == 1,
        ;
    }
}

proof fn lemma_f64_sig_range(x: u64)
    requires
        f64_is_positive_finite(x),
    ensures
        0x10_0000_0000_0000 <= f64_sig(x) < 0x20_0000_0000_0000,
        0x1_0000_0000_0000_0000_0000_0000 <= f64_root_input(x) < 0x400_0000_0000_0000_0000_0000_0000,
{
    if f64_exp_field(x) == 0 {
        lemma_f64_lead(f64_mant_field(x));
    }
}

/// On positive finite values the order of the bit patterns is the order of
/// `(f64_exp, f64_sig)`, exponent first.
proof fn lemma_f64_order(x: u64, y: u64)
    requires
        f64_is_positive_finite(x),
        f64_is_positive_finite(y),
        x < y,
    ensures
        f64_exp(x) < f64_exp(y) || (f64_exp(x) == f64_exp(y) && f64_sig(x) < f64_sig(y)),
{
    let ex = f64_exp_field(x);
    let ey = f64_exp_field(y);
    let mx = f64_mant_field(x);
    let my = f64_mant_field(y);
    assert(x as int == ex * 0x10_0000_0000_0000 + mx);
    assert(y as int == ey * 0x10_0000_0000_0000 + my);
    if ex == 0 && ey == 0 {
        lemma_f64_lead(mx);
        lemma_f64_lead(my);
        let sx = f64_lead_shift(mx);
        let sy = f64_lead_shift(my);
        lemma_pow2_pos(sx);
        if sx < sy {
            lemma_pow2_adds(sx, (sy - sx) as nat);
            lemma_pow2_strictly_increases(0, (sy - sx) as nat);
            lemma2_to64();
            assert(my * pow2(sy) >= 2 * (my * pow2(sx))) by (nonlinear_arith)
                requires
                    pow2(sy) == pow2(sx) * pow2((sy - sx) as nat),
                    pow2((sy - sx) as nat) >= 2,
                    my > 0,
                    pow2(sx) > 0,
            ;
            assert(my * pow2(sx) >= mx * pow2(sx)) by (nonlinear_arith)
                requires
                    my > mx,
                    pow2(sx) > 0,
            ;
        } else if sx == sy {
            assert(mx * pow2(sx) < my * pow2(sx)) by (nonlinear_arith)
                requires
                    my > mx,
                    pow2(sx) > 0,
            ;
        }
    } else if ex == 0 {
        lemma_f64_lead(mx);
    }
}

/// Squaring the root gives the input back to within the root's own size:
/// with `q` the root's significand and `n` the input scaled by the same
/// power of four, `q^2 - q < n <= q^2 + q`; that is, the exact square of the
/// result lies within one result-ulp times the result of `x`. Where `n` is a
/// perfect square `s^2` (`x` is the square of a representable value), the
/// root is exact: its significand is `s`.
pub proof fn lemma_f64_root_squared(x: u64, r: u64)
    requires
        f64_is_positive_finite(x),
        f64_is_root_of(r, x),
    ensures
        ({
            let q = f64_mant_field(r) + 0x10_0000_0000_0000;
            let n = f64_root_input(x);
            &&& q * q - q < n <= q * q + q
            &&& forall|s: int| 0 <= s && #[trigger] (s * s) == n ==> s == q
        }),
{
    lemma_f64_sig_range(x);
    lemma_nearest_sqrt_square(f64_mant_field(r) + 0x10_0000_0000_0000, f64_root_input(x));
}

/// The square root is monotone on finite non-negative values: for `x < y`
/// (on such values the order of the patterns is the order of the values),
/// the root of `x` is at most the root of `y`.
pub proof fn lemma_f64_sqrt_monotone(x: u64, y: u64, rx: u64, ry: u64)
    requires
        !f64_is_negative(x),
        !f64_is_negative(y),
        f64_exp_field(y) != 0x7FF,
        x < y,
        f64_is_zero(x) ==> rx == x,
        f64_is_positive_finite(x) ==> f64_is_root_of(rx, x),
        f64_is_root_of(ry, y),
    ensures
        rx <= ry,
{
    assert(y as int == f64_exp_field(y) * 0x10_0000_0000_0000 + f64_mant_field(y));
    assert(x as int == f64_exp_field(x) * 0x10_0000_0000_0000 + f64_mant_field(x));
    if !f64_is_zero(x) {
        lemma_f64_order(x, y);
        lemma_f64_sig_range(x);
        lemma_f64_sig_range(y);
        let qx = f64_mant_field(rx) + 0x10_0000_0000_0000;
        let qy = f64_mant_field(ry) + 0x10_0000_0000_0000;
        assert(rx as int == f64_root_exp(x) * 0x10_0000_0000_0000 + qx - 0x10_0000_0000_0000);
        assert(ry as int == f64_root_exp(y) * 0x10_0000_0000_0000 + qy - 0x10_0000_0000_0000);
        if f64_root_exp(x) == f64_root_exp(y) {
            lemma_nearest_sqrt_monotone(qx, f64_root_input(x), qy, f64_root_input(y));
        }
    }
}

} // verus!
