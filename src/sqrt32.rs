use vstd::prelude::*;
use vstd::arithmetic::power2::{
    pow2, lemma2_to64, lemma_pow2_adds, lemma_pow2_pos, lemma_pow2_unfold,
    lemma_pow2_strictly_increases,
};
use crate::layout::{F32_DEFAULT_NAN, F32_EXP_MASK, F32_MANTISSA_MASK, F32_QUIET_BIT, F32_SIGN_MASK};
use crate::root::{
    is_nearest_sqrt, nearest_root, lemma_nearest_sqrt_monotone, lemma_nearest_sqrt_square,
    lemma_root_in_binade,
};

verus! {

/// The stored (biased) exponent field of a 32-bit pattern.
pub open spec fn f32_exp_field(x: u32) -> int {
    (x as int / 0x80_0000) % 0x100
}

/// The stored mantissa field of a 32-bit pattern.
pub open spec fn f32_mant_field(x: u32) -> int {
    x as int % 0x80_0000
}

pub open spec fn f32_is_negative(x: u32) -> bool {
    x >= 0x8000_0000
}

pub open spec fn f32_is_nan(x: u32) -> bool {
    f32_exp_field(x) == 0xFF && f32_mant_field(x) != 0
}

pub open spec fn f32_is_infinite(x: u32) -> bool {
    f32_exp_field(x) == 0xFF && f32_mant_field(x) == 0
}

pub open spec fn f32_is_zero(x: u32) -> bool {
    f32_exp_field(x) == 0 && f32_mant_field(x) == 0
}

/// A positive value that is finite and not zero (normal or subnormal).
pub open spec fn f32_is_positive_finite(x: u32) -> bool {
    !f32_is_negative(x) && f32_exp_field(x) != 0xFF && !f32_is_zero(x)
}

/// How many doublings raise a subnormal mantissa to the hidden-bit position.
pub open spec fn f32_lead_shift(m: int) -> nat
    decreases 0x100_0000 - m,
{
    if m <= 0 || m >= 0x80_0000 {
        0
    } else {
        1 + f32_lead_shift(2 * m)
    }
}

/// A subnormal mantissa doubled up to the hidden-bit position.
pub open spec fn f32_lead_sig(m: int) -> int
    decreases 0x100_0000 - m,
{
    if m <= 0 || m >= 0x80_0000 {
        m
    } else {
        f32_lead_sig(2 * m)
    }
}

/// The significand of a positive finite `x`, in `[2^23, 2^24)`:
/// `x == f32_sig(x) * 2^f32_exp(x)`.
pub open spec fn f32_sig(x: u32) -> int {
    if f32_exp_field(x) == 0 {
        f32_lead_sig(f32_mant_field(x))
    } else {
        f32_mant_field(x) + 0x80_0000
    }
}

pub open spec fn f32_exp(x: u32) -> int {
    if f32_exp_field(x) == 0 {
        -149 - f32_lead_shift(f32_mant_field(x))
    } else {
        f32_exp_field(x) - 150
    }
}

/// The significand scaled into `[2^46, 2^48)` so that what is left of the
/// exponent is even: `x == f32_root_input(x) * 4^(f32_root_exp(x) - 150)`.
pub open spec fn f32_root_input(x: u32) -> int {
    if f32_exp(x) % 2 == 0 {
        f32_sig(x) * 0x100_0000
    } else {
        f32_sig(x) * 0x80_0000
    }
}

/// The stored exponent field of the square root of a positive finite `x`.
pub open spec fn f32_root_exp(x: u32) -> int {
    if f32_exp(x) % 2 == 0 {
        (f32_exp(x) - 24) / 2 + 150
    } else {
        (f32_exp(x) - 23) / 2 + 150
    }
}

/// `r` is the correctly rounded square root of the positive finite `x`:
/// a positive normal number whose significand is the integer nearest to the
/// square root of `f32_root_input(x)`, with the halved exponent.
pub open spec fn f32_is_root_of(r: u32, x: u32) -> bool {
    r as int / 0x80_0000 == f32_root_exp(x)
        && is_nearest_sqrt(f32_mant_field(r) + 0x80_0000, f32_root_input(x))
}

/// The square root of a positive finite 32-bit value.
fn f32_positive_root(x: u32) -> (r: u32)
    requires
        f32_is_positive_finite(x),
    ensures
        f32_is_root_of(r, x),
{
    let e: u32 = (x & F32_EXP_MASK) >> 23;
    let mut m: u32 = x & F32_MANTISSA_MASK;
    assert(e == f32_exp_field(x) && m == f32_mant_field(x)) by (bit_vector)
        requires
            e == (x & 0x7F80_0000) >> 23,
            m == x & 0x007F_FFFF,
    ;
    // `k` is the true exponent of `m` (the value is `m * 2^(k - 256)`), offset
    // so that it stays unsigned; each doubling of a subnormal mantissa takes
    // one from it.
    let mut k: u32;
    if e == 0 {
        k = 107;
        proof {
            lemma2_to64();
        }
        while m < 0x80_0000
            invariant
                0 < m < 0x100_0000,
                84 <= k <= 107,
                m >= pow2((107 - k) as nat),
                f32_lead_sig(m as int) == f32_sig(x),
                f32_lead_shift(m as int) + (107 - k) == f32_lead_shift(f32_mant_field(x)),
                f32_exp_field(x) == 0,
                pow2(23) == 0x80_0000,
            decreases 0x100_0000 - m,
        {
            proof {
                if 107 - k >= 23 {
                    if 107 - k > 23 {
                        lemma_pow2_strictly_increases(23, (107 - k) as nat);
                    }
                }
                lemma_pow2_unfold((108 - k) as nat);
            }
            m = m * 2;
            k = k - 1;
        }
    } else {
        m = m | 0x80_0000;
        assert(m == f32_mant_field(x) + 0x80_0000) by (bit_vector)
            requires
                m == (x & 0x007F_FFFF) | 0x80_0000,
                f32_mant_field(x) == x & 0x007F_FFFF,
        ;
        k = e + 106;
    }
    assert(f32_exp(x) == k - 256);
    // Halving the exponent: an odd one gives one doubling of the significand.
    let n: u128 = if k % 2 == 1 {
        (m as u128) * 0x80_0000
    } else {
        (m as u128) * 0x100_0000
    };
    assert(n == f32_root_input(x));
    assert(0x4000_0000_0000 <= n <= 0x1_0000_0000_0000 - 0x100_0000);
    assert(n >> 48u128 == 0) by (bit_vector)
        requires
            n < 0x1_0000_0000_0000,
    ;
    let q: u128 = nearest_root(n, 25);
    proof {
        lemma_root_in_binade(q as int, n as int, 0x80_0000);
    }
    // The root's exponent is the floor of half of what `n` leaves, and its
    // stored field adds the bias back.
    let field: u32 = (k + 21) / 2;
    // Sign 0, the exponent field, and the significand without its hidden bit.
    let r: u32 = field * 0x80_0000 + (q as u32 - 0x80_0000);
    assert(r as int / 0x80_0000 == field as int);
    assert(f32_mant_field(r) == q - 0x80_0000);
    r
}

/// The square root of the 32-bit binary floating-point value whose bit
/// pattern is `x`, as a bit pattern, computed with integer operations alone.
///
/// A positive finite input gets the correctly rounded root (round to nearest,
/// ties to even; no tie can occur). Zeros of either sign come back unchanged,
/// and so does positive infinity. A NaN comes back quieted with its payload
/// kept. Negative infinity and negative nonzero finite values give the
/// default quiet NaN.
pub fn sqrt_f32_bits(x: u32) -> (r: u32)
    ensures
        f32_is_nan(x) ==> r == x | F32_QUIET_BIT && f32_is_nan(r),
        f32_is_infinite(x) && !f32_is_negative(x) ==> r == x,
        f32_is_zero(x) ==> r == x,
        f32_is_negative(x) && !f32_is_nan(x) && !f32_is_zero(x) ==> r == F32_DEFAULT_NAN
            && f32_is_nan(r),
        f32_is_positive_finite(x) ==> f32_is_root_of(r, x),
{
    let e: u32 = (x & F32_EXP_MASK) >> 23;
    assert(e == f32_exp_field(x) && (x & F32_MANTISSA_MASK) == f32_mant_field(x)
        && ((x & F32_SIGN_MASK) == 0 <==> !f32_is_negative(x))
        && ((x & !F32_SIGN_MASK) == 0 <==> f32_is_zero(x))
        && (f32_is_nan(x) ==> f32_is_nan(x | 0x0040_0000))) by (bit_vector)
        requires
            e == (x & 0x7F80_0000) >> 23,
    ;
    assert(f32_is_nan(0x7FC0_0000u32)) by (bit_vector);
    if e == 0xFF {
        if x & F32_MANTISSA_MASK != 0 {
            // NaN in, the same NaN out, made quiet.
            return x | F32_QUIET_BIT;
        }
        if x & F32_SIGN_MASK == 0 {
            return x;
        }
        return F32_DEFAULT_NAN;
    }
    if x & !F32_SIGN_MASK == 0 {
        return x;
    }
    if x & F32_SIGN_MASK != 0 {
        return F32_DEFAULT_NAN;
    }
    f32_positive_root(x)
}

/// A nonzero subnormal mantissa doubled up to the hidden-bit position lands
/// in `[2^23, 2^24)`, and is the mantissa times `2^f32_lead_shift(m)`.
proof fn lemma_f32_lead(m: int)
    requires
        0 < m < 0x100_0000,
    ensures
        0x80_0000 <= f32_lead_sig(m) < 0x100_0000,
        f32_lead_sig(m) == m * pow2(f32_lead_shift(m)),
        m < 0x80_0000 ==> f32_lead_shift(m) >= 1,
    decreases 0x100_0000 - m,
{
    if m < 0x80_0000 {
        lemma_f32_lead(2 * m);
        let s = f32_lead_shift(2 * m);
        lemma_pow2_unfold(s + 1);
        assert(pow2((s + 1) as nat) == 2 * pow2(s));
        assert(2 * m * pow2(s) == m * (2 * pow2(s))) by (nonlinear_arith);
    } else {
        lemma2_to64();
        assert(m * pow2(0) == m) by (nonlinear_arith)
            requires
                pow2(0) == 1,
        ;
    }
}

proof fn lemma_f32_sig_range(x: u32)
    requires
        f32_is_positive_finite(x),
    ensures
        0x80_0000 <= f32_sig(x) < 0x100_0000,
        0x4000_0000_0000 <= f32_root_input(x) < 0x1_0000_0000_0000,
{
    if f32_exp_field(x) == 0 {
        lemma_f32_lead(f32_mant_field(x));
    }
}

/// On positive finite values the order of the bit patterns is the order of
/// `(f32_exp, f32_sig)`, exponent first.
proof fn lemma_f32_order(x: u32, y: u32)
    requires
        f32_is_positive_finite(x),
        f32_is_positive_finite(y),
        x < y,
    ensures
        f32_exp(x) < f32_exp(y) || (f32_exp(x) == f32_exp(y) && f32_sig(x) < f32_sig(y)),
{
    let ex = f32_exp_field(x);
    let ey = f32_exp_field(y);
    let mx = f32_mant_field(x);
    let my = f32_mant_field(y);
    assert(x as int == ex * 0x80_0000 + mx);
    assert(y as int == ey * 0x80_0000 + my);
    if ex == 0 && ey == 0 {
        lemma_f32_lead(mx);
        lemma_f32_lead(my);
        let sx = f32_lead_shift(mx);
        let sy = f32_lead_shift(my);
        lemma_pow2_pos(sx);
        if sx < sy {
            lemma_pow2_adds(sx, (sy - sx) as nat);
            lemma_pow2_strictly_increases(0, (sy - sx) as nat);
            lemma2_to64();
            assert(my * pow2(sy) >= 2 * (my * pow2(sx))) by (nonlinear_arith)
                requires
                    pow2(sy) == pow2(sx) * pow2((sy - sx) as nat),
                    pow2((sy - sx) as nat) >= 2,
                    my > 0,
                    pow2(sx) > 0,
            ;
            assert(my * pow2(sx) >= mx * pow2(sx)) by (nonlinear_arith)
                requires
                    my > mx,
                    pow2(sx) > 0,
            ;
        } else if sx == sy {
            assert(mx * pow2(sx) < my * pow2(sx)) by (nonlinear_arith)
                requires
                    my > mx,
                    pow2(sx) > 0,
            ;
        }
    } else if ex == 0 {
        lemma_f32_lead(mx);
    }
}

/// Squaring the root gives the input back to within the root's own size:
/// with `q` the root's significand and `n` the input scaled by the same
/// power of four, `q^2 - q < n <= q^2 + q`; that is, the exact square of the
/// result lies within one result-ulp times the result of `x`. Where `n` is a
/// perfect square `s^2` (`x` is the square of a representable value), the
/// root is exact: its significand is `s`.
pub proof fn lemma_f32_root_squared(x: u32, r: u32)
    requires
        f32_is_positive_finite(x),
        f32_is_root_of(r, x),
    ensures
        ({
            let q = f32_mant_field(r) + 0x80_0000;
            let n = f32_root_input(x);
            &&& q * q - q < n <= q * q + q
            &&& forall|s: int| 0 <= s && #[trigger] (s * s) == n ==> s == q
        }),
{
    lemma_f32_sig_range(x);
    lemma_nearest_sqrt_square(f32_mant_field(r) + 0x80_0000, f32_root_input(x));
}

/// The square root is monotone on finite non-negative values: for `x < y`
/// (on such values the order of the patterns is the order of the values),
/// the root of `x` is at most the root of `y`.
pub proof fn lemma_f32_sqrt_monotone(x: u32, y: u32, rx: u32, ry: u32)
    requires
        !f32_is_negative(x),
        !f32_is_negative(y),
        f32_exp_field(y) != 0xFF,
        x < y,
        f32_is_zero(x) ==> rx == x,
        f32_is_positive_finite(x) ==> f32_is_root_of(rx, x),
        f32_is_root_of(ry, y),
    ensures
        rx <= ry,
{
    assert(y as int == f32_exp_field(y) * 0x80_0000 + f32_mant_field(y));
    assert(x as int == f32_exp_field(x) * 0x80_0000 + f32_mant_field(x));
    if !f32_is_zero(x) {
        lemma_f32_order(x, y);
        lemma_f32_sig_range(x);
        lemma_f32_sig_range(y);
        let qx = f32_mant_field(rx) + 0x80_0000;
        let qy = f32_mant_field(ry) + 0x80_0000;
        assert(rx as int == f32_root_exp(x) * 0x80_0000 + qx - 0x80_0000);
        assert(ry as int == f32_root_exp(y) * 0x80_0000 + qy - 0x80_0000);
        if f32_root_exp(x) == f32_root_exp(y) {
            lemma_nearest_sqrt_monotone(qx, f32_root_input(x), qy, f32_root_input(y));
        }
    }
}

} // verus!
