use vstd::prelude::*;

verus! {

/// `q` is the integer nearest to the square root of `n`:
/// `(q - 1/2)^2 < n < (q + 1/2)^2`, both sides scaled by four.
/// No tie can occur: `4 * n` is even and `(2 * q +- 1)^2` is odd.
pub open spec fn is_nearest_sqrt(q: int, n: int) -> bool {
    (2 * q - 1) * (2 * q - 1) < 4 * n && 4 * n < (2 * q + 1) * (2 * q + 1)
}

/// The square of the nearest root differs from `n` by at most the root
/// itself, and a perfect square `s * s` has the root `s` exactly.
pub proof fn lemma_nearest_sqrt_square(q: int, n: int)
    requires
        1 <= n,
        0 <= q,
        is_nearest_sqrt(q, n),
    ensures
        q * q - q < n <= q * q + q,
        forall|s: int| 0 <= s && #[trigger] (s * s) == n ==> s == q,
{
    assert((2 * q - 1) * (2 * q - 1) == 4 * (q * q - q) + 1) by (nonlinear_arith);
    assert((2 * q + 1) * (2 * q + 1) == 4 * (q * q + q) + 1) by (nonlinear_arith);
    assert forall|s: int| 0 <= s && #[trigger] (s * s) == n implies s == q by {
        if s < q {
            assert((2 * s + 1) * (2 * s + 1) <= (2 * q - 1) * (2 * q - 1)) by (nonlinear_arith)
                requires
                    0 <= s < q,
            ;
            assert((2 * s + 1) * (2 * s + 1) == 4 * (s * s) + 4 * s + 1) by (nonlinear_arith);
        }
        if s > q {
            assert((2 * s - 1) * (2 * s - 1) >= (2 * q + 1) * (2 * q + 1)) by (nonlinear_arith)
                requires
                    0 <= q < s,
            ;
            assert((2 * s - 1) * (2 * s - 1) == 4 * (s * s) - 4 * s + 1) by (nonlinear_arith);
        }
    }
}

/// The nearest root does not decrease as `n` grows.
pub proof fn lemma_nearest_sqrt_monotone(q1: int, n1: int, q2: int, n2: int)
    requires
        0 <= q1,
        0 <= q2,
        n1 <= n2,
        is_nearest_sqrt(q1, n1),
        is_nearest_sqrt(q2, n2),
    ensures
        q1 <= q2,
{
    if q1 > q2 {
        assert((2 * q1 - 1) * (2 * q1 - 1) >= (2 * q2 + 1) * (2 * q2 + 1)) by (nonlinear_arith)
            requires
                0 <= q2 < q1,
        ;
    }
}

proof fn lemma_digit(v: u128, s: u128)
    by (bit_vector)
    requires
        s + 2 < 128,
    ensures
        v >> s == 4 * (v >> (s + 2)) + ((v >> s) & 3),
        (v >> s) & 3 < 4,
        v >> s <= v,
{
}

proof fn lemma_root_bound(q: int, v: int)
    requires
        0 <= q,
        q * q <= v,
        v < 0x4000_0000_0000_0000_0000_0000_0000_0000,
    ensures
        q < 0x8000_0000_0000_0000,
{
    if q >= 0x8000_0000_0000_0000 {
        assert(q * q >= 0x8000_0000_0000_0000 * 0x8000_0000_0000_0000) by (nonlinear_arith)
            requires
                q >= 0x8000_0000_0000_0000,
        ;
    }
}

/// The floor of the square root of `v` and the remainder that it leaves,
/// produced one binary digit of the root at a time, most significant first.
/// `pairs` is the number of base-4 digits of `v` that are read.
fn root_rem(v: u128, pairs: u32) -> (res: (u128, u128))
    requires
        pairs <= 63,
        v >> (2 * pairs) as u128 == 0,
    ensures
        res.0 * res.0 + res.1 == v,
        res.1 <= 2 * res.0,
{
    assert(v < 0x4000_0000_0000_0000_0000_0000_0000_0000) by (bit_vector)
        requires
            pairs <= 63,
            v >> (2 * pairs) as u128 == 0,
    ;
    let mut q: u128 = 0;
    let mut r: u128 = 0;
    let mut i: u32 = pairs;
    while i > 0
        invariant
            i <= pairs <= 63,
            v < 0x4000_0000_0000_0000_0000_0000_0000_0000,
            q * q + r == v >> (2 * i) as u128,
            r <= 2 * q,
        decreases i,
    {
        let s: u128 = (2 * (i - 1)) as u128;
        proof {
            lemma_digit(v, s);
            assert(s + 2 == (2 * i) as u128);
            lemma_root_bound(q as int, v as int);
        }
        let digit: u128 = (v >> s) & 3;
        let t: u128 = 4 * r + digit;
        if t >= 4 * q + 1 {
            r = t - (4 * q + 1);
            proof {
                assert((2 * q + 1) * (2 * q + 1) == 4 * (q * q) + 4 * q + 1) by (nonlinear_arith);
            }
            q = 2 * q + 1;
        } else {
            r = t;
            proof {
                assert((2 * q) * (2 * q) == 4 * (q * q)) by (nonlinear_arith);
            }
            q = 2 * q;
        }
        i = i - 1;
    }
    assert(v >> 0u128 == v) by (bit_vector);
    (q, r)
}

proof fn lemma_odd_square(s: int)
    requires
        s % 2 == 1,
    ensures
        (s * s) % 2 == 1,
{
    let k = s / 2;
    assert(s * s == 2 * (2 * k * k + 2 * k) + 1) by (nonlinear_arith)
        requires
            s == 2 * k + 1,
    ;
}

proof fn lemma_rounded_root(n: int, s: int, r: int)
    requires
        1 <= n,
        0 <= s,
        0 <= r <= 2 * s,
        s * s + r == 4 * n,
    ensures
        is_nearest_sqrt((s + 1) / 2, n),
        r == 0 ==> s % 2 == 0,
{
    assert((s + 1) * (s + 1) == s * s + 2 * s + 1) by (nonlinear_arith);
    assert((s - 1) * (s - 1) == s * s - 2 * s + 1) by (nonlinear_arith);
    assert((s + 2) * (s + 2) == s * s + 4 * s + 4) by (nonlinear_arith);
    if s % 2 == 1 {
        lemma_odd_square(s);
    }
    if s == 0 {
        assert(s * s == 0);
    }
}

/// Where `n` lies in `[a^2, 4 a^2 - 2 a]`, its nearest root lies in `[a, 2 a)`.
pub proof fn lemma_root_in_binade(q: int, n: int, a: int)
    requires
        1 <= a,
        0 <= q,
        a * a <= n <= 4 * a * a - 2 * a,
        is_nearest_sqrt(q, n),
    ensures
        a <= q < 2 * a,
{
    if q < a {
        assert((2 * q + 1) * (2 * q + 1) <= (2 * a - 1) * (2 * a - 1)) by (nonlinear_arith)
            requires
                0 <= q < a,
                (2 * q + 1) * (2 * q + 1) > 4 * n,
                n >= 0,
        ;
        assert((2 * a - 1) * (2 * a - 1) < 4 * (a * a)) by (nonlinear_arith)
            requires
                1 <= a,
        ;
    }
    if q >= 2 * a {
        assert((2 * q - 1) * (2 * q - 1) >= (4 * a - 1) * (4 * a - 1)) by (nonlinear_arith)
            requires
                q >= 2 * a,
                1 <= a,
        ;
        assert((4 * a - 1) * (4 * a - 1) == 4 * (4 * a * a - 2 * a) + 1) by (nonlinear_arith);
    }
}

/// The integer nearest to the square root of `n`: the floor of the root of
/// `4 * n` is taken digit by digit, and a nonzero remainder settles the
/// rounding on its last (guard) bit.
pub(crate) fn nearest_root(n: u128, pairs: u32) -> (q: u128)
    requires
        1 <= n,
        1 <= pairs <= 63,
        n >> (2 * pairs - 2) as u128 == 0,
    ensures
        is_nearest_sqrt(q as int, n as int),
{
    let sh: u128 = (2 * pairs - 2) as u128;
    assert(n < 0x1000_0000_0000_0000_0000_0000_0000_0000) by (bit_vector)
        requires
            sh <= 124,
            n >> sh == 0,
    ;
    let v: u128 = 4 * n;
    assert(v >> (sh + 2) == 0) by (bit_vector)
        requires
            sh <= 124,
            n >> sh == 0,
            v == 4 * n,
    ;
    let (s, r) = root_rem(v, pairs);
    proof {
        lemma_root_bound(s as int, (4 * n) as int);
        lemma_rounded_root(n as int, s as int, r as int);
    }
    let t: u128 = if r != 0 {
        assert(s & 1 == s % 2) by (bit_vector);
        s + (s & 1)
    } else {
        s
    };
    assert(t >> 1 == t / 2) by (bit_vector);
    t >> 1
}

} // verus!
