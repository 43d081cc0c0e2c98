//! Fixed-point arithmetic for activations and parameters.
//!
//! A value `v: i64` stands for the real number `v / ONE`: sixteen fractional
//! bits. Products are rounded toward zero; the bounding function rounds to
//! nearest and maps every value strictly inside `(-ONE, ONE)`.
use vstd::arithmetic::div_mod::{lemma_fundamental_div_mod, lemma_mod_pos_bound};
use vstd::prelude::*;

verus! {

/// The fixed-point value that stands for 1.0.
pub const ONE: i64 = 65536;

/// Absolute value of an integer.
pub open spec fn abs(x: int) -> int {
    if x < 0 {
        -x
    } else {
        x
    }
}

/// Fixed-point product `x * w`, rounded toward zero.
pub open spec fn scale_mul(x: int, w: int) -> int {
    let p = x * w;
    if p >= 0 {
        p / (ONE as int)
    } else {
        -((-p) / (ONE as int))
    }
}

/// Candidate `q` is at most one half above the ratio `ONE * a / sqrt(ONE² + a²)`:
/// `(q - 1/2) * sqrt(ONE² + a²) <= ONE * a`, doubled and squared (for `q >= 1`).
pub open spec fn fits(a: int, q: int) -> bool {
    (2 * q - 1) * (2 * q - 1) * (ONE * ONE + a * a) <= 4 * (ONE * ONE) * (a * a)
}

/// The largest candidate in `1..=s` that fits `a`, or zero where none does.
pub open spec fn largest_fit(a: int, s: nat) -> int
    decreases s,
{
    if s == 0 || fits(a, s as int) {
        s as int
    } else {
        largest_fit(a, (s - 1) as nat)
    }
}

/// The bounding function `x / sqrt(1 + x²)` on fixed-point values:
/// `ONE * |x| / sqrt(ONE² + x²)` rounded to the nearest integer (halves up),
/// at most `ONE - 1`, with the sign of `x`.
pub open spec fn bound(x: int) -> int {
    let m = largest_fit(abs(x), (ONE - 1) as nat);
    if x < 0 {
        -m
    } else {
        m
    }
}

proof fn lemma_square_le(a: int, b: int)
    requires
        0 <= a <= b,
    ensures
        a * a <= b * b,
{
    assert(a * a <= b * b) by (nonlinear_arith)
        requires
            0 <= a <= b,
    ;
}

/// Quotient and remainder facts of a division of a natural number.
proof fn lemma_div_facts(m: int, c: int)
    requires
        0 <= m,
        0 < c,
    ensures
        0 <= m / c,
        (m / c) * c <= m < (m / c + 1) * c,
{
    lemma_fundamental_div_mod(m, c);
    lemma_mod_pos_bound(m, c);
    let q = m / c;
    assert((q + 1) * c == q * c + c) by (nonlinear_arith);
    assert(c * q == q * c) by (nonlinear_arith);
    if q < 0 {
        assert(q * c < 0) by (nonlinear_arith)
            requires
                q < 0,
                0 < c,
        ;
    }
}

/// A smaller positive candidate fits where a larger one does.
proof fn lemma_fits_smaller(a: int, p: int, q: int)
    requires
        1 <= p <= q,
        fits(a, q),
    ensures
        fits(a, p),
{
    let n = ONE * ONE + a * a;
    assert(0 <= a * a) by (nonlinear_arith);
    lemma_square_le(2 * p - 1, 2 * q - 1);
    assert((2 * p - 1) * (2 * p - 1) * n <= (2 * q - 1) * (2 * q - 1) * n) by (nonlinear_arith)
        requires
            (2 * p - 1) * (2 * p - 1) <= (2 * q - 1) * (2 * q - 1),
            0 <= n,
    ;
}

/// A candidate below `ONE` that fits `a` fits every larger `b` too.
proof fn lemma_fits_larger(a: int, b: int, q: int)
    requires
        0 <= a <= b,
        1 <= q < ONE,
        fits(a, q),
    ensures
        fits(b, q),
{
    let d = (2 * q - 1) * (2 * q - 1);
    let k = ONE * ONE;
    let sa = a * a;
    let sb = b * b;
    assert(ONE == 65536);
    assert(k == 4294967296);
    lemma_square_le(2 * q - 1, 131071);
    lemma_square_le(a, b);
    assert(d * (k + sa) == d * k + d * sa) by (nonlinear_arith);
    assert(d * (k + sb) == d * k + d * sb) by (nonlinear_arith);
    assert((4 * k - d) * sa <= (4 * k - d) * sb) by (nonlinear_arith)
        requires
            sa <= sb,
            d <= 4 * k,
    ;
    assert(d * (k + sb) <= 4 * k * sb) by (nonlinear_arith)
        requires
            d * (k + sa) == d * k + d * sa,
            d * (k + sb) == d * k + d * sb,
            d * (k + sa) <= 4 * k * sa,
            (4 * k - d) * sa <= (4 * k - d) * sb,
    ;
}

/// `largest_fit(a, s)` lies in `0..=s`, and is zero or fits.
proof fn lemma_largest_fit_basic(a: int, s: nat)
    ensures
        0 <= largest_fit(a, s) <= s,
        largest_fit(a, s) == 0 || fits(a, largest_fit(a, s)),
    decreases s,
{
    if s > 0 && !fits(a, s as int) {
        lemma_largest_fit_basic(a, (s - 1) as nat);
    }
}

/// Every candidate in `1..=s` that fits lies at or below `largest_fit(a, s)`.
proof fn lemma_largest_fit_at_least(a: int, s: nat, q: int)
    requires
        1 <= q <= s,
        fits(a, q),
    ensures
        q <= largest_fit(a, s),
    decreases s,
{
    if !fits(a, s as int) {
        lemma_largest_fit_at_least(a, (s - 1) as nat, q);
    }
}

/// Where `r` is zero or fits, and `r + 1` does not fit or passes `s`,
/// `r` is the largest fit up to `s`.
proof fn lemma_largest_fit_is(a: int, s: nat, r: int)
    requires
        0 <= r <= s,
        r == 0 || fits(a, r),
        r == s || !fits(a, r + 1),
    ensures
        largest_fit(a, s) == r,
    decreases s,
{
    if s > r {
        if fits(a, s as int) {
            lemma_fits_smaller(a, r + 1, s as int);
        }
        lemma_largest_fit_is(a, (s - 1) as nat, r);
    }
}

/// From `2^25` on, the rounded ratio reaches its cap `ONE - 1`.
proof fn lemma_bound_saturates(a: int)
    requires
        0x200_0000 <= a,
    ensures
        largest_fit(a, (ONE - 1) as nat) == ONE - 1,
{
    assert(ONE == 65536);
    assert(131069int * 131069int * (4294967296int + 0x200_0000int * 0x200_0000int) <= 4
        * 4294967296int * (0x200_0000int * 0x200_0000int));
    assert(fits(0x200_0000, ONE - 1));
    lemma_fits_larger(0x200_0000, a, ONE - 1);
    lemma_largest_fit_at_least(a, (ONE - 1) as nat, ONE - 1);
    lemma_largest_fit_basic(a, (ONE - 1) as nat);
}

/// The bounding function takes every value strictly inside `(-ONE, ONE)`,
/// and keeps its sign.
pub proof fn lemma_bound_range(x: int)
    ensures
        -ONE < bound(x) < ONE,
        x > 0 ==> bound(x) > 0,
        x < 0 ==> bound(x) < 0,
        x == 0 ==> bound(x) == 0,
{
    let a = abs(x);
    let s = (ONE - 1) as nat;
    lemma_largest_fit_basic(a, s);
    let m = largest_fit(a, s);
    if a >= 1 {
        assert(fits(a, 1)) by (nonlinear_arith)
            requires
                a >= 1,
        ;
        lemma_largest_fit_at_least(a, s, 1);
    } else if m != 0 {
        assert((2 * m - 1) * (2 * m - 1) >= 1) by (nonlinear_arith)
            requires
                m >= 1,
        ;
        assert(!fits(0, m));
    }
}

/// The bounding function maps zero to zero.
pub proof fn lemma_bound_zero()
    ensures
        bound(0) == 0,
{
    lemma_bound_range(0);
}

/// The bounding function is odd: `bound(-x) == -bound(x)`.
pub proof fn lemma_bound_odd(x: int)
    ensures
        bound(-x) == -bound(x),
{
    lemma_bound_zero();
    assert(abs(-x) == abs(x));
}

/// Monotonicity on the non-negative values.
proof fn lemma_bound_monotone_nonneg(a: int, b: int)
    requires
        0 <= a <= b,
    ensures
        bound(a) <= bound(b),
{
    let s = (ONE - 1) as nat;
    lemma_largest_fit_basic(a, s);
    lemma_largest_fit_basic(b, s);
    let m = largest_fit(a, s);
    if m != 0 {
        lemma_fits_larger(a, b, m);
        lemma_largest_fit_at_least(b, s, m);
    }
}

/// The bounding function is monotonically increasing.
pub proof fn lemma_bound_monotone(x: int, y: int)
    requires
        x <= y,
    ensures
        bound(x) <= bound(y),
{
    lemma_bound_range(x);
    lemma_bound_range(y);
    if 0 <= x {
        lemma_bound_monotone_nonneg(x, y);
    } else if y <= 0 {
        lemma_bound_monotone_nonneg(-y, -x);
        lemma_bound_odd(x);
        lemma_bound_odd(y);
    }
}

/// Fixed-point product of an activation and a parameter, rounded toward
/// zero. A parameter within `[-ONE, ONE]` never enlarges the activation.
pub fn mul_fixed(x: i64, w: i64) -> (r: i128)
    ensures
        r == scale_mul(x as int, w as int),
        -ONE <= w <= ONE ==> abs(r as int) <= abs(x as int),
{
    proof {
        assert(-0x4000_0000_0000_0000_0000_0000_0000_0000int <= x * w
            <= 0x4000_0000_0000_0000_0000_0000_0000_0000int) by (nonlinear_arith)
            requires
                -0x8000_0000_0000_0000int <= x < 0x8000_0000_0000_0000int,
                -0x8000_0000_0000_0000int <= w < 0x8000_0000_0000_0000int,
        ;
    }
    let p: i128 = x as i128 * w as i128;
    proof {
        assert(abs(p as int) == abs(x as int) * abs(w as int)) by (nonlinear_arith)
            requires
                p == x * w,
        ;
        assert(abs(x as int) * abs(w as int) <= 0x8000_0000_0000_0000int * 0x8000_0000_0000_0000int)
            by (nonlinear_arith)
            requires
                abs(x as int) <= 0x8000_0000_0000_0000int,
                abs(w as int) <= 0x8000_0000_0000_0000int,
        ;
    }
    let m: u128 = if p >= 0 {
        p as u128
    } else {
        (-p) as u128
    };
    let q: u128 = m / 65536;
    proof {
        lemma_div_facts(m as int, ONE as int);
        if -ONE <= w <= ONE {
            assert(abs(x as int) * abs(w as int) <= abs(x as int) * ONE) by (nonlinear_arith)
                requires
                    abs(w as int) <= ONE,
                    0 <= abs(x as int),
            ;
            assert(q <= abs(x as int)) by (nonlinear_arith)
                requires
                    q * ONE <= m,
                    m <= abs(x as int) * ONE,
            ;
        }
    }
    if p >= 0 {
        q as i128
    } else {
        -(q as i128)
    }
}

/// Whether candidate `q` fits `a`, for `a` below `2^25`.
fn fits_u128(a: u128, q: u128) -> (r: bool)
    requires
        a < 0x200_0000,
        1 <= q < 65536,
    ensures
        r == fits(a as int, q as int),
{
    proof {
        lemma_square_le(a as int, 0x200_0000);
        lemma_square_le(2 * q - 1, 0x2_0000);
        assert((2 * q - 1) * (2 * q - 1) * (65536 * 65536 + a * a) <= 0x4_0000_0000int
            * 0x8_0000_0000_0000int) by (nonlinear_arith)
            requires
                0 <= (2 * q - 1) * (2 * q - 1) <= 0x4_0000_0000int,
                0 <= 65536 * 65536 + a * a <= 0x8_0000_0000_0000int,
        ;
    }
    let d: u128 = (2 * q - 1) * (2 * q - 1);
    let n: u128 = 65536 * 65536 + a * a;
    d * n <= 4 * (65536 * 65536) * (a * a)
}

/// `ONE * a / sqrt(ONE² + a²)` rounded to the nearest integer, for `a` below
/// `2^25`: the largest candidate that fits, found by bisection.
fn rounded_ratio(a: u128) -> (r: u128)
    requires
        a < 0x200_0000,
    ensures
        r == largest_fit(a as int, (ONE - 1) as nat),
{
    let mut lo: u128 = 0;
    let mut hi: u128 = 65536;
    while hi - lo > 1
        invariant
            a < 0x200_0000,
            lo < hi <= 65536,
            lo == 0 || fits(a as int, lo as int),
            hi == 65536 || !fits(a as int, hi as int),
        decreases hi - lo,
    {
        let mid: u128 = lo + (hi - lo) / 2;
        if fits_u128(a, mid) {
            lo = mid;
        } else {
            hi = mid;
        }
    }
    proof {
        lemma_largest_fit_is(a as int, (ONE - 1) as nat, lo as int);
    }
    lo
}

/// The bounding function on a fixed-point value: `x / sqrt(1 + x²)` in the
/// values that `x` and the result stand for, rounded to nearest, strictly
/// inside `(-ONE, ONE)` and of the sign of `x`.
pub fn sigmoid(x: i64) -> (r: i64)
    ensures
        r == bound(x as int),
        -ONE < r < ONE,
        x > 0 ==> r > 0,
        x < 0 ==> r < 0,
{
    let a: u128 = if x < 0 {
        (-(x as i128)) as u128
    } else {
        x as u128
    };
    let m: u128 = if a >= 0x200_0000 {
        proof {
            lemma_bound_saturates(a as int);
        }
        65535
    } else {
        rounded_ratio(a)
    };
    proof {
        lemma_bound_range(x as int);
    }
    if x < 0 {
        -(m as i64)
    } else {
        m as i64
    }
}

} // verus!
