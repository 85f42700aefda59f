//! Fixed-point arithmetic for path coordinates.
//!
//! Every coordinate, parameter value and length in this library is an `i128`
//! holding the real value scaled by [`SCALE`] (`10^12`), so `1.5` user units
//! are stored as `1_500_000_000_000`.  Division rounds to the nearest
//! multiple, ties away from zero; [`rdiv`] is the specification of that
//! rounding and the lemmas below bound its error.

use vstd::prelude::*;
use vstd::arithmetic::div_mod::{lemma_fundamental_div_mod, lemma_mod_bound};

verus! {

/// One user unit, i.e. the fixed-point scaling factor.
pub const SCALE: i128 = 1_000_000_000_000;

/// Largest coordinate magnitude the pipeline accepts: 10_000 user units.
pub const MAX_COORD: i128 = 10_000_000_000_000_000;

/// Largest magnitude either factor of [`fx_mul`] may have.
pub const FX_ARG: i128 = 2_000_000_000_000_000_000;

/// Largest argument [`isqrt`] accepts.
pub const ISQRT_LIMIT: i128 = 4_000_000_000_000_000_000_000_000_000_000_000_000;

/// Largest numerator magnitude [`round_div`] accepts.
pub const RD_NUM: i128 = 40_000_000_000_000_000_000_000_000_000_000_000_000;

/// Largest denominator [`round_div`] accepts.
pub const RD_DEN: i128 = 80_000_000_000_000_000_000_000_000_000_000_000_000;

/// Division of `a` by `b > 0`, rounded to the nearest integer with ties away
/// from zero.
pub open spec fn rdiv(a: int, b: int) -> int {
    if a >= 0 {
        (2 * a + b) / (2 * b)
    } else {
        -((2 * (-a) + b) / (2 * b))
    }
}

/// Fixed-point product: the real product of `a` and `b`, rescaled and rounded.
pub open spec fn fxm(a: int, b: int) -> int {
    rdiv(a * b, SCALE as int)
}

/// `r` is the integer square root (rounded down) of `n`.
pub open spec fn is_sqrt(n: int, r: int) -> bool {
    &&& 0 <= r
    &&& r * r <= n
    &&& n < (r + 1) * (r + 1)
}

/// The integer square root of `n`, rounded down.
pub open spec fn sqrt_floor(n: int) -> int {
    choose|r: int| is_sqrt(n, r)
}

/// `rdiv` misses the exact quotient `a / b` by at most one half:
/// `|rdiv(a, b) - a / b| <= 1/2`, stated without fractions.
pub proof fn lemma_rdiv_error(a: int, b: int)
    requires
        b > 0,
    ensures
        -b <= 2 * b * rdiv(a, b) - 2 * a <= b,
{
    if a >= 0 {
        let q = (2 * a + b) / (2 * b);
        lemma_fundamental_div_mod(2 * a + b, 2 * b);
        lemma_mod_bound(2 * a + b, 2 * b);
        let r = (2 * a + b) % (2 * b);
        assert(2 * a + b == 2 * b * q + r);
        assert(2 * b * q - 2 * a == b - r);
    } else {
        let m = -a;
        let q = (2 * m + b) / (2 * b);
        lemma_fundamental_div_mod(2 * m + b, 2 * b);
        lemma_mod_bound(2 * m + b, 2 * b);
        let r = (2 * m + b) % (2 * b);
        assert(2 * m + b == 2 * b * q + r);
        assert(2 * b * (-q) == -(2 * b * q)) by (nonlinear_arith);
        assert(2 * b * (-q) - 2 * a == -(b - r));
    }
}

/// Dividing an exact multiple is exact: `rdiv(k * b, b) == k`.
pub proof fn lemma_rdiv_exact(k: int, b: int)
    requires
        b > 0,
    ensures
        rdiv(k * b, b) == k,
{
    lemma_rdiv_error(k * b, b);
    let q = rdiv(k * b, b);
    assert(-b <= 2 * b * q - 2 * (k * b) <= b);
    assert(2 * b * q - 2 * (k * b) == 2 * b * (q - k)) by (nonlinear_arith);
    if q > k {
        assert(2 * b * (q - k) >= 2 * b) by (nonlinear_arith)
            requires b > 0 && q - k >= 1;
    }
    if q < k {
        assert(2 * b * (q - k) <= -(2 * b)) by (nonlinear_arith)
            requires b > 0 && q - k <= -1;
    }
}

/// `rdiv` keeps the sign of the numerator.
pub proof fn lemma_rdiv_sign(a: int, b: int)
    requires
        b > 0,
    ensures
        a >= 0 ==> rdiv(a, b) >= 0,
        a <= 0 ==> rdiv(a, b) <= 0,
{
    lemma_rdiv_error(a, b);
    let q = rdiv(a, b);
    if a >= 0 && q < 0 {
        assert(2 * b * q <= -(2 * b)) by (nonlinear_arith)
            requires b > 0 && q <= -1;
    }
    if a <= 0 && q > 0 {
        assert(2 * b * q >= 2 * b) by (nonlinear_arith)
            requires b > 0 && q >= 1;
    }
}

/// A bound on the numerator bounds the rounded quotient:
/// `|a| <= c` gives `|rdiv(a, b)| * b <= c + b`.
pub proof fn lemma_rdiv_bound(a: int, b: int, c: int)
    requires
        b > 0,
        -c <= a <= c,
    ensures
        -(c + b) <= rdiv(a, b) * b <= c + b,
{
    lemma_rdiv_error(a, b);
    let q = rdiv(a, b);
    assert(2 * b * q <= 2 * a + b <= 2 * c + b);
    assert(2 * b * q >= 2 * a - b >= -(2 * c) - b);
    assert(2 * b * q == 2 * (q * b)) by (nonlinear_arith);
}

/// `rdiv` is monotone in the numerator.
pub proof fn lemma_rdiv_mono(a1: int, a2: int, b: int)
    requires
        b > 0,
        a1 <= a2,
    ensures
        rdiv(a1, b) <= rdiv(a2, b),
{
    let q1 = rdiv(a1, b);
    let q2 = rdiv(a2, b);
    lemma_rdiv_error(a1, b);
    lemma_rdiv_error(a2, b);
    assert(2 * b * q1 <= 2 * a1 + b);
    assert(2 * b * q2 >= 2 * a2 - b);
    if q1 > q2 {
        assert(2 * b * q1 >= 2 * b * q2 + 2 * b) by (nonlinear_arith)
            requires b > 0 && q1 >= q2 + 1;
    }
}

/// Every natural number has an integer square root.
pub proof fn lemma_sqrt_exists(n: nat)
    ensures
        exists|r: int| is_sqrt(n as int, r),
    decreases n,
{
    if n == 0 {
        assert(is_sqrt(0, 0));
    } else {
        lemma_sqrt_exists((n - 1) as nat);
        let r = choose|r: int| #[trigger] is_sqrt(n - 1, r);
        if (r + 1) * (r + 1) <= n {
            assert((r + 1) * (r + 1) >= n) by (nonlinear_arith)
                requires (r + 1) * (r + 1) > n - 1;
            assert((r + 2) * (r + 2) > (r + 1) * (r + 1)) by (nonlinear_arith)
                requires r >= 0;
            assert(is_sqrt(n as int, r + 1));
        } else {
            assert(is_sqrt(n as int, r));
        }
    }
}

/// The integer square root satisfies its defining inequalities.
pub proof fn lemma_sqrt_floor_props(n: int)
    requires
        n >= 0,
    ensures
        is_sqrt(n, sqrt_floor(n)),
{
    lemma_sqrt_exists(n as nat);
}

/// A bound on the radicand bounds the root.
pub proof fn lemma_sqrt_le(n: int, c: int)
    requires
        0 <= n,
        c >= 0,
        n <= c * c,
    ensures
        0 <= sqrt_floor(n) <= c,
{
    lemma_sqrt_floor_props(n);
    let r = sqrt_floor(n);
    if r > c {
        assert(r * r >= (c + 1) * (c + 1)) by (nonlinear_arith)
            requires r >= c + 1 && c >= 0;
        assert((c + 1) * (c + 1) > c * c) by (nonlinear_arith)
            requires c >= 0;
    }
}

/// Squaring a sum, on integer atoms.
proof fn lemma_square_add(p: int, q: int)
    ensures
        (p + q) * (p + q) == p * p + 2 * (p * q) + q * q,
{
    assert((p + q) * (p + q) == p * p + 2 * (p * q) + q * q) by (nonlinear_arith);
}

/// Squaring a difference, on integer atoms.
proof fn lemma_square_sub(p: int, q: int)
    ensures
        (p - q) * (p - q) == p * p - 2 * (p * q) + q * q,
{
    assert((p - q) * (p - q) == p * p - 2 * (p * q) + q * q) by (nonlinear_arith);
}

/// Distributing a product of two sums, on integer atoms.
proof fn lemma_mul_dist(p: int, q: int, r: int, w: int)
    ensures
        (p + q) * (r + w) == p * r + p * w + q * r + q * w,
{
    assert((p + q) * (r + w) == p * r + p * w + q * r + q * w) by (nonlinear_arith);
}

/// Products of two-factor products regroup freely.
proof fn lemma_mul_regroup(x: int, y: int, u: int, v: int)
    ensures
        (x * u) * (y * v) == (x * v) * (y * u),
        (x * u) * (x * u) == (x * x) * (u * u),
        (y * v) * (y * v) == (y * y) * (v * v),
        (x * v) * (x * v) == (x * x) * (v * v),
        (y * u) * (y * u) == (y * y) * (u * u),
{
    assert((x * u) * (y * v) == (x * v) * (y * u)) by (nonlinear_arith);
    assert((x * u) * (x * u) == (x * x) * (u * u)) by (nonlinear_arith);
    assert((y * v) * (y * v) == (y * y) * (v * v)) by (nonlinear_arith);
    assert((x * v) * (x * v) == (x * x) * (v * v)) by (nonlinear_arith);
    assert((y * u) * (y * u) == (y * y) * (u * u)) by (nonlinear_arith);
}

/// The plane Lagrange identity: the product of two squared norms splits into
/// the squared inner product and the squared cross product.
pub proof fn lemma_lagrange_identity(x: int, y: int, u: int, v: int)
    ensures
        (x * x + y * y) * (u * u + v * v) == (x * u + y * v) * (x * u + y * v) + (x * v - y * u)
            * (x * v - y * u),
{
    lemma_square_add(x * u, y * v);
    lemma_square_sub(x * v, y * u);
    lemma_mul_dist(x * x, y * y, u * u, v * v);
    lemma_mul_regroup(x, y, u, v);
}

/// Scaling the radicand by a square scales the root, up to the factor:
/// `c * sqrt(m) <= sqrt(c^2 * m) <= c * sqrt(m) + c`.
pub proof fn lemma_sqrt_scale(c: int, m: int)
    requires
        c >= 0,
        m >= 0,
    ensures
        c * sqrt_floor(m) <= sqrt_floor(c * c * m) <= c * sqrt_floor(m) + c,
{
    let d = sqrt_floor(m);
    lemma_sqrt_floor_props(m);
    assert(c * c * m >= 0) by (nonlinear_arith)
        requires c >= 0 && m >= 0;
    lemma_sqrt_floor_props(c * c * m);
    let r = sqrt_floor(c * c * m);
    if c == 0 {
        assert(is_sqrt(0, 0));
        lemma_sqrt_unique(0, 0);
        assert(c * d == 0) by (nonlinear_arith)
            requires c == 0;
        assert(c * c * m == 0) by (nonlinear_arith)
            requires c == 0;
    } else {
        if r < c * d {
            assert((r + 1) * (r + 1) <= (c * d) * (c * d)) by (nonlinear_arith)
                requires 0 <= r + 1 <= c * d;
            assert((c * d) * (c * d) <= c * c * m) by (nonlinear_arith)
                requires d * d <= m && c >= 0;
            assert(false);
        }
        if r > c * d + c {
            assert(r * r >= (c * d + c) * (c * d + c)) by (nonlinear_arith)
                requires 0 <= c * d + c <= r;
            assert((c * d + c) * (c * d + c) > c * c * m) by (nonlinear_arith)
                requires m < (d + 1) * (d + 1) && c >= 1 && d >= 0;
            assert(false);
        }
    }
}

/// The triangle inequality for the rounded plane norm: perturbing a vector
/// changes its length by at most the perturbation's length, plus one unit of
/// rounding each way.
pub proof fn lemma_sqrt_norm_triangle(a: int, b: int, c: int, d: int)
    ensures
        sqrt_floor(a * a + b * b) <= sqrt_floor(c * c + d * d) + sqrt_floor(
            (a - c) * (a - c) + (b - d) * (b - d),
        ) + 1,
        sqrt_floor(c * c + d * d) <= sqrt_floor(a * a + b * b) + sqrt_floor(
            (a - c) * (a - c) + (b - d) * (b - d),
        ) + 1,
{
    let ap = a - c;
    let bp = b - d;
    let n1 = a * a + b * b;
    let n2 = c * c + d * d;
    let n3 = ap * ap + bp * bp;
    assert(a * a + b * b >= 0) by (nonlinear_arith);
    assert(c * c + d * d >= 0) by (nonlinear_arith);
    assert(ap * ap + bp * bp >= 0) by (nonlinear_arith);
    lemma_sqrt_floor_props(n1);
    lemma_sqrt_floor_props(n2);
    lemma_sqrt_floor_props(n3);
    let r1 = sqrt_floor(n1);
    let r2 = sqrt_floor(n2);
    let r3 = sqrt_floor(n3);
    // Cauchy–Schwarz for both decompositions of the perturbed vector
    assert((c * bp - d * ap) * (c * bp - d * ap) >= 0) by (nonlinear_arith);
    assert((a * bp - b * ap) * (a * bp - b * ap) >= 0) by (nonlinear_arith);
    lemma_lagrange_identity(c, d, ap, bp);
    lemma_lagrange_identity(a, b, ap, bp);
    assert((c * ap + d * bp) * (c * ap + d * bp) <= n2 * n3);
    assert((a * ap + b * bp) * (a * ap + b * bp) <= n1 * n3);
    assert((r1 + 1) * (r3 + 1) > 0) by (nonlinear_arith)
        requires r1 >= 0 && r3 >= 0;
    assert((r2 + 1) * (r3 + 1) > 0) by (nonlinear_arith)
        requires r2 >= 0 && r3 >= 0;
    assert(n2 * n3 < ((r2 + 1) * (r3 + 1)) * ((r2 + 1) * (r3 + 1))) by (nonlinear_arith)
        requires
            0 <= n2 < (r2 + 1) * (r2 + 1),
            0 <= n3 < (r3 + 1) * (r3 + 1),
            r2 >= 0,
            r3 >= 0,
    ;
    assert(n1 * n3 < ((r1 + 1) * (r3 + 1)) * ((r1 + 1) * (r3 + 1))) by (nonlinear_arith)
        requires
            0 <= n1 < (r1 + 1) * (r1 + 1),
            0 <= n3 < (r3 + 1) * (r3 + 1),
            r1 >= 0,
            r3 >= 0,
    ;
    assert(c * ap + d * bp < (r2 + 1) * (r3 + 1)) by (nonlinear_arith)
        requires
            (c * ap + d * bp) * (c * ap + d * bp) < ((r2 + 1) * (r3 + 1)) * ((r2 + 1) * (r3 + 1)),
            (r2 + 1) * (r3 + 1) > 0,
    ;
    assert(a * ap + b * bp > -((r1 + 1) * (r3 + 1))) by (nonlinear_arith)
        requires
            (a * ap + b * bp) * (a * ap + b * bp) < ((r1 + 1) * (r3 + 1)) * ((r1 + 1) * (r3 + 1)),
            (r1 + 1) * (r3 + 1) > 0,
    ;
    // first direction: n1 fits under (r2 + r3 + 2)^2
    assert(n1 == n2 + n3 + 2 * (c * ap + d * bp)) by (nonlinear_arith)
        requires
            ap == a - c && bp == b - d,
            n1 == a * a + b * b && n2 == c * c + d * d && n3 == ap * ap + bp * bp,
    ;
    assert(n1 < (r2 + r3 + 2) * (r2 + r3 + 2)) by (nonlinear_arith)
        requires
            n1 == n2 + n3 + 2 * (c * ap + d * bp),
            n2 < (r2 + 1) * (r2 + 1),
            n3 < (r3 + 1) * (r3 + 1),
            c * ap + d * bp < (r2 + 1) * (r3 + 1),
    ;
    assert(r1 < r2 + r3 + 2) by (nonlinear_arith)
        requires
            r1 * r1 <= n1,
            n1 < (r2 + r3 + 2) * (r2 + r3 + 2),
            r1 >= 0,
            r2 + r3 + 2 > 0,
    ;
    // second direction: n2 fits under (r1 + r3 + 2)^2
    assert(n2 == n1 + n3 - 2 * (a * ap + b * bp)) by (nonlinear_arith)
        requires
            ap == a - c && bp == b - d,
            n1 == a * a + b * b && n2 == c * c + d * d && n3 == ap * ap + bp * bp,
    ;
    assert(n2 < (r1 + r3 + 2) * (r1 + r3 + 2)) by (nonlinear_arith)
        requires
            n2 == n1 + n3 - 2 * (a * ap + b * bp),
            n1 < (r1 + 1) * (r1 + 1),
            n3 < (r3 + 1) * (r3 + 1),
            a * ap + b * bp > -((r1 + 1) * (r3 + 1)),
    ;
    assert(r2 < r1 + r3 + 2) by (nonlinear_arith)
        requires
            r2 * r2 <= n2,
            n2 < (r1 + r3 + 2) * (r1 + r3 + 2),
            r2 >= 0,
            r1 + r3 + 2 > 0,
    ;
}

/// There is exactly one integer square root.
pub proof fn lemma_sqrt_unique(n: int, r: int)
    requires
        is_sqrt(n, r),
    ensures
        sqrt_floor(n) == r,
{
    assert(is_sqrt(n, r));
    let s = sqrt_floor(n);
    assert(is_sqrt(n, s)) by {
        assert(exists|x: int| is_sqrt(n, x));
    }
    if s < r {
        assert((s + 1) * (s + 1) <= r * r) by (nonlinear_arith)
            requires 0 <= s && 0 <= r && s + 1 <= r;
    }
    if r < s {
        assert((r + 1) * (r + 1) <= s * s) by (nonlinear_arith)
            requires 0 <= s && 0 <= r && r + 1 <= s;
    }
}

/// Division of `a` by `b`, rounded to nearest, ties away from zero.
pub fn round_div(a: i128, b: i128) -> (r: i128)
    requires
        0 < b <= RD_DEN,
        -RD_NUM <= a <= RD_NUM,
    ensures
        r == rdiv(a as int, b as int),
{
    let m: u128 = if a < 0 { (-a) as u128 } else { a as u128 };
    let q: u128 = (2 * m + b as u128) / (2 * b as u128);
    proof {
        let mi = m as int;
        let bi = b as int;
        assert((2 * m + b as u128) as int == 2 * mi + bi);
        assert(q as int == (2 * mi + bi) / (2 * bi));
        // the quotient fits in i128
        lemma_fundamental_div_mod(2 * mi + bi, 2 * bi);
        lemma_mod_bound(2 * mi + bi, 2 * bi);
        assert(2 * bi * (q as int) <= 2 * mi + bi);
        if q as int > mi + 1 {
            assert(2 * bi * (q as int) >= 2 * mi + 4 * bi) by (nonlinear_arith)
                requires bi >= 1 && q as int >= mi + 2 && mi >= 0;
        }
        assert(q as int <= mi + 1);
    }
    if a < 0 {
        -(q as i128)
    } else {
        q as i128
    }
}

/// Fixed-point multiplication: `a * b` rescaled by [`SCALE`], rounded to
/// nearest.
pub fn fx_mul(a: i128, b: i128) -> (r: i128)
    requires
        -FX_ARG <= a <= FX_ARG,
        -FX_ARG <= b <= FX_ARG,
    ensures
        r == fxm(a as int, b as int),
{
    proof {
        assert(-RD_NUM <= (a as int) * (b as int) <= RD_NUM) by (nonlinear_arith)
            requires -FX_ARG <= a as int <= FX_ARG && -FX_ARG <= b as int <= FX_ARG;
    }
    round_div(a * b, SCALE)
}

/// Integer square root, rounded down, by binary search.
pub fn isqrt(n: i128) -> (r: i128)
    requires
        0 <= n <= ISQRT_LIMIT,
    ensures
        is_sqrt(n as int, r as int),
        r == sqrt_floor(n as int),
{
    let nu: u128 = n as u128;
    let mut lo: u128 = 0;
    let mut hi: u128 = 2_000_000_000_000_000_001;
    proof {
        assert((hi as int) * (hi as int) > ISQRT_LIMIT) by (nonlinear_arith)
            requires hi as int == 2_000_000_000_000_000_001;
    }
    while hi - lo > 1
        invariant
            lo < hi <= 2_000_000_000_000_000_001,
            nu == n,
            (lo as int) * (lo as int) <= nu as int,
            (nu as int) < (hi as int) * (hi as int),
        decreases hi - lo,
    {
        let mid: u128 = lo + (hi - lo) / 2;
        proof {
            assert(lo < mid < hi);
            assert((mid as int) * (mid as int) <= (2_000_000_000_000_000_001 as int)
                * (2_000_000_000_000_000_001 as int)) by (nonlinear_arith)
                requires 0 <= mid as int <= 2_000_000_000_000_000_001;
        }
        if mid * mid <= nu {
            lo = mid;
        } else {
            hi = mid;
        }
    }
    proof {
        assert(hi == lo + 1);
        assert(is_sqrt(n as int, lo as int));
        lemma_sqrt_unique(n as int, lo as int);
    }
    lo as i128
}

} // verus!
