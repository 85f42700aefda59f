//! Arc-length engine: the length of each canonical curve by 7-point
//! Gauss–Legendre quadrature of its speed function over the curve parameter,
//! and the path's total length as the sum.
//!
//! The quadrature nodes are stored pre-mapped from `[-1, 1]` to `[0, 1]` in
//! fixed point; a weight keeps its tabulated value and each node's
//! contribution carries the `1/2` bound-transform factor.  A move command has
//! length zero.  The result approximates the true arc length: every
//! multiplication rounds to the nearest fixed-point value and the square root
//! rounds down, so contracts state the computed sum exactly rather than the
//! real integral.

use vstd::prelude::*;
use crate::canonical::{CanonCmd, Pt, cmd_wf, cmds_wf, in_range, is_curve};
use crate::fixed::{
    SCALE, MAX_COORD, FX_ARG, ISQRT_LIMIT, RD_NUM, RD_DEN, rdiv, fxm, sqrt_floor, fx_mul, isqrt, round_div,
    lemma_rdiv_bound, lemma_rdiv_sign, lemma_sqrt_floor_props, lemma_sqrt_le,
};

verus! {

/// Largest magnitude a curve derivative component can reach.
pub const DERIV_MAX: i128 = 1_000_000_000_000_000_000;

/// Largest value one weighted quadrature node can contribute.
pub const CONTRIB_MAX: i128 = 320_000_000_000_000_000;

/// Largest arc length a single curve can have.
pub const LEN_MAX: i128 = 2_240_000_000_000_000_000;

/// The seven Gauss–Legendre nodes, pre-mapped to `[0, 1]` in fixed point.
pub open spec fn gauss_t(k: int) -> int {
    if k == 0 {
        25446043829
    } else if k == 1 {
        129234407200
    } else if k == 2 {
        297077424311
    } else if k == 3 {
        500000000000
    } else if k == 4 {
        702922575689
    } else if k == 5 {
        870765592800
    } else {
        974553956171
    }
}

/// The seven Gauss–Legendre weights, in fixed point.
pub open spec fn gauss_w(k: int) -> int {
    if k == 0 || k == 6 {
        129484966169
    } else if k == 1 || k == 5 {
        279705391489
    } else if k == 2 || k == 4 {
        381830050505
    } else {
        417959183673
    }
}

/// One component of the derivative of a cubic curve at parameter `t`:
/// with `c = 3(p1-p0)`, `b = 3(p2-p1) - c`, `a = p3-p0-c-b`, the derivative
/// is `3a*t^2 + 2b*t + c`.
pub open spec fn cubic_deriv(c0: int, c1: int, c2: int, c3: int, t: int) -> int {
    let cc = 3 * (c1 - c0);
    let bb = 3 * (c2 - c1) - cc;
    let aa = c3 - c0 - cc - bb;
    3 * fxm(aa, fxm(t, t)) + 2 * fxm(bb, t) + cc
}

/// One component of the derivative of a quadratic curve at parameter `t`:
/// `2(1-t)(p1-p0) + 2t(p2-p1)`.
pub open spec fn quad_deriv(c0: int, c1: int, c2: int, t: int) -> int {
    2 * (fxm(SCALE - t, c1 - c0) + fxm(t, c2 - c1))
}

/// The x component of a curve's derivative at parameter `t`.
pub open spec fn curve_dx(c: CanonCmd, t: int) -> int {
    match c {
        CanonCmd::Move { .. } => 0,
        CanonCmd::Cubic { p0, p1, p2, p3 } => cubic_deriv(
            p0.x as int,
            p1.x as int,
            p2.x as int,
            p3.x as int,
            t,
        ),
        CanonCmd::Quad { p0, p1, p2 } => quad_deriv(p0.x as int, p1.x as int, p2.x as int, t),
    }
}

/// The y component of a curve's derivative at parameter `t`.
pub open spec fn curve_dy(c: CanonCmd, t: int) -> int {
    match c {
        CanonCmd::Move { .. } => 0,
        CanonCmd::Cubic { p0, p1, p2, p3 } => cubic_deriv(
            p0.y as int,
            p1.y as int,
            p2.y as int,
            p3.y as int,
            t,
        ),
        CanonCmd::Quad { p0, p1, p2 } => quad_deriv(p0.y as int, p1.y as int, p2.y as int, t),
    }
}

/// The speed of a curve at parameter `t`: the norm of its derivative,
/// rounded down.
pub open spec fn curve_speed(c: CanonCmd, t: int) -> int {
    sqrt_floor(
        curve_dx(c, t) * curve_dx(c, t) + curve_dy(c, t) * curve_dy(c, t),
    )
}

/// What quadrature node `k` contributes to a curve's length: the speed at the
/// node, times the weight, times the bound-transform factor `1/2`.
pub open spec fn node_contrib(c: CanonCmd, k: int) -> int {
    rdiv(gauss_w(k) * curve_speed(c, gauss_t(k)), 2 * SCALE)
}

/// The sum of the first `k` node contributions.
pub open spec fn len_partial(c: CanonCmd, k: int) -> int
    decreases k,
{
    if k <= 0 {
        0
    } else {
        len_partial(c, k - 1) + node_contrib(c, k - 1)
    }
}

/// The arc length of one canonical command: the full quadrature sum for a
/// curve, zero for a move.
pub open spec fn spec_cmd_len(c: CanonCmd) -> int {
    if is_curve(c) {
        len_partial(c, 7)
    } else {
        0
    }
}

/// The total length of a command list: the sum of its curve lengths.
pub open spec fn spec_total_len(s: Seq<CanonCmd>) -> int
    decreases s.len(),
{
    if s.len() == 0 {
        0
    } else {
        spec_total_len(s.drop_last()) + spec_cmd_len(s.last())
    }
}

/// The nodes lie in `[0, 1]` and the weights in `(0, 1/2)`.
pub proof fn lemma_gauss_ranges(k: int)
    ensures
        0 <= gauss_t(k) <= SCALE,
        0 < gauss_w(k) <= 417959183673,
{
}

/// The square of a parameter value is a parameter value, up to rounding.
pub proof fn lemma_t2_range(t: int)
    requires
        0 <= t <= SCALE,
    ensures
        0 <= fxm(t, t) <= SCALE + 1,
{
    assert(0 <= t * t <= SCALE * SCALE) by (nonlinear_arith)
        requires 0 <= t <= SCALE;
    lemma_rdiv_sign(t * t, SCALE as int);
    lemma_rdiv_bound(t * t, SCALE as int, SCALE * SCALE);
    assert((SCALE + 1) * SCALE == SCALE * SCALE + SCALE) by (nonlinear_arith);
    let q = rdiv(t * t, SCALE as int);
    if q > SCALE + 1 {
        assert(q * SCALE >= (SCALE + 2) * SCALE) by (nonlinear_arith)
            requires q >= SCALE + 2;
        assert((SCALE + 2) * SCALE > SCALE * SCALE + SCALE) by (nonlinear_arith);
    }
}

/// A fixed-point product of bounded factors is bounded.
pub proof fn lemma_fxm_bound(a: int, b: int, ca: int, cb: int)
    requires
        -ca <= a <= ca,
        0 <= b <= cb,
        ca >= 0,
    ensures
        -(ca * cb + SCALE) <= fxm(a, b) * SCALE <= ca * cb + SCALE,
{
    assert(-(ca * cb) <= a * b <= ca * cb) by (nonlinear_arith)
        requires -ca <= a <= ca && 0 <= b <= cb && ca >= 0;
    lemma_rdiv_bound(a * b, SCALE as int, ca * cb);
}

/// A plain absolute bound on a fixed-point product of bounded factors.
pub proof fn lemma_fxm_abs_bound(a: int, b: int, ca: int, cb: int, c: int)
    requires
        -ca <= a <= ca,
        0 <= b <= cb,
        ca >= 0,
        c >= 0,
        c * SCALE >= ca * cb + SCALE,
    ensures
        -c <= fxm(a, b) <= c,
{
    lemma_fxm_bound(a, b, ca, cb);
    let q = fxm(a, b);
    if q > c {
        assert(q * SCALE > c * SCALE) by (nonlinear_arith)
            requires q >= c + 1 && SCALE > 0;
    }
    if q < -c {
        assert(q * SCALE < -c * SCALE) by (nonlinear_arith)
            requires q <= -c - 1 && SCALE > 0;
        assert(-c * SCALE == -(c * SCALE)) by (nonlinear_arith);
    }
}

/// The cubic derivative of a representable curve is bounded.
pub proof fn lemma_cubic_deriv_bound(c0: int, c1: int, c2: int, c3: int, t: int)
    requires
        in_range(c0),
        in_range(c1),
        in_range(c2),
        in_range(c3),
        0 <= t <= SCALE,
    ensures
        -DERIV_MAX <= cubic_deriv(c0, c1, c2, c3, t) <= DERIV_MAX,
        -300_000_000_000_000_000 <= fxm(c3 - c0 - 3 * (c1 - c0) - (3 * (c2 - c1) - 3 * (c1 - c0)),
            fxm(t, t)) <= 300_000_000_000_000_000,
        -200_000_000_000_000_000 <= fxm(3 * (c2 - c1) - 3 * (c1 - c0), t)
            <= 200_000_000_000_000_000,
{
    let cc = 3 * (c1 - c0);
    let bb = 3 * (c2 - c1) - cc;
    let aa = c3 - c0 - cc - bb;
    let t2 = fxm(t, t);
    lemma_t2_range(t);
    assert(200_000_000_000_200_001int * SCALE >= 200_000_000_000_000_000int * (SCALE + 1) + SCALE)
        by (nonlinear_arith);
    lemma_fxm_abs_bound(aa, t2, 200_000_000_000_000_000, SCALE + 1, 200_000_000_000_200_001);
    assert(120_000_000_000_000_001int * SCALE >= 120_000_000_000_000_000int * SCALE + SCALE)
        by (nonlinear_arith);
    lemma_fxm_abs_bound(bb, t, 120_000_000_000_000_000, SCALE as int, 120_000_000_000_000_001);
}

/// The quadratic derivative of a representable curve is bounded.
pub proof fn lemma_quad_deriv_bound(c0: int, c1: int, c2: int, t: int)
    requires
        in_range(c0),
        in_range(c1),
        in_range(c2),
        0 <= t <= SCALE,
    ensures
        -DERIV_MAX <= quad_deriv(c0, c1, c2, t) <= DERIV_MAX,
        -30_000_000_000_000_000 <= fxm(SCALE - t, c1 - c0) <= 30_000_000_000_000_000,
        -30_000_000_000_000_000 <= fxm(t, c2 - c1) <= 30_000_000_000_000_000,
{
    assert(fxm(SCALE - t, c1 - c0) == fxm(c1 - c0, SCALE - t)) by {
        assert((SCALE - t) * (c1 - c0) == (c1 - c0) * (SCALE - t)) by (nonlinear_arith);
    }
    assert(fxm(t, c2 - c1) == fxm(c2 - c1, t)) by {
        assert(t * (c2 - c1) == (c2 - c1) * t) by (nonlinear_arith);
    }
    assert(20_000_000_000_000_001int * SCALE >= 20_000_000_000_000_000int * SCALE + SCALE)
        by (nonlinear_arith);
    lemma_fxm_abs_bound(
        c1 - c0,
        SCALE - t,
        20_000_000_000_000_000,
        SCALE as int,
        20_000_000_000_000_001,
    );
    lemma_fxm_abs_bound(c2 - c1, t, 20_000_000_000_000_000, SCALE as int, 20_000_000_000_000_001);
}

/// Both derivative components of a well-formed curve are bounded.
pub proof fn lemma_curve_deriv_bound(c: CanonCmd, t: int)
    requires
        cmd_wf(c),
        0 <= t <= SCALE,
    ensures
        -DERIV_MAX <= curve_dx(c, t) <= DERIV_MAX,
        -DERIV_MAX <= curve_dy(c, t) <= DERIV_MAX,
{
    match c {
        CanonCmd::Move { .. } => {},
        CanonCmd::Cubic { p0, p1, p2, p3 } => {
            lemma_cubic_deriv_bound(p0.x as int, p1.x as int, p2.x as int, p3.x as int, t);
            lemma_cubic_deriv_bound(p0.y as int, p1.y as int, p2.y as int, p3.y as int, t);
        },
        CanonCmd::Quad { p0, p1, p2 } => {
            lemma_quad_deriv_bound(p0.x as int, p1.x as int, p2.x as int, t);
            lemma_quad_deriv_bound(p0.y as int, p1.y as int, p2.y as int, t);
        },
    }
}

/// The speed of a well-formed curve is nonnegative and bounded.
pub proof fn lemma_curve_speed_bound(c: CanonCmd, t: int)
    requires
        cmd_wf(c),
        0 <= t <= SCALE,
    ensures
        0 <= curve_speed(c, t) <= 1_500_000_000_000_000_000,
        curve_dx(c, t) * curve_dx(c, t) + curve_dy(c, t) * curve_dy(c, t) <= ISQRT_LIMIT,
{
    lemma_curve_deriv_bound(c, t);
    let dx = curve_dx(c, t);
    let dy = curve_dy(c, t);
    assert(0 <= dx * dx <= DERIV_MAX * DERIV_MAX) by (nonlinear_arith)
        requires -DERIV_MAX <= dx <= DERIV_MAX;
    assert(0 <= dy * dy <= DERIV_MAX * DERIV_MAX) by (nonlinear_arith)
        requires -DERIV_MAX <= dy <= DERIV_MAX;
    lemma_sqrt_le(
        dx * dx + dy * dy,
        1_500_000_000_000_000_000,
    );
}

/// One node contribution is nonnegative and bounded.
pub proof fn lemma_node_contrib_bounds(c: CanonCmd, k: int)
    requires
        cmd_wf(c),
    ensures
        0 <= node_contrib(c, k) <= CONTRIB_MAX,
{
    lemma_gauss_ranges(k);
    lemma_curve_speed_bound(c, gauss_t(k));
    let w = gauss_w(k);
    let sp = curve_speed(c, gauss_t(k));
    assert(0 <= w * sp <= 417959183673int * 1_500_000_000_000_000_000) by (nonlinear_arith)
        requires 0 < w <= 417959183673 && 0 <= sp <= 1_500_000_000_000_000_000;
    lemma_rdiv_sign(w * sp, 2 * SCALE);
    lemma_rdiv_bound(w * sp, 2 * SCALE, 417959183673int * 1_500_000_000_000_000_000);
    let q = rdiv(w * sp, 2 * SCALE);
    if q > CONTRIB_MAX {
        assert(q * (2 * SCALE) > 417959183673int * 1_500_000_000_000_000_000 + 2 * SCALE)
            by (nonlinear_arith)
            requires q >= CONTRIB_MAX + 1;
    }
}

/// A partial quadrature sum is nonnegative and bounded.
pub proof fn lemma_len_partial_bounds(c: CanonCmd, k: int)
    requires
        cmd_wf(c),
        0 <= k <= 7,
    ensures
        0 <= len_partial(c, k) <= k * CONTRIB_MAX,
    decreases k,
{
    if k > 0 {
        lemma_len_partial_bounds(c, k - 1);
        lemma_node_contrib_bounds(c, k - 1);
    }
}

/// The length of one well-formed command is nonnegative and bounded.
pub proof fn lemma_cmd_len_bounds(c: CanonCmd)
    requires
        cmd_wf(c),
    ensures
        0 <= spec_cmd_len(c) <= LEN_MAX,
{
    if is_curve(c) {
        lemma_len_partial_bounds(c, 7);
    }
}

/// The total length of a well-formed command list is nonnegative and grows at
/// most linearly with its length.
pub proof fn lemma_total_len_bounds(s: Seq<CanonCmd>)
    requires
        cmds_wf(s),
    ensures
        0 <= spec_total_len(s) <= s.len() * LEN_MAX,
    decreases s.len(),
{
    if s.len() == 0 {
    } else {
        assert(cmds_wf(s.drop_last())) by {
            assert(forall|j: int|
                0 <= j < s.len() - 1 ==> cmd_wf(#[trigger] s.drop_last()[j]) == cmd_wf(s[j]));
        }
        lemma_total_len_bounds(s.drop_last());
        lemma_cmd_len_bounds(s.last());
        assert((s.len() - 1) * LEN_MAX + LEN_MAX == s.len() * LEN_MAX) by (nonlinear_arith);
    }
}

/// No single curve is longer than the whole path.
pub proof fn lemma_cmd_len_le_total(s: Seq<CanonCmd>, i: int)
    requires
        cmds_wf(s),
        0 <= i < s.len(),
    ensures
        spec_cmd_len(s[i]) <= spec_total_len(s),
    decreases s.len(),
{
    assert(cmds_wf(s.drop_last())) by {
        assert(forall|j: int|
            0 <= j < s.len() - 1 ==> cmd_wf(#[trigger] s.drop_last()[j]) == cmd_wf(s[j]));
    }
    if i == s.len() - 1 {
        lemma_total_len_bounds(s.drop_last());
    } else {
        lemma_cmd_len_le_total(s.drop_last(), i);
        lemma_cmd_len_bounds(s.last());
    }
}

/// The quadrature node at index `k`: the pre-mapped parameter value and the
/// weight.
fn gauss_node(k: usize) -> (r: (i128, i128))
    requires
        k < 7,
    ensures
        r.0 == gauss_t(k as int),
        r.1 == gauss_w(k as int),
{
    if k == 0 {
        (25446043829, 129484966169)
    } else if k == 1 {
        (129234407200, 279705391489)
    } else if k == 2 {
        (297077424311, 381830050505)
    } else if k == 3 {
        (500000000000, 417959183673)
    } else if k == 4 {
        (702922575689, 381830050505)
    } else if k == 5 {
        (870765592800, 279705391489)
    } else {
        (974553956171, 129484966169)
    }
}

/// One component of the cubic derivative at `t`, with `t2 == t*t` rescaled.
fn cubic_deriv_at(c0: i128, c1: i128, c2: i128, c3: i128, t: i128, t2: i128) -> (r: i128)
    requires
        in_range(c0 as int),
        in_range(c1 as int),
        in_range(c2 as int),
        in_range(c3 as int),
        0 <= t <= SCALE,
        t2 == fxm(t as int, t as int),
    ensures
        r == cubic_deriv(c0 as int, c1 as int, c2 as int, c3 as int, t as int),
        -DERIV_MAX <= r <= DERIV_MAX,
{
    proof {
        lemma_t2_range(t as int);
        lemma_cubic_deriv_bound(c0 as int, c1 as int, c2 as int, c3 as int, t as int);
    }
    let cc: i128 = 3 * (c1 - c0);
    let bb: i128 = 3 * (c2 - c1) - cc;
    let aa: i128 = c3 - c0 - cc - bb;
    let m1: i128 = fx_mul(aa, t2);
    let m2: i128 = fx_mul(bb, t);
    proof {
        assert(3 * m1 + 2 * m2 + cc == cubic_deriv(
            c0 as int,
            c1 as int,
            c2 as int,
            c3 as int,
            t as int,
        ));
    }
    3 * m1 + 2 * m2 + cc
}

/// One component of the quadratic derivative at `t`.
fn quad_deriv_at(c0: i128, c1: i128, c2: i128, t: i128) -> (r: i128)
    requires
        in_range(c0 as int),
        in_range(c1 as int),
        in_range(c2 as int),
        0 <= t <= SCALE,
    ensures
        r == quad_deriv(c0 as int, c1 as int, c2 as int, t as int),
        -DERIV_MAX <= r <= DERIV_MAX,
{
    proof {
        lemma_quad_deriv_bound(c0 as int, c1 as int, c2 as int, t as int);
    }
    let m1: i128 = fx_mul(SCALE - t, c1 - c0);
    let m2: i128 = fx_mul(t, c2 - c1);
    2 * (m1 + m2)
}

/// The arc length of one well-formed curve command by 7-point quadrature;
/// a move has length zero.
pub fn cmd_arc_length(c: &CanonCmd) -> (r: i128)
    requires
        cmd_wf(*c),
    ensures
        r == spec_cmd_len(*c),
        0 <= r <= LEN_MAX,
{
    if let CanonCmd::Move { .. } = c {
        proof {
            lemma_cmd_len_bounds(*c);
        }
        return 0;
    }
    let mut acc: i128 = 0;
    let mut k: usize = 0;
    while k < 7
        invariant
            k <= 7,
            cmd_wf(*c),
            is_curve(*c),
            acc == len_partial(*c, k as int),
            0 <= acc <= k * CONTRIB_MAX,
        decreases 7 - k,
    {
        let (t, w) = gauss_node(k);
        proof {
            lemma_gauss_ranges(k as int);
            lemma_curve_speed_bound(*c, t as int);
        }
        let t2: i128 = fx_mul(t, t);
        let (dx, dy): (i128, i128) = match c {
            CanonCmd::Cubic { p0, p1, p2, p3 } => {
                (
                    cubic_deriv_at(p0.x, p1.x, p2.x, p3.x, t, t2),
                    cubic_deriv_at(p0.y, p1.y, p2.y, p3.y, t, t2),
                )
            },
            CanonCmd::Quad { p0, p1, p2 } => {
                (quad_deriv_at(p0.x, p1.x, p2.x, t), quad_deriv_at(p0.y, p1.y, p2.y, t))
            },
            CanonCmd::Move { .. } => { (0, 0) },
        };
        proof {
            assert(dx == curve_dx(*c, t as int));
            assert(dy == curve_dy(*c, t as int));
            assert(0 <= dx * dx <= DERIV_MAX * DERIV_MAX) by (nonlinear_arith)
                requires -DERIV_MAX <= dx <= DERIV_MAX;
            assert(0 <= dy * dy <= DERIV_MAX * DERIV_MAX) by (nonlinear_arith)
                requires -DERIV_MAX <= dy <= DERIV_MAX;
        }
        let sp: i128 = isqrt(dx * dx + dy * dy);
        proof {
            lemma_node_contrib_bounds(*c, k as int);
            assert(sp == curve_speed(*c, t as int));
            assert(0 <= w * sp <= RD_NUM) by (nonlinear_arith)
                requires 0 < w <= 417959183673 && 0 <= sp <= 1_500_000_000_000_000_000;
        }
        let piece: i128 = round_div(w * sp, 2 * SCALE);
        proof {
            assert(piece == node_contrib(*c, k as int));
        }
        acc = acc + piece;
        k = k + 1;
    }
    proof {
        lemma_cmd_len_bounds(*c);
    }
    acc
}

/// The arc length of the cubic curve with the given control points.
pub fn cubic_arc_length(p0: Pt, p1: Pt, p2: Pt, p3: Pt) -> (r: i128)
    requires
        crate::canonical::pt_wf(p0),
        crate::canonical::pt_wf(p1),
        crate::canonical::pt_wf(p2),
        crate::canonical::pt_wf(p3),
    ensures
        r == spec_cmd_len(CanonCmd::Cubic { p0, p1, p2, p3 }),
        0 <= r <= LEN_MAX,
{
    cmd_arc_length(&CanonCmd::Cubic { p0, p1, p2, p3 })
}

/// The arc length of the quadratic curve with the given control points.
pub fn quadratic_arc_length(p0: Pt, p1: Pt, p2: Pt) -> (r: i128)
    requires
        crate::canonical::pt_wf(p0),
        crate::canonical::pt_wf(p1),
        crate::canonical::pt_wf(p2),
    ensures
        r == spec_cmd_len(CanonCmd::Quad { p0, p1, p2 }),
        0 <= r <= LEN_MAX,
{
    cmd_arc_length(&CanonCmd::Quad { p0, p1, p2 })
}

/// The total length of a command list: the sum of the lengths of its curves.
pub fn total_length(cmds: &Vec<CanonCmd>) -> (r: i128)
    requires
        cmds_wf(cmds@),
    ensures
        r == spec_total_len(cmds@),
        0 <= r <= cmds@.len() * LEN_MAX,
{
    let n: usize = cmds.len();
    let mut acc: i128 = 0;
    let mut i: usize = 0;
    proof {
        assert(usize::MAX * LEN_MAX < i128::MAX) by (nonlinear_arith)
            requires usize::MAX <= 0xffff_ffff_ffff_ffffu64;
    }
    while i < n
        invariant
            i <= n,
            n == cmds@.len(),
            cmds_wf(cmds@),
            acc == spec_total_len(cmds@.take(i as int)),
            0 <= acc <= i * LEN_MAX,
            usize::MAX * LEN_MAX < i128::MAX,
        decreases n - i,
    {
        proof {
            assert(cmd_wf(cmds@[i as int]));
            assert(i * LEN_MAX + LEN_MAX == (i + 1) * LEN_MAX) by (nonlinear_arith);
            assert((i + 1) * LEN_MAX <= usize::MAX * LEN_MAX) by (nonlinear_arith)
                requires i + 1 <= usize::MAX && LEN_MAX > 0;
        }
        let l: i128 = cmd_arc_length(&cmds[i]);
        acc = acc + l;
        proof {
            assert(cmds@.take(i + 1).drop_last() =~= cmds@.take(i as int));
            assert(cmds@.take(i + 1).last() == cmds@[i as int]);
        }
        i = i + 1;
    }
    proof {
        assert(cmds@.take(n as int) =~= cmds@);
    }
    acc
}


/// One coordinate axis of the lifted line's derivative at one node: the
/// scaled fixed-point value tracks `12 * dd * (t - t2)` within five
/// half-units of rounding.
proof fn lemma_line_axis(dd: int, t: int, t2: int)
    requires
        -2 * MAX_COORD <= dd <= 2 * MAX_COORD,
        t2 == fxm(t, t),
        0 <= t2 <= t <= SCALE,
    ensures
        ({
            let dx = 3 * fxm(-2 * dd, t2) + 2 * fxm(3 * dd, t);
            -(5 * SCALE) <= 2 * SCALE * dx - 12 * dd * (t - t2) <= 5 * SCALE
        }),
{
    let q1 = fxm(-2 * dd, t2);
    let q2 = fxm(3 * dd, t);
    crate::fixed::lemma_rdiv_error((-2 * dd) * t2, SCALE as int);
    crate::fixed::lemma_rdiv_error((3 * dd) * t, SCALE as int);
    assert((-2 * dd) * t2 == -2 * (dd * t2)) by (nonlinear_arith);
    assert((3 * dd) * t == 3 * (dd * t)) by (nonlinear_arith);
    assert(12 * dd * (t - t2) == 12 * (dd * t) - 12 * (dd * t2)) by (nonlinear_arith);
    assert(-(5 * SCALE) <= 2 * SCALE * (3 * q1 + 2 * q2) - 12 * dd * (t - t2) <= 5 * SCALE);
}

/// One quadrature node of a lifted line: the node's contribution, scaled by
/// `4 * SCALE^2`, differs from `12 * dist * w * (t - t2)` by at most the
/// accumulated rounding slack of the products, the plane norm and the final
/// division, where `dist` is the rounded Euclidean distance of the line.
proof fn lemma_line_node(ddx: int, ddy: int, t: int, t2: int, w: int)
    requires
        -2 * MAX_COORD <= ddx <= 2 * MAX_COORD,
        -2 * MAX_COORD <= ddy <= 2 * MAX_COORD,
        t2 == fxm(t, t),
        0 <= t2 <= t <= SCALE,
        0 < w <= 417959183673,
    ensures
        ({
            let dx = 3 * fxm(-2 * ddx, t2) + 2 * fxm(3 * ddx, t);
            let dy = 3 * fxm(-2 * ddy, t2) + 2 * fxm(3 * ddy, t);
            let dist = sqrt_floor(ddx * ddx + ddy * ddy);
            let piece = rdiv(w * sqrt_floor(dx * dx + dy * dy), 2 * SCALE);
            &&& 4_000_000_000_000_000_000_000_000 * piece - 12 * dist * (w * (t - t2)) <= 2
                * SCALE * SCALE + 23 * SCALE * w
            &&& -(2 * SCALE * SCALE + 23 * SCALE * w) <= 4_000_000_000_000_000_000_000_000 * piece
                - 12 * dist * (w * (t - t2))
        }),
{
    let g = t - t2;
    let dx = 3 * fxm(-2 * ddx, t2) + 2 * fxm(3 * ddx, t);
    let dy = 3 * fxm(-2 * ddy, t2) + 2 * fxm(3 * ddy, t);
    lemma_line_axis(ddx, t, t2);
    lemma_line_axis(ddy, t, t2);
    let px = 2 * SCALE * dx;
    let py = 2 * SCALE * dy;
    let qx = 12 * ddx * g;
    let qy = 12 * ddy * g;
    let u1 = px - qx;
    let u2 = py - qy;
    assert(ddx * ddx + ddy * ddy >= 0) by (nonlinear_arith);
    let m2 = ddx * ddx + ddy * ddy;
    let dist = sqrt_floor(m2);
    crate::fixed::lemma_sqrt_floor_props(m2);
    let sp = sqrt_floor(dx * dx + dy * dy);
    // the scaled vector's norm is the scaled norm, up to the factor
    assert(dx * dx + dy * dy >= 0) by (nonlinear_arith);
    crate::fixed::lemma_sqrt_scale(2 * SCALE, dx * dx + dy * dy);
    assert(px * px + py * py == (2 * SCALE) * (2 * SCALE) * (dx * dx + dy * dy))
        by (nonlinear_arith)
        requires px == 2 * SCALE * dx && py == 2 * SCALE * dy;
    let sq_p = sqrt_floor(px * px + py * py);
    assert(2 * SCALE * sp <= sq_p <= 2 * SCALE * sp + 2 * SCALE);
    // the exact node vector's norm is the scaled distance, up to the factor
    crate::fixed::lemma_sqrt_scale(12 * g, m2);
    assert(qx * qx + qy * qy == (12 * g) * (12 * g) * m2) by (nonlinear_arith)
        requires qx == 12 * ddx * g && qy == 12 * ddy * g && m2 == ddx * ddx + ddy * ddy;
    let sq_q = sqrt_floor(qx * qx + qy * qy);
    assert((12 * g) * dist <= sq_q <= (12 * g) * dist + 12 * g);
    // the two vectors differ by the rounding vector, whose norm is small
    crate::fixed::lemma_sqrt_norm_triangle(px, py, qx, qy);
    let sq_u = sqrt_floor((px - qx) * (px - qx) + (py - qy) * (py - qy));
    assert(u1 * u1 + u2 * u2 <= 64 * SCALE * SCALE) by (nonlinear_arith)
        requires -(5 * SCALE) <= u1 <= 5 * SCALE && -(5 * SCALE) <= u2 <= 5 * SCALE;
    assert(u1 * u1 + u2 * u2 >= 0) by (nonlinear_arith);
    assert(64 * SCALE * SCALE == (8 * SCALE) * (8 * SCALE)) by (nonlinear_arith);
    crate::fixed::lemma_sqrt_le(u1 * u1 + u2 * u2, 8 * SCALE);
    assert(0 <= sq_u <= 8 * SCALE);
    // combine: the scaled speed tracks the scaled distance share
    assert(sq_p <= sq_q + sq_u + 1 && sq_q <= sq_p + sq_u + 1);
    assert(-(10 * SCALE + 1) <= 2 * SCALE * sp - (12 * g) * dist <= 12 * g + 8 * SCALE + 1);
    // the weighted, rounded contribution
    let piece = rdiv(w * sp, 2 * SCALE);
    crate::fixed::lemma_rdiv_error(w * sp, 2 * SCALE);
    let x0 = 2 * (2 * SCALE) * piece - 2 * (w * sp);
    assert(-(2 * SCALE * SCALE) <= SCALE * x0 <= 2 * SCALE * SCALE) by (nonlinear_arith)
        requires -(2 * SCALE) <= x0 <= 2 * SCALE;
    assert(SCALE * x0 == 4_000_000_000_000_000_000_000_000 * piece - 2 * SCALE * (w * sp))
        by (nonlinear_arith)
        requires x0 == 2 * (2 * SCALE) * piece - 2 * (w * sp) && SCALE == 1_000_000_000_000;
    assert(-((10 * SCALE + 1) * w) <= w * (2 * SCALE * sp) - w * ((12 * g) * dist) <= (12 * g + 8
        * SCALE + 1) * w) by (nonlinear_arith)
        requires
            0 < w,
            -(10 * SCALE + 1) <= 2 * SCALE * sp - (12 * g) * dist <= 12 * g + 8 * SCALE + 1,
    ;
    assert((10 * SCALE + 1) * w <= 23 * SCALE * w) by (nonlinear_arith)
        requires 0 < w;
    assert((12 * g + 8 * SCALE + 1) * w <= 23 * SCALE * w) by (nonlinear_arith)
        requires 0 < w && 0 <= g <= SCALE;
    assert(2 * SCALE * (w * sp) == w * (2 * SCALE * sp)) by (nonlinear_arith);
    assert(w * ((12 * g) * dist) == 12 * dist * (w * g)) by (nonlinear_arith);
}

/// Summing the seven node bounds: the scaled quadrature sum tracks the
/// scaled distance within a fixed slack plus one scale unit per distance
/// unit.
proof fn lemma_line_sum(
    p0: int, p1: int, p2: int, p3: int, p4: int, p5: int, p6: int, ad: int, lt: int,
)
    requires
        ad >= 0,
        lt == p0 + p1 + p2 + p3 + p4 + p5 + p6,
        -(4978154221887000000000000) <= 4_000_000_000_000_000_000_000_000 * p0 - 12 * ad * (129484966169
            * (25446043829 - 647501147)) <= 4978154221887000000000000,
        -(8433224004247000000000000) <= 4_000_000_000_000_000_000_000_000 * p1 - 12 * ad * (279705391489
            * (129234407200 - 16701532004)) <= 8433224004247000000000000,
        -(10782091161615000000000000) <= 4_000_000_000_000_000_000_000_000 * p2 - 12 * ad * (381830050505
            * (297077424311 - 88254996035)) <= 10782091161615000000000000,
        -(11613061224479000000000000) <= 4_000_000_000_000_000_000_000_000 * p3 - 12 * ad * (417959183673
            * (500000000000 - 250000000000)) <= 11613061224479000000000000,
        -(10782091161615000000000000) <= 4_000_000_000_000_000_000_000_000 * p4 - 12 * ad * (381830050505
            * (702922575689 - 494100147413)) <= 10782091161615000000000000,
        -(8433224004247000000000000) <= 4_000_000_000_000_000_000_000_000 * p5 - 12 * ad * (279705391489
            * (870765592800 - 758232717604)) <= 8433224004247000000000000,
        -(4978154221887000000000000) <= 4_000_000_000_000_000_000_000_000 * p6 - 12 * ad * (129484966169
            * (974553956171 - 949755413489)) <= 4978154221887000000000000,
    ensures
        -(59999999999977000000000000 + ad * 1_000_000_000_000) <= 4_000_000_000_000_000_000_000_000 * (lt - ad)
            <= 59999999999977000000000000 + ad * 1_000_000_000_000,
{
    assert(12 * ad * (129484966169 * (25446043829 - 647501147)) == ad * 38532461522631270303096)
        by (nonlinear_arith);
    assert(12 * ad * (279705391489 * (129234407200 - 16701532004)) == ad * 377712622944959491282128)
        by (nonlinear_arith);
    assert(12 * ad * (381830050505 * (297077424311 - 88254996035)) == ad * 956816140022421840952560)
        by (nonlinear_arith);
    assert(12 * ad * (417959183673 * (500000000000 - 250000000000)) == ad * 1253877551019000000000000)
        by (nonlinear_arith);
    assert(12 * ad * (381830050505 * (702922575689 - 494100147413)) == ad * 956816140022421840952560)
        by (nonlinear_arith);
    assert(12 * ad * (279705391489 * (870765592800 - 758232717604)) == ad * 377712622944959491282128)
        by (nonlinear_arith);
    assert(12 * ad * (129484966169 * (974553956171 - 949755413489)) == ad * 38532461522631270303096)
        by (nonlinear_arith);
    assert(-59999999999977000000000000 <= 4_000_000_000_000_000_000_000_000 * p0
        + 4_000_000_000_000_000_000_000_000 * p1 + 4_000_000_000_000_000_000_000_000 * p2
        + 4_000_000_000_000_000_000_000_000 * p3 + 4_000_000_000_000_000_000_000_000 * p4
        + 4_000_000_000_000_000_000_000_000 * p5 + 4_000_000_000_000_000_000_000_000 * p6 - ad
        * 3999999999999025205075568 <= 59999999999977000000000000);
    assert(4_000_000_000_000_000_000_000_000 * (lt - ad) == 4_000_000_000_000_000_000_000_000 * p0
        + 4_000_000_000_000_000_000_000_000 * p1 + 4_000_000_000_000_000_000_000_000 * p2
        + 4_000_000_000_000_000_000_000_000 * p3 + 4_000_000_000_000_000_000_000_000 * p4
        + 4_000_000_000_000_000_000_000_000 * p5 + 4_000_000_000_000_000_000_000_000 * p6
        - 4_000_000_000_000_000_000_000_000 * ad) by (nonlinear_arith)
        requires
            lt == p0 + p1 + p2 + p3 + p4 + p5 + p6,
    ;
    assert(0 <= ad * 974_794_924_432 <= ad * 1_000_000_000_000) by (nonlinear_arith)
        requires ad >= 0;
    assert(ad * 3999999999999025205075568 + ad * 974_794_924_432 == ad
        * 4_000_000_000_000_000_000_000_000) by (nonlinear_arith);
}

/// Dividing the scaled bound back down: the computed length misses the
/// distance by at most one part in four trillion plus sixteen units.
proof fn lemma_line_div(lt: int, ad: int)
    requires
        ad >= 0,
        -(59999999999977000000000000 + ad * 1_000_000_000_000) <= 4_000_000_000_000_000_000_000_000 * (lt - ad)
            <= 59999999999977000000000000 + ad * 1_000_000_000_000,
    ensures
        lt - ad <= ad / (4 * SCALE) + 16,
        ad - lt <= ad / (4 * SCALE) + 16,
{
    let q = ad / (4 * SCALE);
    vstd::arithmetic::div_mod::lemma_fundamental_div_mod(ad, 4 * SCALE);
    vstd::arithmetic::div_mod::lemma_mod_bound(ad, 4 * SCALE);
    let r = ad % (4 * SCALE);
    assert(ad == 4 * SCALE * q + r);
    assert(1_000_000_000_000 * ad == 1_000_000_000_000 * (4 * SCALE * q) + 1_000_000_000_000 * r)
        by (nonlinear_arith)
        requires ad == 4 * SCALE * q + r;
    assert(1_000_000_000_000 * (4 * SCALE * q) == 4_000_000_000_000_000_000_000_000 * q)
        by (nonlinear_arith)
        requires SCALE == 1_000_000_000_000;
    assert(ad * 1_000_000_000_000 == 1_000_000_000_000 * ad) by (nonlinear_arith);
    if lt - ad > q + 16 {
        assert(4_000_000_000_000_000_000_000_000 * (lt - ad) >= 4_000_000_000_000_000_000_000_000
            * (q + 17)) by (nonlinear_arith)
            requires lt - ad >= q + 17;
        assert(4_000_000_000_000_000_000_000_000 * (q + 17) == 4_000_000_000_000_000_000_000_000
            * q + 68_000_000_000_000_000_000_000_000) by (nonlinear_arith);
        assert(false);
    }
    if ad - lt > q + 16 {
        assert(4_000_000_000_000_000_000_000_000 * (lt - ad) <= 4_000_000_000_000_000_000_000_000
            * (-(q + 17))) by (nonlinear_arith)
            requires lt - ad <= -(q + 17);
        assert(4_000_000_000_000_000_000_000_000 * (-(q + 17)) == -(
        4_000_000_000_000_000_000_000_000 * q) - 68_000_000_000_000_000_000_000_000)
            by (nonlinear_arith);
        assert(false);
    }
}

/// The quadrature length of a curve whose derivative at every node is that of
/// a lifted line with coordinate differences `(ddx, ddy)` equals the line's
/// Euclidean length, up to a relative error of a quarter unit in a trillion
/// and sixteen fixed-point units.
#[verifier::rlimit(100)]
#[verifier::spinoff_prover]
proof fn lemma_line_quadrature(c: CanonCmd, ddx: int, ddy: int)
    requires
        is_curve(c),
        -2 * MAX_COORD <= ddx <= 2 * MAX_COORD,
        -2 * MAX_COORD <= ddy <= 2 * MAX_COORD,
        forall|k: int|
            0 <= k < 7 ==> #[trigger] curve_dx(c, gauss_t(k)) == 3 * fxm(
                -2 * ddx,
                fxm(gauss_t(k), gauss_t(k)),
            ) + 2 * fxm(3 * ddx, gauss_t(k)),
        forall|k: int|
            0 <= k < 7 ==> #[trigger] curve_dy(c, gauss_t(k)) == 3 * fxm(
                -2 * ddy,
                fxm(gauss_t(k), gauss_t(k)),
            ) + 2 * fxm(3 * ddy, gauss_t(k)),
    ensures
        spec_cmd_len(c) - sqrt_floor(ddx * ddx + ddy * ddy) <= sqrt_floor(
            ddx * ddx + ddy * ddy,
        ) / (4 * SCALE) + 16,
        sqrt_floor(ddx * ddx + ddy * ddy) - spec_cmd_len(c) <= sqrt_floor(
            ddx * ddx + ddy * ddy,
        ) / (4 * SCALE) + 16,
{
    assert(ddx * ddx + ddy * ddy >= 0) by (nonlinear_arith);
    crate::fixed::lemma_sqrt_floor_props(ddx * ddx + ddy * ddy);
    let dist = sqrt_floor(ddx * ddx + ddy * ddy);
    let lt = spec_cmd_len(c);
    assert(len_partial(c, 0) == 0);
    assert(len_partial(c, 1) == node_contrib(c, 0));
    assert(len_partial(c, 2) == len_partial(c, 1) + node_contrib(c, 1));
    assert(len_partial(c, 3) == len_partial(c, 2) + node_contrib(c, 2));
    assert(len_partial(c, 4) == len_partial(c, 3) + node_contrib(c, 3));
    assert(len_partial(c, 5) == len_partial(c, 4) + node_contrib(c, 4));
    assert(len_partial(c, 6) == len_partial(c, 5) + node_contrib(c, 5));
    assert(len_partial(c, 7) == len_partial(c, 6) + node_contrib(c, 6));
    // the squared nodes, evaluated
    assert(fxm(25446043829, 25446043829) == 647501147);
    assert(fxm(129234407200, 129234407200) == 16701532004);
    assert(fxm(297077424311, 297077424311) == 88254996035);
    assert(fxm(500000000000, 500000000000) == 250000000000);
    assert(fxm(702922575689, 702922575689) == 494100147413);
    assert(fxm(870765592800, 870765592800) == 758232717604);
    assert(fxm(974553956171, 974553956171) == 949755413489);
    // the derivative at every node has the lifted line's shape
    assert(curve_dx(c, gauss_t(0)) == 3 * fxm(-2 * ddx, 647501147) + 2 * fxm(3 * ddx, 25446043829));
    assert(curve_dy(c, gauss_t(0)) == 3 * fxm(-2 * ddy, 647501147) + 2 * fxm(3 * ddy, 25446043829));
    assert(curve_dx(c, gauss_t(1)) == 3 * fxm(-2 * ddx, 16701532004) + 2 * fxm(3 * ddx, 129234407200));
    assert(curve_dy(c, gauss_t(1)) == 3 * fxm(-2 * ddy, 16701532004) + 2 * fxm(3 * ddy, 129234407200));
    assert(curve_dx(c, gauss_t(2)) == 3 * fxm(-2 * ddx, 88254996035) + 2 * fxm(3 * ddx, 297077424311));
    assert(curve_dy(c, gauss_t(2)) == 3 * fxm(-2 * ddy, 88254996035) + 2 * fxm(3 * ddy, 297077424311));
    assert(curve_dx(c, gauss_t(3)) == 3 * fxm(-2 * ddx, 250000000000) + 2 * fxm(3 * ddx, 500000000000));
    assert(curve_dy(c, gauss_t(3)) == 3 * fxm(-2 * ddy, 250000000000) + 2 * fxm(3 * ddy, 500000000000));
    assert(curve_dx(c, gauss_t(4)) == 3 * fxm(-2 * ddx, 494100147413) + 2 * fxm(3 * ddx, 702922575689));
    assert(curve_dy(c, gauss_t(4)) == 3 * fxm(-2 * ddy, 494100147413) + 2 * fxm(3 * ddy, 702922575689));
    assert(curve_dx(c, gauss_t(5)) == 3 * fxm(-2 * ddx, 758232717604) + 2 * fxm(3 * ddx, 870765592800));
    assert(curve_dy(c, gauss_t(5)) == 3 * fxm(-2 * ddy, 758232717604) + 2 * fxm(3 * ddy, 870765592800));
    assert(curve_dx(c, gauss_t(6)) == 3 * fxm(-2 * ddx, 949755413489) + 2 * fxm(3 * ddx, 974553956171));
    assert(curve_dy(c, gauss_t(6)) == 3 * fxm(-2 * ddy, 949755413489) + 2 * fxm(3 * ddy, 974553956171));
    lemma_line_node(ddx, ddy, 25446043829, 647501147, 129484966169);
    lemma_line_node(ddx, ddy, 129234407200, 16701532004, 279705391489);
    lemma_line_node(ddx, ddy, 297077424311, 88254996035, 381830050505);
    lemma_line_node(ddx, ddy, 500000000000, 250000000000, 417959183673);
    lemma_line_node(ddx, ddy, 702922575689, 494100147413, 381830050505);
    lemma_line_node(ddx, ddy, 870765592800, 758232717604, 279705391489);
    lemma_line_node(ddx, ddy, 974553956171, 949755413489, 129484966169);
    lemma_line_sum(
        node_contrib(c, 0),
        node_contrib(c, 1),
        node_contrib(c, 2),
        node_contrib(c, 3),
        node_contrib(c, 4),
        node_contrib(c, 5),
        node_contrib(c, 6),
        dist,
        lt,
    );
    lemma_line_div(lt, dist);
}

/// Line-length exactness: the arc length the engine computes for a line from
/// `s` to `e`, lifted to a cubic, equals the Euclidean distance of the two
/// end points, within a relative error of one part in four trillion plus
/// sixteen fixed-point units (well under the quadrature tolerance).
pub proof fn lemma_line_length(s: Pt, e: Pt)
    requires
        crate::canonical::pt_wf(s),
        crate::canonical::pt_wf(e),
    ensures
        ({
            let dist = sqrt_floor(
                (e.x - s.x) * (e.x - s.x) + (e.y - s.y) * (e.y - s.y),
            );
            let computed = spec_cmd_len(crate::canonical::line_cubic(s, e));
            &&& computed - dist <= dist / (4 * SCALE) + 16
            &&& dist - computed <= dist / (4 * SCALE) + 16
        }),
{
    let c = crate::canonical::line_cubic(s, e);
    let ddx = e.x - s.x;
    let ddy = e.y - s.y;
    assert forall|k: int|
        0 <= k < 7 implies #[trigger] curve_dx(c, gauss_t(k)) == 3 * fxm(
        -2 * ddx,
        fxm(gauss_t(k), gauss_t(k)),
    ) + 2 * fxm(3 * ddx, gauss_t(k)) by {
        let t = gauss_t(k);
        assert(curve_dx(c, t) == cubic_deriv(s.x as int, s.x as int, e.x as int, e.x as int, t));
    }
    assert forall|k: int|
        0 <= k < 7 implies #[trigger] curve_dy(c, gauss_t(k)) == 3 * fxm(
        -2 * ddy,
        fxm(gauss_t(k), gauss_t(k)),
    ) + 2 * fxm(3 * ddy, gauss_t(k)) by {
        let t = gauss_t(k);
        assert(curve_dy(c, t) == cubic_deriv(s.y as int, s.y as int, e.y as int, e.y as int, t));
    }
    lemma_line_quadrature(c, ddx, ddy);
}

} // verus!
