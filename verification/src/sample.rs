//! Adaptive sampler: each curve receives a share of the total point budget
//! proportional to its share of the path's total arc length, and is then
//! evaluated at evenly spaced parameter values.
//!
//! A curve allotted `steps` points is evaluated at the `steps + 1` parameter
//! values `i / steps` for `i = 0 ..= steps`, so it contributes its own end
//! points; adjacent curves therefore repeat their junction point, which the
//! deduplicator later collapses.  A curve allotted no steps still contributes
//! its start point.  A move command contributes nothing.  Samples are emitted
//! in path order: curve order, then increasing parameter within a curve.

use vstd::prelude::*;
use crate::canonical::{CanonCmd, Pt, cmd_wf, cmds_wf, in_range, is_curve, cmd_start, cmd_end};
use crate::arclen::{
    spec_cmd_len, spec_total_len, LEN_MAX, lemma_cmd_len_bounds, cmd_arc_length,
};
use crate::fixed::{
    SCALE, MAX_COORD, RD_NUM, RD_DEN, rdiv, fxm, fx_mul, round_div, lemma_rdiv_bound,
    lemma_rdiv_sign, lemma_rdiv_exact, lemma_rdiv_mono,
};

verus! {

/// Largest coordinate magnitude a sample point can have: a curve stays within
/// a small multiple of its control points' range.
pub const SAMPLE_MAX: i128 = 81_000_000_000_000_000;

/// One coordinate of a cubic curve at parameter `t`:
/// `(1-t)^3 c0 + 3 (1-t)^2 t c1 + 3 (1-t) t^2 c2 + t^3 c3` in fixed point.
pub open spec fn cubic_eval(c0: int, c1: int, c2: int, c3: int, t: int) -> int {
    let mt = SCALE - t;
    let mt2 = fxm(mt, mt);
    let mt3 = fxm(mt2, mt);
    let t2 = fxm(t, t);
    let t3 = fxm(t2, t);
    fxm(mt3, c0) + 3 * fxm(fxm(mt2, t), c1) + 3 * fxm(fxm(mt, t2), c2) + fxm(t3, c3)
}

/// One coordinate of a quadratic curve at parameter `t`:
/// `(1-t)^2 c0 + 2 (1-t) t c1 + t^2 c2` in fixed point.
pub open spec fn quad_eval(c0: int, c1: int, c2: int, t: int) -> int {
    let mt = SCALE - t;
    let mt2 = fxm(mt, mt);
    let t2 = fxm(t, t);
    fxm(mt2, c0) + 2 * fxm(fxm(mt, t), c1) + fxm(t2, c2)
}

/// The point of a curve at parameter `t`.
pub open spec fn curve_point(c: CanonCmd, t: int) -> Pt {
    match c {
        CanonCmd::Move { p } => p,
        CanonCmd::Cubic { p0, p1, p2, p3 } => Pt {
            x: cubic_eval(p0.x as int, p1.x as int, p2.x as int, p3.x as int, t) as i128,
            y: cubic_eval(p0.y as int, p1.y as int, p2.y as int, p3.y as int, t) as i128,
        },
        CanonCmd::Quad { p0, p1, p2 } => Pt {
            x: quad_eval(p0.x as int, p1.x as int, p2.x as int, t) as i128,
            y: quad_eval(p0.y as int, p1.y as int, p2.y as int, t) as i128,
        },
    }
}

/// The parameter value of sample `i` out of `steps`: `i / steps`, or zero for
/// a curve allotted no steps.
pub open spec fn sample_param(i: int, steps: int) -> int {
    if steps <= 0 {
        0
    } else {
        rdiv(i * SCALE, steps)
    }
}

/// The points a curve allotted `steps` steps contributes, in parameter order.
pub open spec fn curve_samples(c: CanonCmd, steps: int) -> Seq<Pt> {
    Seq::new((steps + 1) as nat, |i: int| curve_point(c, sample_param(i, steps)))
}

/// How many steps a curve of length `len` receives out of budget `n` when the
/// whole path has length `total`: `n * len / total`, rounded to nearest.
pub open spec fn spec_steps(len: int, total: int, n: u32) -> int {
    rdiv(n * len, total)
}

/// The points one command contributes.
pub open spec fn cmd_samples(c: CanonCmd, total: int, n: u32) -> Seq<Pt> {
    if is_curve(c) {
        curve_samples(c, spec_steps(spec_cmd_len(c), total, n))
    } else {
        Seq::empty()
    }
}

/// The sample sequence of a whole command list, in path order.
pub open spec fn spec_sample_all(s: Seq<CanonCmd>, total: int, n: u32) -> Seq<Pt>
    decreases s.len(),
{
    if s.len() == 0 {
        Seq::empty()
    } else {
        spec_sample_all(s.drop_last(), total, n) + cmd_samples(s.last(), total, n)
    }
}

/// Every point of a sequence is within the sample coordinate bound.
pub open spec fn pts_bounded(s: Seq<Pt>) -> bool {
    forall|j: int|
        0 <= j < s.len() ==> -SAMPLE_MAX <= (#[trigger] s[j]).x <= SAMPLE_MAX && -SAMPLE_MAX
            <= s[j].y <= SAMPLE_MAX
}

/// Fixed-point multiplication is commutative.
pub proof fn lemma_fxm_comm(a: int, b: int)
    ensures
        fxm(a, b) == fxm(b, a),
{
    assert(a * b == b * a) by (nonlinear_arith);
}

/// A fixed-point product of two values in `[0, 1+eps]` stays in `[0, 1+2eps]`.
pub proof fn lemma_unit_mul(a: int, b: int)
    requires
        0 <= a <= SCALE + 1,
        0 <= b <= SCALE + 1,
    ensures
        0 <= fxm(a, b) <= SCALE + 4,
{
    assert(0 <= a * b <= (SCALE + 1) * (SCALE + 1)) by (nonlinear_arith)
        requires 0 <= a <= SCALE + 1 && 0 <= b <= SCALE + 1;
    lemma_rdiv_sign(a * b, SCALE as int);
    lemma_rdiv_bound(a * b, SCALE as int, (SCALE + 1) * (SCALE + 1));
    let q = rdiv(a * b, SCALE as int);
    if q > SCALE + 4 {
        assert(q * SCALE > (SCALE + 1) * (SCALE + 1) + SCALE) by (nonlinear_arith)
            requires q >= SCALE + 5;
    }
}

/// A basis value in `[0, 1+eps]` times a representable coordinate is nearly
/// a representable coordinate.
pub proof fn lemma_term_bound(b: int, v: int)
    requires
        0 <= b <= SCALE + 4,
        in_range(v),
    ensures
        -10_000_000_001_000_000 <= fxm(b, v) <= 10_000_000_001_000_000,
{
    lemma_fxm_comm(b, v);
    assert(10_000_000_001_000_000int * SCALE >= MAX_COORD * (SCALE + 4) + SCALE)
        by (nonlinear_arith);
    crate::arclen::lemma_fxm_abs_bound(v, b, MAX_COORD as int, SCALE + 4, 10_000_000_001_000_000);
}

/// The evaluated coordinates of a well-formed curve are bounded.
pub proof fn lemma_eval_bounds(c: CanonCmd, t: int)
    requires
        cmd_wf(c),
        0 <= t <= SCALE,
    ensures
        -SAMPLE_MAX <= curve_point(c, t).x as int <= SAMPLE_MAX,
        -SAMPLE_MAX <= curve_point(c, t).y as int <= SAMPLE_MAX,
        curve_point(c, t).x as int == match c {
            CanonCmd::Move { p } => p.x as int,
            CanonCmd::Cubic { p0, p1, p2, p3 } => cubic_eval(
                p0.x as int, p1.x as int, p2.x as int, p3.x as int, t),
            CanonCmd::Quad { p0, p1, p2 } => quad_eval(p0.x as int, p1.x as int, p2.x as int, t),
        },
        curve_point(c, t).y as int == match c {
            CanonCmd::Move { p } => p.y as int,
            CanonCmd::Cubic { p0, p1, p2, p3 } => cubic_eval(
                p0.y as int, p1.y as int, p2.y as int, p3.y as int, t),
            CanonCmd::Quad { p0, p1, p2 } => quad_eval(p0.y as int, p1.y as int, p2.y as int, t),
        },
{
    let mt = SCALE - t;
    crate::arclen::lemma_t2_range(t);
    crate::arclen::lemma_t2_range(mt);
    let t2 = fxm(t, t);
    let mt2 = fxm(mt, mt);
    lemma_unit_mul(t2, t);
    lemma_unit_mul(mt2, mt);
    lemma_unit_mul(mt2, t);
    lemma_unit_mul(mt, t2);
    lemma_unit_mul(mt, t);
    match c {
        CanonCmd::Move { .. } => {},
        CanonCmd::Cubic { p0, p1, p2, p3 } => {
            lemma_term_bound(fxm(mt2, mt), p0.x as int);
            lemma_term_bound(fxm(mt2, t), p1.x as int);
            lemma_term_bound(fxm(mt, t2), p2.x as int);
            lemma_term_bound(fxm(t2, t), p3.x as int);
            lemma_term_bound(fxm(mt2, mt), p0.y as int);
            lemma_term_bound(fxm(mt2, t), p1.y as int);
            lemma_term_bound(fxm(mt, t2), p2.y as int);
            lemma_term_bound(fxm(t2, t), p3.y as int);
        },
        CanonCmd::Quad { p0, p1, p2 } => {
            lemma_term_bound(mt2, p0.x as int);
            lemma_term_bound(fxm(mt, t), p1.x as int);
            lemma_term_bound(t2, p2.x as int);
            lemma_term_bound(mt2, p0.y as int);
            lemma_term_bound(fxm(mt, t), p1.y as int);
            lemma_term_bound(t2, p2.y as int);
        },
    }
}

/// `1 * v == v` and `0 * v == 0` hold exactly in fixed point.
pub proof fn lemma_fxm_units(v: int)
    ensures
        fxm(SCALE as int, v) == v,
        fxm(0, v) == 0,
        fxm(v, 0) == 0,
{
    assert((SCALE as int) * v == v * SCALE) by (nonlinear_arith);
    lemma_rdiv_exact(v, SCALE as int);
    assert(0 * v == 0int * SCALE) by (nonlinear_arith);
    assert(v * 0 == 0int * SCALE) by (nonlinear_arith);
    lemma_rdiv_exact(0, SCALE as int);
}

/// At parameter zero a curve is at its start point; at parameter one it is at
/// its end point — exactly, despite the rounding multiplications.
pub proof fn lemma_curve_point_ends(c: CanonCmd)
    requires
        cmd_wf(c),
        is_curve(c),
    ensures
        curve_point(c, 0) == cmd_start(c),
        curve_point(c, SCALE as int) == cmd_end(c),
{
    lemma_fxm_units(SCALE as int);
    lemma_fxm_units(0);
    // at t == 0: mt == 1, all powers of mt are 1, all powers of t are 0
    // at t == 1: the mirror image
    match c {
        CanonCmd::Move { .. } => {},
        CanonCmd::Cubic { p0, p1, p2, p3 } => {
            lemma_fxm_units(p0.x as int);
            lemma_fxm_units(p0.y as int);
            lemma_fxm_units(p1.x as int);
            lemma_fxm_units(p1.y as int);
            lemma_fxm_units(p2.x as int);
            lemma_fxm_units(p2.y as int);
            lemma_fxm_units(p3.x as int);
            lemma_fxm_units(p3.y as int);
            assert(cubic_eval(p0.x as int, p1.x as int, p2.x as int, p3.x as int, 0) == p0.x);
            assert(cubic_eval(p0.y as int, p1.y as int, p2.y as int, p3.y as int, 0) == p0.y);
            assert(cubic_eval(p0.x as int, p1.x as int, p2.x as int, p3.x as int, SCALE as int)
                == p3.x);
            assert(cubic_eval(p0.y as int, p1.y as int, p2.y as int, p3.y as int, SCALE as int)
                == p3.y);
        },
        CanonCmd::Quad { p0, p1, p2 } => {
            lemma_fxm_units(p0.x as int);
            lemma_fxm_units(p0.y as int);
            lemma_fxm_units(p1.x as int);
            lemma_fxm_units(p1.y as int);
            lemma_fxm_units(p2.x as int);
            lemma_fxm_units(p2.y as int);
            assert(quad_eval(p0.x as int, p1.x as int, p2.x as int, 0) == p0.x);
            assert(quad_eval(p0.y as int, p1.y as int, p2.y as int, 0) == p0.y);
            assert(quad_eval(p0.x as int, p1.x as int, p2.x as int, SCALE as int) == p2.x);
            assert(quad_eval(p0.y as int, p1.y as int, p2.y as int, SCALE as int) == p2.y);
        },
    }
}

/// The first sample of every curve is its start point; with at least one
/// step, the last sample is its end point.  Junction points of consecutive
/// curves are therefore emitted by both.
pub proof fn lemma_curve_samples_ends(c: CanonCmd, steps: int)
    requires
        cmd_wf(c),
        is_curve(c),
        0 <= steps,
    ensures
        curve_samples(c, steps).len() == steps + 1,
        curve_samples(c, steps)[0] == cmd_start(c),
        steps >= 1 ==> curve_samples(c, steps)[steps] == cmd_end(c),
{
    lemma_curve_point_ends(c);
    if steps >= 1 {
        assert(0 * SCALE == 0int * steps) by (nonlinear_arith);
        lemma_rdiv_exact(0, steps);
        assert(sample_param(0, steps) == 0);
        assert(steps * (SCALE as int) == (SCALE as int) * steps) by (nonlinear_arith);
        lemma_rdiv_exact(SCALE as int, steps);
        assert(sample_param(steps, steps) == SCALE);
    } else {
        assert(sample_param(0, steps) == 0);
    }
}

/// Both sides of a curve junction emit the junction point before
/// deduplication: the last sample of a curve allotted at least one step is
/// its end point, and the first sample of the curve that continues there is
/// the same point.
pub proof fn lemma_junction_sampled(c1: CanonCmd, c2: CanonCmd, st1: int, st2: int)
    requires
        cmd_wf(c1),
        cmd_wf(c2),
        is_curve(c1),
        is_curve(c2),
        cmd_end(c1) == cmd_start(c2),
        st1 >= 1,
        st2 >= 0,
    ensures
        curve_samples(c1, st1)[st1] == cmd_end(c1),
        curve_samples(c2, st2)[0] == cmd_end(c1),
{
    lemma_curve_samples_ends(c1, st1);
    lemma_curve_samples_ends(c2, st2);
}

/// Sample parameters stay in `[0, 1]`.
pub proof fn lemma_sample_param_range(i: int, steps: int)
    requires
        0 <= i <= steps,
    ensures
        0 <= sample_param(i, steps) <= SCALE,
{
    if steps > 0 {
        lemma_rdiv_sign(i * SCALE, steps);
        assert(i * SCALE >= 0) by (nonlinear_arith)
            requires i >= 0;
        assert(i * SCALE <= steps * SCALE) by (nonlinear_arith)
            requires i <= steps;
        lemma_rdiv_mono(i * SCALE, steps * SCALE, steps);
        assert(steps * (SCALE as int) == (SCALE as int) * steps) by (nonlinear_arith);
        lemma_rdiv_exact(SCALE as int, steps);
    }
}

/// Evaluate a curve at parameter `t`; a move yields its own point.
fn curve_point_at(c: &CanonCmd, t: i128) -> (r: Pt)
    requires
        cmd_wf(*c),
        0 <= t <= SCALE,
    ensures
        r == curve_point(*c, t as int),
        -SAMPLE_MAX <= r.x <= SAMPLE_MAX,
        -SAMPLE_MAX <= r.y <= SAMPLE_MAX,
{
    proof {
        crate::arclen::lemma_t2_range(t as int);
        crate::arclen::lemma_t2_range(SCALE - t as int);
        lemma_eval_bounds(*c, t as int);
    }
    let mt: i128 = SCALE - t;
    let t2: i128 = fx_mul(t, t);
    let mt2: i128 = fx_mul(mt, mt);
    proof {
        lemma_unit_mul(t2 as int, t as int);
        lemma_unit_mul(mt2 as int, mt as int);
        lemma_unit_mul(mt2 as int, t as int);
        lemma_unit_mul(mt as int, t2 as int);
        lemma_unit_mul(mt as int, t as int);
    }
    match c {
        CanonCmd::Move { p } => {
            proof {
                assert(-SAMPLE_MAX <= p.x <= SAMPLE_MAX);
            }
            Pt { x: p.x, y: p.y }
        },
        CanonCmd::Cubic { p0, p1, p2, p3 } => {
            let t3: i128 = fx_mul(t2, t);
            let mt3: i128 = fx_mul(mt2, mt);
            let b1: i128 = fx_mul(mt2, t);
            let b2: i128 = fx_mul(mt, t2);
            proof {
                lemma_term_bound(mt3 as int, p0.x as int);
                lemma_term_bound(b1 as int, p1.x as int);
                lemma_term_bound(b2 as int, p2.x as int);
                lemma_term_bound(t3 as int, p3.x as int);
                lemma_term_bound(mt3 as int, p0.y as int);
                lemma_term_bound(b1 as int, p1.y as int);
                lemma_term_bound(b2 as int, p2.y as int);
                lemma_term_bound(t3 as int, p3.y as int);
            }
            let x: i128 = fx_mul(mt3, p0.x) + 3 * fx_mul(b1, p1.x) + 3 * fx_mul(b2, p2.x)
                + fx_mul(t3, p3.x);
            let y: i128 = fx_mul(mt3, p0.y) + 3 * fx_mul(b1, p1.y) + 3 * fx_mul(b2, p2.y)
                + fx_mul(t3, p3.y);
            Pt { x, y }
        },
        CanonCmd::Quad { p0, p1, p2 } => {
            let b: i128 = fx_mul(mt, t);
            proof {
                lemma_term_bound(mt2 as int, p0.x as int);
                lemma_term_bound(b as int, p1.x as int);
                lemma_term_bound(t2 as int, p2.x as int);
                lemma_term_bound(mt2 as int, p0.y as int);
                lemma_term_bound(b as int, p1.y as int);
                lemma_term_bound(t2 as int, p2.y as int);
            }
            let x: i128 = fx_mul(mt2, p0.x) + 2 * fx_mul(b, p1.x) + fx_mul(t2, p2.x);
            let y: i128 = fx_mul(mt2, p0.y) + 2 * fx_mul(b, p1.y) + fx_mul(t2, p2.y);
            Pt { x, y }
        },
    }
}

/// Append the `steps + 1` samples of one curve to the output.
fn sample_curve(c: &CanonCmd, steps: u32, out: &mut Vec<Pt>)
    requires
        cmd_wf(*c),
        is_curve(*c),
        pts_bounded(old(out)@),
    ensures
        final(out)@ == old(out)@ + curve_samples(*c, steps as int),
        pts_bounded(final(out)@),
{
    let ghost base = out@;
    let ghost want = curve_samples(*c, steps as int);
    let mut i: u64 = 0;
    proof {
        assert(base + want.take(0) =~= base);
    }
    while i <= steps as u64
        invariant
            cmd_wf(*c),
            is_curve(*c),
            i <= steps + 1,
            want == curve_samples(*c, steps as int),
            out@ == base + want.take(i as int),
            pts_bounded(out@),
        decreases steps + 1 - i,
    {
        proof {
            lemma_sample_param_range(i as int, steps as int);
        }
        let t: i128 = if steps == 0 {
            0
        } else {
            round_div((i as i128) * SCALE, steps as i128)
        };
        proof {
            assert(t == sample_param(i as int, steps as int));
        }
        let p: Pt = curve_point_at(c, t);
        out.push(p);
        proof {
            assert(want[i as int] == curve_point(*c, sample_param(i as int, steps as int)));
            assert(out@ =~= base + want.take(i as int + 1));
            assert(pts_bounded(out@)) by {
                assert(forall|j: int|
                    0 <= j < out@.len() - 1 ==> #[trigger] out@[j] == (base + want.take(
                        i as int,
                    ))[j]);
                assert(out@[out@.len() - 1] == p);
            }
        }
        i = i + 1;
    }
    proof {
        assert(want.take(steps + 1) =~= want);
    }
}

/// The `steps + 1` evenly spaced sample points of one cubic curve, end
/// points included.
pub fn cubic_bezier_points(p0: Pt, p1: Pt, p2: Pt, p3: Pt, steps: u32) -> (r: Vec<Pt>)
    requires
        crate::canonical::pt_wf(p0),
        crate::canonical::pt_wf(p1),
        crate::canonical::pt_wf(p2),
        crate::canonical::pt_wf(p3),
    ensures
        r@ == curve_samples(CanonCmd::Cubic { p0, p1, p2, p3 }, steps as int),
        r@.len() == steps + 1,
        pts_bounded(r@),
{
    let mut out: Vec<Pt> = Vec::new();
    sample_curve(&CanonCmd::Cubic { p0, p1, p2, p3 }, steps, &mut out);
    proof {
        assert(Seq::<Pt>::empty() + curve_samples(CanonCmd::Cubic { p0, p1, p2, p3 }, steps as int)
            =~= curve_samples(CanonCmd::Cubic { p0, p1, p2, p3 }, steps as int));
    }
    out
}

/// The `steps + 1` evenly spaced sample points of one quadratic curve, end
/// points included.
pub fn quadratic_bezier_points(p0: Pt, p1: Pt, p2: Pt, steps: u32) -> (r: Vec<Pt>)
    requires
        crate::canonical::pt_wf(p0),
        crate::canonical::pt_wf(p1),
        crate::canonical::pt_wf(p2),
    ensures
        r@ == curve_samples(CanonCmd::Quad { p0, p1, p2 }, steps as int),
        r@.len() == steps + 1,
        pts_bounded(r@),
{
    let mut out: Vec<Pt> = Vec::new();
    sample_curve(&CanonCmd::Quad { p0, p1, p2 }, steps, &mut out);
    proof {
        assert(Seq::<Pt>::empty() + curve_samples(CanonCmd::Quad { p0, p1, p2 }, steps as int)
            =~= curve_samples(CanonCmd::Quad { p0, p1, p2 }, steps as int));
    }
    out
}

/// How many curves a command list holds.
pub open spec fn curve_count(s: Seq<CanonCmd>) -> int
    decreases s.len(),
{
    if s.len() == 0 {
        0
    } else {
        curve_count(s.drop_last()) + if is_curve(s.last()) {
            1int
        } else {
            0int
        }
    }
}

/// The sum over all curves of the steps each receives.
pub open spec fn spec_steps_sum(s: Seq<CanonCmd>, total: int, n: u32) -> int
    decreases s.len(),
{
    if s.len() == 0 {
        0
    } else {
        spec_steps_sum(s.drop_last(), total, n) + if is_curve(s.last()) {
            spec_steps(spec_cmd_len(s.last()), total, n)
        } else {
            0int
        }
    }
}

/// A command list holds a nonnegative number of curves.
pub proof fn lemma_curve_count_nonneg(s: Seq<CanonCmd>)
    ensures
        curve_count(s) >= 0,
    decreases s.len(),
{
    if s.len() > 0 {
        lemma_curve_count_nonneg(s.drop_last());
    }
}

/// Dropping the last command keeps the rest well formed.
pub proof fn lemma_wf_drop_last(s: Seq<CanonCmd>)
    requires
        cmds_wf(s),
        s.len() > 0,
    ensures
        cmds_wf(s.drop_last()),
{
    assert(forall|j: int|
        0 <= j < s.len() - 1 ==> cmd_wf(#[trigger] s.drop_last()[j]) == cmd_wf(s[j]));
}

/// A list without curves has zero length and yields no samples.
pub proof fn lemma_no_curves(s: Seq<CanonCmd>, total: int, n: u32)
    requires
        curve_count(s) == 0,
    ensures
        spec_total_len(s) == 0,
        spec_sample_all(s, total, n) == Seq::<Pt>::empty(),
    decreases s.len(),
{
    if s.len() > 0 {
        lemma_curve_count_nonneg(s.drop_last());
        lemma_no_curves(s.drop_last(), total, n);
        assert(spec_sample_all(s, total, n) =~= Seq::<Pt>::empty());
    }
}

/// The scaled budget error of a step allocation: every curve's rounding is
/// off by at most half, so the sum of steps, scaled by twice the total, stays
/// within one total per curve of the scaled budget.
pub proof fn lemma_steps_sum_err(s: Seq<CanonCmd>, total: int, n: u32)
    requires
        cmds_wf(s),
        total > 0,
    ensures
        -(curve_count(s) * total) <= 2 * total * spec_steps_sum(s, total, n) - 2 * (n as int)
            * spec_total_len(s) <= curve_count(s) * total,
    decreases s.len(),
{
    if s.len() == 0 {
    } else {
        lemma_wf_drop_last(s);
        lemma_steps_sum_err(s.drop_last(), total, n);
        let cc0 = curve_count(s.drop_last());
        let sum0 = spec_steps_sum(s.drop_last(), total, n);
        let tl0 = spec_total_len(s.drop_last());
        if is_curve(s.last()) {
            let len = spec_cmd_len(s.last());
            let r = spec_steps(len, total, n);
            crate::fixed::lemma_rdiv_error((n as int) * len, total);
            assert(2 * total * (sum0 + r) == 2 * total * sum0 + 2 * total * r)
                by (nonlinear_arith);
            assert(2 * (n as int) * (tl0 + len) == 2 * (n as int) * tl0 + 2 * (n as int) * len)
                by (nonlinear_arith);
            assert(2 * total * r - 2 * ((n as int) * len) == 2 * total * r - 2 * (n as int) * len)
                by (nonlinear_arith);
            assert((cc0 + 1) * total == cc0 * total + total) by (nonlinear_arith);
            assert(spec_cmd_len(CanonCmd::Move { p: s.last()->Move_p }) == 0) by {
            }
        } else {
            assert(spec_cmd_len(s.last()) == 0);
        }
    }
}

/// Budget conservation: the steps allotted to all curves sum to the budget
/// `n`, up to one step per curve of independent-rounding slack.
pub proof fn lemma_budget_conservation(s: Seq<CanonCmd>, n: u32)
    requires
        cmds_wf(s),
        spec_total_len(s) > 0,
    ensures
        (n as int) - curve_count(s) <= spec_steps_sum(s, spec_total_len(s), n) <= (n as int)
            + curve_count(s),
{
    let total = spec_total_len(s);
    lemma_steps_sum_err(s, total, n);
    lemma_curve_count_nonneg(s);
    let cc = curve_count(s);
    let sum = spec_steps_sum(s, total, n);
    assert(2 * total * sum - 2 * (n as int) * total == 2 * total * (sum - n))
        by (nonlinear_arith);
    if sum > (n as int) + cc {
        assert(2 * total * (sum - n) > cc * total) by (nonlinear_arith)
            requires
                total > 0,
                sum - (n as int) >= cc + 1,
                cc >= 0,
        ;
    }
    if sum < (n as int) - cc {
        assert(2 * total * (sum - n) < -(cc * total)) by (nonlinear_arith)
            requires
                total > 0,
                sum - (n as int) <= -cc - 1,
                cc >= 0,
        ;
    }
}

/// How many samples a command list yields: one more than its step count per
/// curve.
pub proof fn lemma_sample_count(s: Seq<CanonCmd>, total: int, n: u32)
    requires
        cmds_wf(s),
        total > 0,
    ensures
        spec_sample_all(s, total, n).len() == spec_steps_sum(s, total, n) + curve_count(s),
    decreases s.len(),
{
    if s.len() > 0 {
        lemma_wf_drop_last(s);
        lemma_sample_count(s.drop_last(), total, n);
        if is_curve(s.last()) {
            lemma_cmd_len_bounds(s.last());
            let len = spec_cmd_len(s.last());
            assert((n as int) * len >= 0) by (nonlinear_arith)
                requires n >= 0 && len >= 0;
            lemma_rdiv_sign((n as int) * len, total);
        }
    }
}

/// A path with a single curve is sampled at exactly `n + 1` points: the whole
/// budget goes to that curve.
pub proof fn lemma_single_curve_budget(s: Seq<CanonCmd>, total: int, n: u32)
    requires
        cmds_wf(s),
        curve_count(s) == 1,
        total == spec_total_len(s),
        total > 0,
    ensures
        spec_sample_all(s, total, n).len() == n + 1,
    decreases s.len(),
{
    lemma_wf_drop_last(s);
    lemma_curve_count_nonneg(s.drop_last());
    if is_curve(s.last()) {
        assert(curve_count(s.drop_last()) == 0);
        lemma_no_curves(s.drop_last(), total, n);
        assert(spec_cmd_len(s.last()) == total);
        assert((n as int) * total == (n as int) * total);
        lemma_rdiv_exact(n as int, total);
        assert(spec_steps(total, total, n) == n);
        assert(spec_sample_all(s, total, n) =~= curve_samples(s.last(), n as int));
    } else {
        assert(spec_cmd_len(s.last()) == 0);
        lemma_single_curve_budget(s.drop_last(), total, n);
        assert(spec_sample_all(s, total, n) =~= spec_sample_all(s.drop_last(), total, n));
    }
}

/// Sample a whole Cartesian command list: each curve receives
/// `round(n * length / total)` steps and contributes that many samples plus
/// one, in path order; moves contribute nothing.
pub fn sample_all(cmds: &Vec<CanonCmd>, total: i128, n: u32) -> (r: Vec<Pt>)
    requires
        cmds_wf(cmds@),
        total == spec_total_len(cmds@),
        total > 0,
    ensures
        r@ == spec_sample_all(cmds@, total as int, n),
        pts_bounded(r@),
{
    let m: usize = cmds.len();
    let mut out: Vec<Pt> = Vec::new();
    let mut i: usize = 0;
    proof {
        assert(spec_sample_all(cmds@.take(0), total as int, n) =~= Seq::<Pt>::empty());
    }
    while i < m
        invariant
            i <= m,
            m == cmds@.len(),
            cmds_wf(cmds@),
            total == spec_total_len(cmds@),
            total > 0,
            out@ == spec_sample_all(cmds@.take(i as int), total as int, n),
            pts_bounded(out@),
        decreases m - i,
    {
        let c: CanonCmd = cmds[i];
        proof {
            assert(cmd_wf(cmds@[i as int]));
            assert(cmds@.take(i + 1).drop_last() =~= cmds@.take(i as int));
            assert(cmds@.take(i + 1).last() == cmds@[i as int]);
        }
        let is_move: bool = match &c {
            CanonCmd::Move { .. } => true,
            _ => false,
        };
        if !is_move {
            let len_i: i128 = cmd_arc_length(&c);
            proof {
                crate::arclen::lemma_cmd_len_le_total(cmds@, i as int);
                crate::arclen::lemma_total_len_bounds(cmds@);
                assert(0 <= (n as int) * len_i <= RD_NUM) by (nonlinear_arith)
                    requires 0 <= n <= 0xffff_ffffu32 && 0 <= len_i <= LEN_MAX;
                assert(total <= RD_DEN) by (nonlinear_arith)
                    requires total <= cmds@.len() * LEN_MAX && cmds@.len()
                        <= 0xffff_ffff_ffff_ffffu64 && LEN_MAX == 2_240_000_000_000_000_000i128;
            }
            let st128: i128 = round_div((n as i128) * len_i, total);
            proof {
                assert((n as int) * len_i >= 0) by (nonlinear_arith)
                    requires n >= 0 && len_i >= 0;
                lemma_rdiv_sign((n as int) * len_i, total as int);
                assert((n as int) * len_i <= (n as int) * total) by (nonlinear_arith)
                    requires len_i <= total && n >= 0;
                lemma_rdiv_mono((n as int) * len_i, (n as int) * total, total as int);
                lemma_rdiv_exact(n as int, total as int);
                assert(0 <= st128 <= n);
            }
            let st: u32 = st128 as u32;
            sample_curve(&c, st, &mut out);
            proof {
                assert(cmd_samples(cmds@[i as int], total as int, n) == curve_samples(
                    c,
                    st as int,
                ));
            }
        } else {
            proof {
                assert(cmd_samples(cmds@[i as int], total as int, n) =~= Seq::<Pt>::empty());
                assert(out@ =~= out@ + Seq::<Pt>::empty());
            }
        }
        i = i + 1;
    }
    proof {
        assert(cmds@.take(m as int) =~= cmds@);
    }
    out
}

} // verus!
