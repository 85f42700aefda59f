//! Coordinate mapper: converts canonical commands from the path's
//! top-left-origin, y-down convention into the standard y-up Cartesian
//! convention.
//!
//! Every y coordinate of every control point is negated; x coordinates and
//! the command kinds are untouched.  In fixed point the negation is exact, so
//! applying the mapping twice gives back the original command list.

use vstd::prelude::*;
use crate::canonical::{CanonCmd, Pt, pt_wf, cmd_wf, cmds_wf, is_curve, cmd_start, cmd_end};

verus! {

/// A point with its y coordinate negated.
pub open spec fn flip_pt(p: Pt) -> Pt {
    Pt { x: p.x, y: (-(p.y as int)) as i128 }
}

/// A command with every y coordinate negated.
pub open spec fn flip_cmd(c: CanonCmd) -> CanonCmd {
    match c {
        CanonCmd::Move { p } => CanonCmd::Move { p: flip_pt(p) },
        CanonCmd::Cubic { p0, p1, p2, p3 } => CanonCmd::Cubic {
            p0: flip_pt(p0),
            p1: flip_pt(p1),
            p2: flip_pt(p2),
            p3: flip_pt(p3),
        },
        CanonCmd::Quad { p0, p1, p2 } => CanonCmd::Quad {
            p0: flip_pt(p0),
            p1: flip_pt(p1),
            p2: flip_pt(p2),
        },
    }
}

/// A command list with every y coordinate negated.
pub open spec fn spec_to_cartesian(s: Seq<CanonCmd>) -> Seq<CanonCmd> {
    Seq::new(s.len(), |j: int| flip_cmd(s[j]))
}

/// Negating a representable coordinate twice is the identity.
proof fn lemma_flip_pt_involution(p: Pt)
    requires
        pt_wf(p),
    ensures
        flip_pt(flip_pt(p)) == p,
        pt_wf(flip_pt(p)),
{
}

/// Mapping a canonical command list to Cartesian coordinates twice yields the
/// original list: the y negation is an exact involution.
pub proof fn lemma_cartesian_involution(s: Seq<CanonCmd>)
    requires
        cmds_wf(s),
    ensures
        spec_to_cartesian(spec_to_cartesian(s)) == s,
{
    let once = spec_to_cartesian(s);
    let twice = spec_to_cartesian(once);
    assert forall|j: int| 0 <= j < s.len() implies twice[j] == s[j] by {
        assert(cmd_wf(s[j]));
        match s[j] {
            CanonCmd::Move { p } => {
                lemma_flip_pt_involution(p);
            },
            CanonCmd::Cubic { p0, p1, p2, p3 } => {
                lemma_flip_pt_involution(p0);
                lemma_flip_pt_involution(p1);
                lemma_flip_pt_involution(p2);
                lemma_flip_pt_involution(p3);
            },
            CanonCmd::Quad { p0, p1, p2 } => {
                lemma_flip_pt_involution(p0);
                lemma_flip_pt_involution(p1);
                lemma_flip_pt_involution(p2);
            },
        }
    }
    assert(twice =~= s);
}

/// The mapping keeps every command well formed.
pub proof fn lemma_to_cartesian_wf(s: Seq<CanonCmd>)
    requires
        cmds_wf(s),
    ensures
        cmds_wf(spec_to_cartesian(s)),
{
    let out = spec_to_cartesian(s);
    assert forall|j: int| 0 <= j < out.len() implies cmd_wf(#[trigger] out[j]) by {
        assert(cmd_wf(s[j]));
    }
}

/// The mapping preserves curve kinds and the linkage of start and end
/// points: if every curve of `s` starts where its predecessor ended, the same
/// holds of the Cartesian list.
pub proof fn lemma_cartesian_chained(s: Seq<CanonCmd>)
    requires
        forall|j: int|
            1 <= j < s.len() && is_curve(#[trigger] s[j]) ==> cmd_start(s[j]) == cmd_end(
                s[j - 1],
            ),
    ensures
        forall|j: int|
            1 <= j < spec_to_cartesian(s).len() && is_curve(
                #[trigger] spec_to_cartesian(s)[j],
            ) ==> cmd_start(spec_to_cartesian(s)[j]) == cmd_end(spec_to_cartesian(s)[j - 1]),
{
    let out = spec_to_cartesian(s);
    assert forall|j: int|
        1 <= j < out.len() && is_curve(#[trigger] out[j]) implies cmd_start(out[j]) == cmd_end(
        out[j - 1],
    ) by {
        assert(out[j] == flip_cmd(s[j]));
        assert(out[j - 1] == flip_cmd(s[j - 1]));
        assert(is_curve(s[j]));
        assert(cmd_start(flip_cmd(s[j])) == flip_pt(cmd_start(s[j])));
        assert(cmd_end(flip_cmd(s[j - 1])) == flip_pt(cmd_end(s[j - 1])));
    }
}

/// Negate one coordinate.
fn neg_coord(v: i128) -> (r: i128)
    requires
        -crate::fixed::MAX_COORD <= v <= crate::fixed::MAX_COORD,
    ensures
        r == -(v as int),
{
    -v
}

/// Negate both y coordinates of a point.
fn flip_point(p: Pt) -> (r: Pt)
    requires
        pt_wf(p),
    ensures
        r == flip_pt(p),
{
    Pt { x: p.x, y: neg_coord(p.y) }
}

/// Convert a canonical command list into Cartesian coordinates: every y
/// coordinate is negated, x coordinates and command kinds are untouched.
pub fn to_cartesian(cmds: &Vec<CanonCmd>) -> (r: Vec<CanonCmd>)
    requires
        cmds_wf(cmds@),
    ensures
        r@ == spec_to_cartesian(cmds@),
        cmds_wf(r@),
{
    let n: usize = cmds.len();
    let mut out: Vec<CanonCmd> = Vec::new();
    let mut i: usize = 0;
    while i < n
        invariant
            i <= n,
            n == cmds@.len(),
            cmds_wf(cmds@),
            out@ == spec_to_cartesian(cmds@).take(i as int),
        decreases n - i,
    {
        let ghost before = out@;
        let c: CanonCmd = cmds[i];
        proof {
            assert(cmd_wf(cmds@[i as int]));
        }
        let f: CanonCmd = match c {
            CanonCmd::Move { p } => CanonCmd::Move { p: flip_point(p) },
            CanonCmd::Cubic { p0, p1, p2, p3 } => CanonCmd::Cubic {
                p0: flip_point(p0),
                p1: flip_point(p1),
                p2: flip_point(p2),
                p3: flip_point(p3),
            },
            CanonCmd::Quad { p0, p1, p2 } => CanonCmd::Quad {
                p0: flip_point(p0),
                p1: flip_point(p1),
                p2: flip_point(p2),
            },
        };
        out.push(f);
        proof {
            assert(f == flip_cmd(cmds@[i as int]));
            assert(out@ =~= spec_to_cartesian(cmds@).take(i + 1));
        }
        i = i + 1;
    }
    proof {
        assert(spec_to_cartesian(cmds@).take(n as int) =~= spec_to_cartesian(cmds@));
        lemma_to_cartesian_wf(cmds@);
    }
    out
}

} // verus!
