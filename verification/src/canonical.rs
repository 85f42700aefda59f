//! Canonicalizer: walks the token sequence maintaining the current pen
//! position and rewrites every segment into an absolute cubic or quadratic
//! curve.
//!
//! Lines (and their horizontal/vertical shorthands) are lifted to cubic
//! curves whose first two control points equal the start point and whose last
//! two equal the end point, so every drawable segment is a curve of uniform
//! shape.  Quadratic and cubic commands take the current point as their first
//! control point; only the remaining control points and the end point come
//! from the tokens.  Relative commands are resolved against the current point
//! before emission.  Unrecognized tokens at command position are skipped
//! silently; a drawing command before any move is rejected.

use vstd::prelude::*;
use crate::error::PathError;
use crate::fixed::MAX_COORD;
use crate::tokenize::{Token, tokens_wf};

verus! {

/// A 2D point, both coordinates in fixed point.
#[derive(Clone, Copy, Debug, PartialEq, Eq, Structural)]
pub struct Pt {
    pub x: i128,
    pub y: i128,
}

/// A canonical path command: an absolute curve, or a pen move that draws
/// nothing.
#[derive(Clone, Copy, Debug, PartialEq, Eq, Structural)]
pub enum CanonCmd {
    /// Reposition the pen; contributes no length and no samples.
    Move { p: Pt },
    /// An absolute cubic curve with four control points.
    Cubic { p0: Pt, p1: Pt, p2: Pt, p3: Pt },
    /// An absolute quadratic curve with three control points.
    Quad { p0: Pt, p1: Pt, p2: Pt },
}

/// A coordinate the pipeline can represent.
pub open spec fn in_range(v: int) -> bool {
    -MAX_COORD <= v <= MAX_COORD
}

/// Both coordinates of a point are representable.
pub open spec fn pt_wf(p: Pt) -> bool {
    in_range(p.x as int) && in_range(p.y as int)
}

/// Every control point of a command is representable.
pub open spec fn cmd_wf(c: CanonCmd) -> bool {
    match c {
        CanonCmd::Move { p } => pt_wf(p),
        CanonCmd::Cubic { p0, p1, p2, p3 } => pt_wf(p0) && pt_wf(p1) && pt_wf(p2) && pt_wf(p3),
        CanonCmd::Quad { p0, p1, p2 } => pt_wf(p0) && pt_wf(p1) && pt_wf(p2),
    }
}

/// Every command of a sequence is well formed.
pub open spec fn cmds_wf(s: Seq<CanonCmd>) -> bool {
    forall|j: int| 0 <= j < s.len() ==> cmd_wf(#[trigger] s[j])
}

/// Whether a command draws a curve.
pub open spec fn is_curve(c: CanonCmd) -> bool {
    !(c matches CanonCmd::Move { .. })
}

/// The point a command starts at.
pub open spec fn cmd_start(c: CanonCmd) -> Pt {
    match c {
        CanonCmd::Move { p } => p,
        CanonCmd::Cubic { p0, .. } => p0,
        CanonCmd::Quad { p0, .. } => p0,
    }
}

/// The point a command leaves the pen at.
pub open spec fn cmd_end(c: CanonCmd) -> Pt {
    match c {
        CanonCmd::Move { p } => p,
        CanonCmd::Cubic { p3, .. } => p3,
        CanonCmd::Quad { p2, .. } => p2,
    }
}

/// The command letters the canonicalizer recognizes.
pub open spec fn is_cmd(l: u8) -> bool {
    ||| l == 77  // M
    ||| l == 109  // m
    ||| l == 76  // L
    ||| l == 108  // l
    ||| l == 72  // H
    ||| l == 104  // h
    ||| l == 86  // V
    ||| l == 118  // v
    ||| l == 81  // Q
    ||| l == 113  // q
    ||| l == 67  // C
    ||| l == 99  // c
}

/// How many numeric arguments a command letter consumes.
pub open spec fn argc(l: u8) -> int {
    if l == 77 || l == 109 || l == 76 || l == 108 {
        2
    } else if l == 72 || l == 104 || l == 86 || l == 118 {
        1
    } else if l == 81 || l == 113 {
        4
    } else {
        6
    }
}

/// The `k` tokens after position `i` are all numbers.
pub open spec fn args_are_numbers(tokens: Seq<Token>, i: int, k: int) -> bool {
    forall|t: int| 1 <= t <= k ==> #[trigger] tokens[i + t] matches Token::Number(_)
}

/// The numeric value of the token at `j` (zero on a non-number, which the
/// well-formedness checks rule out before this is used).
pub open spec fn arg_val(tokens: Seq<Token>, j: int) -> int {
    match tokens[j] {
        Token::Number(v) => v as int,
        _ => 0,
    }
}

/// A straight line from `s` to `e`, lifted to a cubic curve: the first two
/// control points collapse onto the start, the last two onto the end, so
/// cubic evaluation traces exactly the segment.
pub open spec fn line_cubic(s: Pt, e: Pt) -> CanonCmd {
    CanonCmd::Cubic { p0: s, p1: s, p2: e, p3: e }
}

/// The outcome of one recognized command at position `i`: the emitted
/// canonical command and the new current point, or the error that aborts the
/// conversion.  Checks run in a fixed order: missing arguments, malformed
/// arguments, missing initial move, then coordinate range.
pub open spec fn step_cmd(tokens: Seq<Token>, i: int, l: u8, cur: Option<Pt>) -> Result<
    (CanonCmd, Pt),
    PathError,
> {
    let k = argc(l);
    if tokens.len() - i <= k {
        Err(PathError::InsufficientArguments)
    } else if !args_are_numbers(tokens, i, k) {
        Err(PathError::TokenizeError)
    } else if l != 77 && cur is None {
        Err(PathError::MissingInitialMove)
    } else {
        let a1 = arg_val(tokens, i + 1);
        let a2 = arg_val(tokens, i + 2);
        let a3 = arg_val(tokens, i + 3);
        let a4 = arg_val(tokens, i + 4);
        let a5 = arg_val(tokens, i + 5);
        let a6 = arg_val(tokens, i + 6);
        let c = cur->Some_0;
        if l == 77 {  // M: absolute move
            let p = Pt { x: a1 as i128, y: a2 as i128 };
            Ok((CanonCmd::Move { p }, p))
        } else if l == 109 {  // m: relative move
            if in_range(c.x + a1) && in_range(c.y + a2) {
                let p = Pt { x: (c.x + a1) as i128, y: (c.y + a2) as i128 };
                Ok((CanonCmd::Move { p }, p))
            } else {
                Err(PathError::CoordinateOverflow)
            }
        } else if l == 76 {  // L: absolute line
            let e = Pt { x: a1 as i128, y: a2 as i128 };
            Ok((line_cubic(c, e), e))
        } else if l == 108 {  // l: relative line
            if in_range(c.x + a1) && in_range(c.y + a2) {
                let e = Pt { x: (c.x + a1) as i128, y: (c.y + a2) as i128 };
                Ok((line_cubic(c, e), e))
            } else {
                Err(PathError::CoordinateOverflow)
            }
        } else if l == 72 {  // H: absolute horizontal line
            let e = Pt { x: a1 as i128, y: c.y };
            Ok((line_cubic(c, e), e))
        } else if l == 104 {  // h: relative horizontal line
            if in_range(c.x + a1) {
                let e = Pt { x: (c.x + a1) as i128, y: c.y };
                Ok((line_cubic(c, e), e))
            } else {
                Err(PathError::CoordinateOverflow)
            }
        } else if l == 86 {  // V: absolute vertical line
            let e = Pt { x: c.x, y: a1 as i128 };
            Ok((line_cubic(c, e), e))
        } else if l == 118 {  // v: relative vertical line
            if in_range(c.y + a1) {
                let e = Pt { x: c.x, y: (c.y + a1) as i128 };
                Ok((line_cubic(c, e), e))
            } else {
                Err(PathError::CoordinateOverflow)
            }
        } else if l == 81 {  // Q: absolute quadratic curve
            let p1 = Pt { x: a1 as i128, y: a2 as i128 };
            let p2 = Pt { x: a3 as i128, y: a4 as i128 };
            Ok((CanonCmd::Quad { p0: c, p1, p2 }, p2))
        } else if l == 113 {  // q: relative quadratic curve
            if in_range(c.x + a1) && in_range(c.y + a2) && in_range(c.x + a3) && in_range(
                c.y + a4,
            ) {
                let p1 = Pt { x: (c.x + a1) as i128, y: (c.y + a2) as i128 };
                let p2 = Pt { x: (c.x + a3) as i128, y: (c.y + a4) as i128 };
                Ok((CanonCmd::Quad { p0: c, p1, p2 }, p2))
            } else {
                Err(PathError::CoordinateOverflow)
            }
        } else if l == 67 {  // C: absolute cubic curve
            let p1 = Pt { x: a1 as i128, y: a2 as i128 };
            let p2 = Pt { x: a3 as i128, y: a4 as i128 };
            let p3 = Pt { x: a5 as i128, y: a6 as i128 };
            Ok((CanonCmd::Cubic { p0: c, p1, p2, p3 }, p3))
        } else {  // c: relative cubic curve
            if in_range(c.x + a1) && in_range(c.y + a2) && in_range(c.x + a3) && in_range(c.y + a4)
                && in_range(c.x + a5) && in_range(c.y + a6) {
                let p1 = Pt { x: (c.x + a1) as i128, y: (c.y + a2) as i128 };
                let p2 = Pt { x: (c.x + a3) as i128, y: (c.y + a4) as i128 };
                let p3 = Pt { x: (c.x + a5) as i128, y: (c.y + a6) as i128 };
                Ok((CanonCmd::Cubic { p0: c, p1, p2, p3 }, p3))
            } else {
                Err(PathError::CoordinateOverflow)
            }
        }
    }
}

/// Canonicalization of the tokens from position `i` on, given the current
/// point.  A recognized command letter is interpreted; anything else at
/// command position is skipped.
pub open spec fn canon_from(tokens: Seq<Token>, i: int, cur: Option<Pt>) -> Result<
    Seq<CanonCmd>,
    PathError,
>
    decreases tokens.len() - i,
{
    if i < 0 || i >= tokens.len() {
        Ok(Seq::empty())
    } else {
        match tokens[i] {
            Token::Letter(l) => {
                if is_cmd(l) {
                    match step_cmd(tokens, i, l, cur) {
                        Ok((cmd, nc)) => {
                            match canon_from(tokens, i + 1, Some(nc)) {
                                Ok(s) => Ok(seq![cmd] + s),
                                Err(e) => Err(e),
                            }
                        },
                        Err(e) => Err(e),
                    }
                } else {
                    canon_from(tokens, i + 1, cur)
                }
            },
            _ => canon_from(tokens, i + 1, cur),
        }
    }
}

/// Canonicalization of a whole token sequence: no current point exists until
/// the first move command establishes one.
pub open spec fn spec_canonicalize(tokens: Seq<Token>) -> Result<Seq<CanonCmd>, PathError> {
    canon_from(tokens, 0, None)
}

/// Commands are linked: every curve starts at the pen position in force
/// before it, which is `cur` for the first command and the previous command's
/// end point after that.
pub open spec fn linked_from(s: Seq<CanonCmd>, cur: Option<Pt>) -> bool {
    forall|j: int|
        0 <= j < s.len() && is_curve(#[trigger] s[j]) ==> if j == 0 {
            cur is Some && cmd_start(s[j]) == cur->Some_0
        } else {
            cmd_start(s[j]) == cmd_end(s[j - 1])
        }
}

/// A successful command step hands back the emitted command's end point as
/// the new current point, and an emitted curve starts at the old one.
pub proof fn lemma_step_props(tokens: Seq<Token>, i: int, l: u8, cur: Option<Pt>, c: CanonCmd, p: Pt)
    requires
        is_cmd(l),
        step_cmd(tokens, i, l, cur) == Ok::<(CanonCmd, Pt), PathError>((c, p)),
    ensures
        cmd_end(c) == p,
        is_curve(c) ==> cur is Some && cmd_start(c) == cur->Some_0,
{
}

/// Canonicalization only emits linked commands.
pub proof fn lemma_canon_linked(tokens: Seq<Token>, i: int, cur: Option<Pt>)
    requires
        canon_from(tokens, i, cur) is Ok,
    ensures
        linked_from(canon_from(tokens, i, cur)->Ok_0, cur),
    decreases tokens.len() - i,
{
    if i < 0 || i >= tokens.len() {
    } else {
        match tokens[i] {
            Token::Letter(l) => {
                if is_cmd(l) {
                    match step_cmd(tokens, i, l, cur) {
                        Ok((cmd, nc)) => {
                            lemma_step_props(tokens, i, l, cur, cmd, nc);
                            lemma_canon_linked(tokens, i + 1, Some(nc));
                            let rest = canon_from(tokens, i + 1, Some(nc))->Ok_0;
                            let s = seq![cmd] + rest;
                            assert forall|j: int|
                                0 <= j < s.len() && is_curve(#[trigger] s[j]) implies if j == 0 {
                                cur is Some && cmd_start(s[j]) == cur->Some_0
                            } else {
                                cmd_start(s[j]) == cmd_end(s[j - 1])
                            } by {
                                if j == 0 {
                                    assert(s[0] == cmd);
                                } else {
                                    assert(s[j] == rest[j - 1]);
                                    if j == 1 {
                                        assert(cmd_start(rest[0]) == nc);
                                        assert(cmd_end(s[0]) == nc);
                                    } else {
                                        assert(s[j - 1] == rest[j - 2]);
                                    }
                                }
                            }
                        },
                        Err(_) => {},
                    }
                } else {
                    lemma_canon_linked(tokens, i + 1, cur);
                }
            },
            _ => {
                lemma_canon_linked(tokens, i + 1, cur);
            },
        }
    }
}

/// The canonical invariant: a canonical command list opens with a move, and
/// every curve in it starts at the point where the previous command left the
/// pen.
pub proof fn lemma_canonical_chained(tokens: Seq<Token>, s: Seq<CanonCmd>)
    requires
        spec_canonicalize(tokens) == Ok::<Seq<CanonCmd>, PathError>(s),
    ensures
        s.len() > 0 ==> s[0] matches CanonCmd::Move { .. },
        forall|j: int|
            1 <= j < s.len() && is_curve(#[trigger] s[j]) ==> cmd_start(s[j]) == cmd_end(s[j - 1]),
{
    lemma_canon_linked(tokens, 0, None);
    if s.len() > 0 && is_curve(s[0]) {
        assert(None::<Pt> is Some);
    }
}

/// A relative line command emits exactly the canonical cubic of the absolute
/// line to the offset end point: resolving `l dx dy` at the current point
/// `cur` and drawing `L (cur.x+dx) (cur.y+dy)` are the same.
pub proof fn lemma_relative_line_resolution(cur: Pt, dx: i128, dy: i128, ax: i128, ay: i128)
    requires
        pt_wf(cur),
        ax == cur.x + dx,
        ay == cur.y + dy,
        in_range(ax as int),
        in_range(ay as int),
    ensures
        canon_from(seq![Token::Letter(108), Token::Number(dx), Token::Number(dy)], 0, Some(cur))
            == canon_from(
            seq![Token::Letter(76), Token::Number(ax), Token::Number(ay)],
            0,
            Some(cur),
        ),
        canon_from(seq![Token::Letter(108), Token::Number(dx), Token::Number(dy)], 0, Some(cur))
            == Ok::<Seq<CanonCmd>, PathError>(
            seq![line_cubic(cur, Pt { x: ax, y: ay })],
        ),
{
    let e = Pt { x: ax, y: ay };
    let rel = seq![Token::Letter(108u8), Token::Number(dx), Token::Number(dy)];
    let abs = seq![Token::Letter(76u8), Token::Number(ax), Token::Number(ay)];
    assert(canon_from(rel, 3, Some(e)) == Ok::<Seq<CanonCmd>, PathError>(Seq::empty()));
    assert(canon_from(rel, 2, Some(e)) == Ok::<Seq<CanonCmd>, PathError>(Seq::empty()));
    assert(canon_from(rel, 1, Some(e)) == Ok::<Seq<CanonCmd>, PathError>(Seq::empty()));
    assert(canon_from(abs, 3, Some(e)) == Ok::<Seq<CanonCmd>, PathError>(Seq::empty()));
    assert(canon_from(abs, 2, Some(e)) == Ok::<Seq<CanonCmd>, PathError>(Seq::empty()));
    assert(canon_from(abs, 1, Some(e)) == Ok::<Seq<CanonCmd>, PathError>(Seq::empty()));
    assert(args_are_numbers(rel, 0, 2)) by {
        assert(rel[1] matches Token::Number(_));
        assert(rel[2] matches Token::Number(_));
    }
    assert(args_are_numbers(abs, 0, 2)) by {
        assert(abs[1] matches Token::Number(_));
        assert(abs[2] matches Token::Number(_));
    }
    assert(step_cmd(rel, 0, 108, Some(cur)) == Ok::<(CanonCmd, Pt), PathError>(
        (line_cubic(cur, e), e),
    ));
    assert(step_cmd(abs, 0, 76, Some(cur)) == Ok::<(CanonCmd, Pt), PathError>(
        (line_cubic(cur, e), e),
    ));
    assert(seq![line_cubic(cur, e)] + Seq::<CanonCmd>::empty() =~= seq![line_cubic(cur, e)]);
}

/// Prefix a command sequence onto the result of canonicalizing a remainder.
pub open spec fn prepend_cmds(pre: Seq<CanonCmd>, r: Result<Seq<CanonCmd>, PathError>) -> Result<
    Seq<CanonCmd>,
    PathError,
> {
    match r {
        Ok(s) => Ok(pre + s),
        Err(e) => Err(e),
    }
}

/// Read the numeric argument at `j`, or reject the malformed token there.
fn num_at(tokens: &Vec<Token>, j: usize) -> (r: Result<i128, PathError>)
    requires
        j < tokens@.len(),
        tokens_wf(tokens@),
    ensures
        r matches Ok(v) ==> tokens@[j as int] == Token::Number(v) && -MAX_COORD <= v <= MAX_COORD
            && v == arg_val(tokens@, j as int),
        r matches Err(e) ==> e == PathError::TokenizeError && !(tokens@[j as int] matches
            Token::Number(_)),
{
    match tokens[j] {
        Token::Number(v) => Ok(v),
        _ => Err(PathError::TokenizeError),
    }
}

/// Add a relative offset to a coordinate, rejecting a sum that leaves the
/// representable range.
fn offset(base: i128, d: i128) -> (r: Result<i128, PathError>)
    requires
        in_range(base as int),
        in_range(d as int),
    ensures
        r matches Ok(v) ==> v == base + d && in_range(base + d),
        r matches Err(e) ==> e == PathError::CoordinateOverflow && !in_range(base + d),
{
    let s: i128 = base + d;
    if -MAX_COORD <= s && s <= MAX_COORD {
        Ok(s)
    } else {
        Err(PathError::CoordinateOverflow)
    }
}

/// Interpret the recognized command letter at position `i`: the emitted
/// canonical command and the new current point, or the error.
#[verifier::rlimit(60)]
fn apply_cmd(tokens: &Vec<Token>, i: usize, l: u8, cur: Option<Pt>) -> (r: Result<
    (CanonCmd, Pt),
    PathError,
>)
    requires
        tokens_wf(tokens@),
        i < tokens@.len(),
        is_cmd(l),
        cur matches Some(p) ==> pt_wf(p),
    ensures
        r == step_cmd(tokens@, i as int, l, cur),
        r matches Ok((c, p)) ==> cmd_wf(c) && pt_wf(p),
{
    let n: usize = tokens.len();
    let k: usize = if l == 77 || l == 109 || l == 76 || l == 108 {
        2
    } else if l == 72 || l == 104 || l == 86 || l == 118 {
        1
    } else if l == 81 || l == 113 {
        4
    } else {
        6
    };
    proof {
        assert(k == argc(l));
    }
    if n - i <= k {
        return Err(PathError::InsufficientArguments);
    }
    // all arguments exist; read them in order
    let a1: i128 = match num_at(tokens, i + 1) {
        Ok(v) => v,
        Err(e) => { return Err(e); },
    };
    let a2: i128 = if k >= 2 {
        match num_at(tokens, i + 2) {
            Ok(v) => v,
            Err(e) => { return Err(e); },
        }
    } else {
        0
    };
    let a3: i128 = if k >= 4 {
        match num_at(tokens, i + 3) {
            Ok(v) => v,
            Err(e) => { return Err(e); },
        }
    } else {
        0
    };
    let a4: i128 = if k >= 4 {
        match num_at(tokens, i + 4) {
            Ok(v) => v,
            Err(e) => { return Err(e); },
        }
    } else {
        0
    };
    let a5: i128 = if k >= 6 {
        match num_at(tokens, i + 5) {
            Ok(v) => v,
            Err(e) => { return Err(e); },
        }
    } else {
        0
    };
    let a6: i128 = if k >= 6 {
        match num_at(tokens, i + 6) {
            Ok(v) => v,
            Err(e) => { return Err(e); },
        }
    } else {
        0
    };
    proof {
        assert(args_are_numbers(tokens@, i as int, k as int)) by {
            assert(forall|t: int|
                1 <= t <= k ==> #[trigger] tokens@[i + t] matches Token::Number(_));
        }
    }
    if l == 77 {  // M: absolute move
        let p = Pt { x: a1, y: a2 };
        return Ok((CanonCmd::Move { p }, p));
    }
    let c: Pt = match cur {
        Some(p) => p,
        None => { return Err(PathError::MissingInitialMove); },
    };
    if l == 109 {  // m: relative move
        let x = match offset(c.x, a1) {
            Ok(v) => v,
            Err(e) => { return Err(e); },
        };
        let y = match offset(c.y, a2) {
            Ok(v) => v,
            Err(e) => { return Err(e); },
        };
        let p = Pt { x, y };
        Ok((CanonCmd::Move { p }, p))
    } else if l == 76 {  // L: absolute line
        let e = Pt { x: a1, y: a2 };
        Ok((CanonCmd::Cubic { p0: c, p1: c, p2: e, p3: e }, e))
    } else if l == 108 {  // l: relative line
        let x = match offset(c.x, a1) {
            Ok(v) => v,
            Err(e) => { return Err(e); },
        };
        let y = match offset(c.y, a2) {
            Ok(v) => v,
            Err(e) => { return Err(e); },
        };
        let e = Pt { x, y };
        Ok((CanonCmd::Cubic { p0: c, p1: c, p2: e, p3: e }, e))
    } else if l == 72 {  // H: absolute horizontal line
        let e = Pt { x: a1, y: c.y };
        Ok((CanonCmd::Cubic { p0: c, p1: c, p2: e, p3: e }, e))
    } else if l == 104 {  // h: relative horizontal line
        let x = match offset(c.x, a1) {
            Ok(v) => v,
            Err(e) => { return Err(e); },
        };
        let e = Pt { x, y: c.y };
        Ok((CanonCmd::Cubic { p0: c, p1: c, p2: e, p3: e }, e))
    } else if l == 86 {  // V: absolute vertical line
        let e = Pt { x: c.x, y: a1 };
        Ok((CanonCmd::Cubic { p0: c, p1: c, p2: e, p3: e }, e))
    } else if l == 118 {  // v: relative vertical line
        let y = match offset(c.y, a1) {
            Ok(v) => v,
            Err(e) => { return Err(e); },
        };
        let e = Pt { x: c.x, y };
        Ok((CanonCmd::Cubic { p0: c, p1: c, p2: e, p3: e }, e))
    } else if l == 81 {  // Q: absolute quadratic curve
        let p1 = Pt { x: a1, y: a2 };
        let p2 = Pt { x: a3, y: a4 };
        Ok((CanonCmd::Quad { p0: c, p1, p2 }, p2))
    } else if l == 113 {  // q: relative quadratic curve
        let x1 = match offset(c.x, a1) {
            Ok(v) => v,
            Err(e) => { return Err(e); },
        };
        let y1 = match offset(c.y, a2) {
            Ok(v) => v,
            Err(e) => { return Err(e); },
        };
        let x2 = match offset(c.x, a3) {
            Ok(v) => v,
            Err(e) => { return Err(e); },
        };
        let y2 = match offset(c.y, a4) {
            Ok(v) => v,
            Err(e) => { return Err(e); },
        };
        let p1 = Pt { x: x1, y: y1 };
        let p2 = Pt { x: x2, y: y2 };
        Ok((CanonCmd::Quad { p0: c, p1, p2 }, p2))
    } else if l == 67 {  // C: absolute cubic curve
        let p1 = Pt { x: a1, y: a2 };
        let p2 = Pt { x: a3, y: a4 };
        let p3 = Pt { x: a5, y: a6 };
        Ok((CanonCmd::Cubic { p0: c, p1, p2, p3 }, p3))
    } else {  // c: relative cubic curve
        let x1 = match offset(c.x, a1) {
            Ok(v) => v,
            Err(e) => { return Err(e); },
        };
        let y1 = match offset(c.y, a2) {
            Ok(v) => v,
            Err(e) => { return Err(e); },
        };
        let x2 = match offset(c.x, a3) {
            Ok(v) => v,
            Err(e) => { return Err(e); },
        };
        let y2 = match offset(c.y, a4) {
            Ok(v) => v,
            Err(e) => { return Err(e); },
        };
        let x3 = match offset(c.x, a5) {
            Ok(v) => v,
            Err(e) => { return Err(e); },
        };
        let y3 = match offset(c.y, a6) {
            Ok(v) => v,
            Err(e) => { return Err(e); },
        };
        let p1 = Pt { x: x1, y: y1 };
        let p2 = Pt { x: x2, y: y2 };
        let p3 = Pt { x: x3, y: y3 };
        Ok((CanonCmd::Cubic { p0: c, p1, p2, p3 }, p3))
    }
}

/// Canonicalize a token sequence: one canonical command per recognized input
/// command, with relative coordinates resolved and the current point threaded
/// through the scan.
pub fn canonicalize(tokens: &Vec<Token>) -> (r: Result<Vec<CanonCmd>, PathError>)
    requires
        tokens_wf(tokens@),
    ensures
        r matches Ok(v) ==> spec_canonicalize(tokens@) == Ok::<Seq<CanonCmd>, PathError>(v@)
            && cmds_wf(v@),
        r matches Err(e) ==> spec_canonicalize(tokens@) == Err::<Seq<CanonCmd>, PathError>(e),
{
    let n: usize = tokens.len();
    let mut out: Vec<CanonCmd> = Vec::new();
    let mut cur: Option<Pt> = None;
    let mut i: usize = 0;
    while i < n
        invariant
            i <= n,
            n == tokens@.len(),
            tokens_wf(tokens@),
            cmds_wf(out@),
            cur matches Some(p) ==> pt_wf(p),
            spec_canonicalize(tokens@) == prepend_cmds(
                out@,
                canon_from(tokens@, i as int, cur),
            ),
        decreases n - i,
    {
        let t: Token = tokens[i];
        let mut recognized: bool = false;
        let mut letter: u8 = 0;
        if let Token::Letter(l) = t {
            if l == 77 || l == 109 || l == 76 || l == 108 || l == 72 || l == 104 || l == 86 || l
                == 118 || l == 81 || l == 113 || l == 67 || l == 99 {
                recognized = true;
                letter = l;
            }
        }
        if recognized {
            let ghost before = out@;
            match apply_cmd(tokens, i, letter, cur) {
                Ok((cmd, nc)) => {
                    out.push(cmd);
                    cur = Some(nc);
                    proof {
                        let rest_r = canon_from(tokens@, i + 1, Some(nc));
                        assert(out@ =~= before + seq![cmd]);
                        match rest_r {
                            Ok(s) => {
                                assert((before + seq![cmd]) + s =~= before + (seq![cmd] + s));
                            },
                            Err(_) => {},
                        }
                    }
                },
                Err(e) => {
                    return Err(e);
                },
            }
        }
        i = i + 1;
    }
    proof {
        assert(out@ + Seq::<CanonCmd>::empty() =~= out@);
    }
    Ok(out)
}

} // verus!
