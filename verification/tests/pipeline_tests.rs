use pathsampler::arclen::total_length;
use pathsampler::canonical::{canonicalize, CanonCmd, Pt};
use pathsampler::cartesian::to_cartesian;
use pathsampler::convert_path;
use pathsampler::error::PathError;
use pathsampler::fixed::round_div;
use pathsampler::sample::sample_all;
use pathsampler::tokenize::tokenize;

const SCALE: i128 = 1_000_000_000_000;

fn pt(x: i128, y: i128) -> Pt {
    Pt { x, y }
}

#[test]
fn end_to_end_line_with_budget_four() {
    // "M 0 0 L 10 0" with budget 4: one canonical cubic with control points
    // collapsed onto the end points, total length 10, five samples along the
    // segment, all distinct after deduplication
    let toks = tokenize(b"M 0 0 L 10 0").unwrap();
    let cmds = canonicalize(&toks).unwrap();
    assert_eq!(
        cmds,
        vec![
            CanonCmd::Move { p: pt(0, 0) },
            CanonCmd::Cubic {
                p0: pt(0, 0),
                p1: pt(0, 0),
                p2: pt(10 * SCALE, 0),
                p3: pt(10 * SCALE, 0),
            },
        ]
    );
    let cart = to_cartesian(&cmds);
    let total = total_length(&cart);
    assert!((total - 10 * SCALE).abs() <= 10_000, "total = {total}");
    let points = convert_path(b"M 0 0 L 10 0", 4).unwrap();
    // cubic evaluation of the lifted line at t = 0, 1/4, 1/2, 3/4, 1:
    // x/10 = t^2 (3 - 2t)
    assert_eq!(
        points,
        vec![
            pt(0, 0),
            pt(1_562_500_000_000, 0),
            pt(5_000_000_000_000, 0),
            pt(8_437_500_000_000, 0),
            pt(10 * SCALE, 0),
        ]
    );
}

#[test]
fn junction_point_sampled_twice_then_collapsed() {
    // two joined segments: the corner appears in both curves' samples and
    // exactly once after deduplication
    let toks = tokenize(b"M 0 0 L 10 0 L 10 10").unwrap();
    let cmds = canonicalize(&toks).unwrap();
    let cart = to_cartesian(&cmds);
    let total = total_length(&cart);
    let raw = sample_all(&cart, total, 8);
    let corner = pt(10 * SCALE, 0);
    let raw_hits = raw.iter().filter(|p| **p == corner).count();
    assert_eq!(raw_hits, 2);
    let points = convert_path(b"M 0 0 L 10 0 L 10 10", 8).unwrap();
    let kept_hits = points.iter().filter(|p| **p == corner).count();
    assert_eq!(kept_hits, 1);
}

#[test]
fn budget_is_conserved_across_curves() {
    // steps are allotted by rounded shares; their sum stays within the curve
    // count of the budget, and each curve contributes steps + 1 raw samples
    let toks = tokenize(b"M 0 0 L 10 0 L 10 5").unwrap();
    let cmds = canonicalize(&toks).unwrap();
    let cart = to_cartesian(&cmds);
    let total = total_length(&cart);
    let n: i128 = 100;
    let mut steps_sum: i128 = 0;
    let mut curves: i128 = 0;
    for c in &cart {
        if let CanonCmd::Move { .. } = c {
            continue;
        }
        let len = match c {
            CanonCmd::Cubic { p0, p1, p2, p3 } => {
                pathsampler::arclen::cubic_arc_length(*p0, *p1, *p2, *p3)
            }
            CanonCmd::Quad { p0, p1, p2 } => {
                pathsampler::arclen::quadratic_arc_length(*p0, *p1, *p2)
            }
            CanonCmd::Move { .. } => unreachable!(),
        };
        steps_sum += round_div(n * len, total);
        curves += 1;
    }
    assert!((steps_sum - n).abs() <= curves);
    let raw = sample_all(&cart, total, n as u32);
    assert_eq!(raw.len() as i128, steps_sum + curves);
}

#[test]
fn single_curve_gets_whole_budget() {
    // one curve: exactly n + 1 raw samples, all distinct here
    let toks = tokenize(b"M 0 0 L 10 0").unwrap();
    let cmds = canonicalize(&toks).unwrap();
    let cart = to_cartesian(&cmds);
    let total = total_length(&cart);
    let raw = sample_all(&cart, total, 1000);
    assert_eq!(raw.len(), 1001);
    let points = convert_path(b"M 0 0 L 10 0", 1000).unwrap();
    assert_eq!(points.len(), 1001);
}

#[test]
fn relative_line_resolves_against_current_point() {
    // "M 5 5 l 3 4" is the same path as "M 5 5 L 8 9"
    let rel = canonicalize(&tokenize(b"M 5 5 l 3 4").unwrap()).unwrap();
    let abs = canonicalize(&tokenize(b"M 5 5 L 8 9").unwrap()).unwrap();
    assert_eq!(rel, abs);
    assert_eq!(
        rel,
        vec![
            CanonCmd::Move { p: pt(5 * SCALE, 5 * SCALE) },
            CanonCmd::Cubic {
                p0: pt(5 * SCALE, 5 * SCALE),
                p1: pt(5 * SCALE, 5 * SCALE),
                p2: pt(8 * SCALE, 9 * SCALE),
                p3: pt(8 * SCALE, 9 * SCALE),
            },
        ]
    );
    assert_eq!(
        convert_path(b"M 5 5 l 3 4", 10).unwrap(),
        convert_path(b"M 5 5 L 8 9", 10).unwrap()
    );
}

#[test]
fn relative_curves_resolve_against_current_point() {
    assert_eq!(
        canonicalize(&tokenize(b"M 5 5 q 1 1 2 0").unwrap()).unwrap(),
        canonicalize(&tokenize(b"M 5 5 Q 6 6 7 5").unwrap()).unwrap()
    );
    assert_eq!(
        canonicalize(&tokenize(b"M 5 5 c 1 1 2 2 3 0").unwrap()).unwrap(),
        canonicalize(&tokenize(b"M 5 5 C 6 6 7 7 8 5").unwrap()).unwrap()
    );
    assert_eq!(
        canonicalize(&tokenize(b"M 2 3 h 4 v -1 m 1 1").unwrap()).unwrap(),
        canonicalize(&tokenize(b"M 2 3 H 6 V 2 M 7 3").unwrap()).unwrap()
    );
}

#[test]
fn horizontal_and_vertical_hold_the_other_axis() {
    let cmds = canonicalize(&tokenize(b"M 1 2 H 5 V 7").unwrap()).unwrap();
    assert_eq!(
        cmds,
        vec![
            CanonCmd::Move { p: pt(SCALE, 2 * SCALE) },
            CanonCmd::Cubic {
                p0: pt(SCALE, 2 * SCALE),
                p1: pt(SCALE, 2 * SCALE),
                p2: pt(5 * SCALE, 2 * SCALE),
                p3: pt(5 * SCALE, 2 * SCALE),
            },
            CanonCmd::Cubic {
                p0: pt(5 * SCALE, 2 * SCALE),
                p1: pt(5 * SCALE, 2 * SCALE),
                p2: pt(5 * SCALE, 7 * SCALE),
                p3: pt(5 * SCALE, 7 * SCALE),
            },
        ]
    );
}

#[test]
fn quadratic_and_cubic_take_current_point_as_first_control() {
    let cmds = canonicalize(&tokenize(b"M 0 0 Q 1 2 3 4 C 1 2 3 4 5 6").unwrap()).unwrap();
    assert_eq!(
        cmds,
        vec![
            CanonCmd::Move { p: pt(0, 0) },
            CanonCmd::Quad {
                p0: pt(0, 0),
                p1: pt(SCALE, 2 * SCALE),
                p2: pt(3 * SCALE, 4 * SCALE),
            },
            CanonCmd::Cubic {
                p0: pt(3 * SCALE, 4 * SCALE),
                p1: pt(SCALE, 2 * SCALE),
                p2: pt(3 * SCALE, 4 * SCALE),
                p3: pt(5 * SCALE, 6 * SCALE),
            },
        ]
    );
}

#[test]
fn unrecognized_letters_are_skipped() {
    assert_eq!(
        convert_path(b"M 0 0 Z L 10 0 A", 4).unwrap(),
        convert_path(b"M 0 0 L 10 0", 4).unwrap()
    );
}

#[test]
fn drawing_before_move_is_rejected() {
    assert_eq!(convert_path(b"L 10 0", 4), Err(PathError::MissingInitialMove));
    assert_eq!(convert_path(b"h 3", 4), Err(PathError::MissingInitialMove));
    assert_eq!(convert_path(b"m 1 1", 4), Err(PathError::MissingInitialMove));
}

#[test]
fn missing_arguments_are_rejected() {
    assert_eq!(
        convert_path(b"M 0 0 L 5", 4),
        Err(PathError::InsufficientArguments)
    );
    assert_eq!(convert_path(b"M 0", 4), Err(PathError::InsufficientArguments));
}

#[test]
fn malformed_argument_is_rejected() {
    assert_eq!(convert_path(b"M 1x 2", 4), Err(PathError::TokenizeError));
    assert_eq!(convert_path(b"M 0 0 L 5 V", 4), Err(PathError::TokenizeError));
}

#[test]
fn coordinate_overflow_is_rejected() {
    assert_eq!(
        convert_path(b"M 9000 0 l 5000 0", 4),
        Err(PathError::CoordinateOverflow)
    );
}

#[test]
fn degenerate_paths_are_rejected() {
    assert_eq!(convert_path(b"M 5 5", 4), Err(PathError::DegeneratePath));
    assert_eq!(convert_path(b"", 4), Err(PathError::DegeneratePath));
    assert_eq!(convert_path(b"x y z", 4), Err(PathError::DegeneratePath));
    assert_eq!(convert_path(b"M 5 5 L 5 5", 4), Err(PathError::DegeneratePath));
}

#[test]
fn extreme_coordinates_convert() {
    // the longest representable line: corner to corner of the coordinate range
    let points = convert_path(b"M 10000 10000 L -10000 -10000", 4).unwrap();
    assert_eq!(points.len(), 5);
    assert_eq!(points[0], pt(10_000 * SCALE, -10_000 * SCALE));
    assert_eq!(points[4], pt(-10_000 * SCALE, 10_000 * SCALE));
}

#[test]
fn full_demo_path_converts() {
    let path = b"M 20.5 50.0 L 100.0 50.0 l 50.0 -30.0 H 200.0 h 50.0 V 100.0 v 50.0 \
                 Q 300.0 200.0 350.0 150.0 q -30.0 -30.0 -50.0 -50.0 \
                 C 250.0 50.0 200.0 30.0 150.0 150.0 c 50.0 30.0 100.0 50.0 150.0 20.0";
    let points = convert_path(path, 1000).unwrap();
    assert!(points.len() > 500);
    // y-down input is mapped to y-up output: the first point is (20.5, -50)
    assert_eq!(points[0], pt(20 * SCALE + SCALE / 2, -50 * SCALE));
}
