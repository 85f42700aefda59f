use pathsampler::arclen::{cubic_arc_length, quadratic_arc_length, total_length};
use pathsampler::sample::{cubic_bezier_points, quadratic_bezier_points};
use pathsampler::canonical::{canonicalize, CanonCmd, Pt};
use pathsampler::cartesian::to_cartesian;
use pathsampler::dedup::dedup_points;
use pathsampler::tokenize::tokenize;

const SCALE: i128 = 1_000_000_000_000;

fn pt(x: i128, y: i128) -> Pt {
    Pt { x, y }
}

#[test]
fn line_lift_length_matches_euclidean_distance() {
    // a line lifted to a degenerate cubic still measures its own length,
    // within quadrature and fixed-point tolerance
    let len = cubic_arc_length(
        pt(0, 0),
        pt(0, 0),
        pt(10 * SCALE, 0),
        pt(10 * SCALE, 0),
    );
    assert!((len - 10 * SCALE).abs() <= 10_000, "len = {len}");
}

#[test]
fn diagonal_line_length_is_sqrt_two() {
    // the demonstration value: a unit diagonal, about 1.414213562373
    let len = cubic_arc_length(pt(0, 0), pt(0, 0), pt(SCALE, SCALE), pt(SCALE, SCALE));
    assert!((len - 1_414_213_562_373).abs() <= 10_000, "len = {len}");
}

#[test]
fn colinear_quadratic_length_is_sqrt_two() {
    let len = quadratic_arc_length(pt(0, 0), pt(SCALE / 2, SCALE / 2), pt(SCALE, SCALE));
    assert!((len - 1_414_213_562_373).abs() <= 10_000, "len = {len}");
}

#[test]
fn skew_line_length_is_euclidean_distance() {
    // a 3-4-5 triangle hypotenuse: the lifted line from (1, 1) to (4, 5)
    let len = cubic_arc_length(
        pt(SCALE, SCALE),
        pt(SCALE, SCALE),
        pt(4 * SCALE, 5 * SCALE),
        pt(4 * SCALE, 5 * SCALE),
    );
    assert!((len - 5 * SCALE).abs() <= 10_000, "len = {len}");
}

#[test]
fn vertical_line_length() {
    let len = cubic_arc_length(
        pt(3 * SCALE, 0),
        pt(3 * SCALE, 0),
        pt(3 * SCALE, -7 * SCALE),
        pt(3 * SCALE, -7 * SCALE),
    );
    assert!((len - 7 * SCALE).abs() <= 10_000, "len = {len}");
}

#[test]
fn cubic_sampling_hits_both_end_points() {
    // a lifted line: five samples at t = 0, 1/4, 1/2, 3/4, 1 with
    // x/10 = t^2 (3 - 2t)
    let pts = cubic_bezier_points(pt(0, 0), pt(0, 0), pt(10 * SCALE, 0), pt(10 * SCALE, 0), 4);
    assert_eq!(
        pts,
        vec![
            pt(0, 0),
            pt(1_562_500_000_000, 0),
            pt(5_000_000_000_000, 0),
            pt(8_437_500_000_000, 0),
            pt(10 * SCALE, 0),
        ]
    );
}

#[test]
fn quadratic_sampling_matches_formula() {
    // B(1/2) = p0/4 + p1/2 + p2/4
    let pts = quadratic_bezier_points(pt(0, 0), pt(SCALE, SCALE), pt(2 * SCALE, 0), 2);
    assert_eq!(pts, vec![pt(0, 0), pt(SCALE, SCALE / 2), pt(2 * SCALE, 0)]);
}

#[test]
fn zero_step_curve_still_yields_its_start_point() {
    let pts = cubic_bezier_points(pt(SCALE, 0), pt(SCALE, 0), pt(2 * SCALE, 0), pt(2 * SCALE, 0), 0);
    assert_eq!(pts, vec![pt(SCALE, 0)]);
}

#[test]
fn moves_contribute_no_length() {
    let cmds = vec![CanonCmd::Move { p: pt(5 * SCALE, 5 * SCALE) }];
    assert_eq!(total_length(&cmds), 0);
}

#[test]
fn total_length_sums_curves() {
    let toks = tokenize(b"M 0 0 L 10 0 L 10 5").unwrap();
    let cmds = canonicalize(&toks).unwrap();
    let cart = to_cartesian(&cmds);
    let total = total_length(&cart);
    assert!((total - 15 * SCALE).abs() <= 30_000, "total = {total}");
}

#[test]
fn cartesian_mapping_negates_only_y() {
    let toks = tokenize(b"M 1 2 L 3 4").unwrap();
    let cmds = canonicalize(&toks).unwrap();
    let cart = to_cartesian(&cmds);
    assert_eq!(
        cart,
        vec![
            CanonCmd::Move { p: pt(SCALE, -2 * SCALE) },
            CanonCmd::Cubic {
                p0: pt(SCALE, -2 * SCALE),
                p1: pt(SCALE, -2 * SCALE),
                p2: pt(3 * SCALE, -4 * SCALE),
                p3: pt(3 * SCALE, -4 * SCALE),
            },
        ]
    );
}

#[test]
fn cartesian_mapping_twice_is_identity() {
    let toks = tokenize(b"M 1 2 Q 3 -4 5 6 C 1 2 3 4 5 6").unwrap();
    let cmds = canonicalize(&toks).unwrap();
    let twice = to_cartesian(&to_cartesian(&cmds));
    assert_eq!(twice, cmds);
}

#[test]
fn dedup_drops_near_duplicates_keeps_order() {
    // the tolerance is strictly below 100 raw units (1e-10)
    let pts = vec![pt(0, 0), pt(50, 0), pt(150, 0), pt(0, 0), pt(150, 99)];
    let out = dedup_points(&pts);
    assert_eq!(out, vec![pt(0, 0), pt(150, 0)]);
}

#[test]
fn dedup_twice_returns_same_set() {
    let pts = vec![pt(0, 0), pt(50, 0), pt(150, 0), pt(0, 0), pt(7 * SCALE, 3)];
    let once = dedup_points(&pts);
    let twice = dedup_points(&once);
    assert_eq!(once, twice);
}

#[test]
fn dedup_exact_boundary_is_kept() {
    // a difference of exactly the tolerance is not "close"
    let pts = vec![pt(0, 0), pt(100, 0), pt(0, 100)];
    let out = dedup_points(&pts);
    assert_eq!(out, vec![pt(0, 0), pt(100, 0), pt(0, 100)]);
}
