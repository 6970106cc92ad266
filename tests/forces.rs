use force_layout::fixed::{isqrt, saturate, LIMIT};
use force_layout::forces::{
    contain_axis, coulomb_pair, damp_component, integrate_axis, mouse_pull, spring_pair,
};
use force_layout::{PosDiff, Position, Velocity};

fn at(x: i64, y: i64) -> Position {
    Position { x, y }
}

#[test]
fn isqrt_rounds_down() {
    assert_eq!(isqrt(0), 0);
    assert_eq!(isqrt(1), 1);
    assert_eq!(isqrt(15), 3);
    assert_eq!(isqrt(16), 4);
    assert_eq!(isqrt(10_000_000_000), 100_000);
    assert_eq!(isqrt(8_000_000_000_000_000_000_000_000), 2_828_427_124_746);
}

#[test]
fn saturate_clamps_to_limit() {
    assert_eq!(saturate(5), 5);
    assert_eq!(saturate(-5), -5);
    assert_eq!(saturate(LIMIT as i128 + 1), LIMIT);
    assert_eq!(saturate(-(LIMIT as i128) - 7), -LIMIT);
}

#[test]
fn pos_diff_distance() {
    let d = at(30_000, 40_000).diff(&at(0, 0));
    assert_eq!(d, PosDiff { dx: 30_000, dy: 40_000 });
    assert_eq!(d.dist_squared(), 2_500_000_000);
    assert_eq!(d.dist(), 50_000);
}

#[test]
fn apply_force_vector_saturates() {
    let mut v = Velocity { vx: 10, vy: LIMIT - 1 };
    v.apply_force_vector(-25, 100);
    assert_eq!(v, Velocity { vx: -15, vy: LIMIT });
}

#[test]
fn like_charges_repel_with_inverse_square() {
    // Distance 10 units, charges 50 and 50: 2500 / 100 = 25 units per second.
    let d = coulomb_pair(1, &at(0, 0), &at(10_000, 0), 50, 50);
    assert_eq!(d, (-25_000, 0));
    let d = coulomb_pair(1, &at(10_000, 0), &at(0, 0), 50, 50);
    assert_eq!(d, (25_000, 0));
}

#[test]
fn opposite_charges_attract_along_the_line() {
    let d = coulomb_pair(1, &at(0, 0), &at(10_000, 0), 50, -50);
    assert_eq!(d, (25_000, 0));
    // Distance 5 along (3, 4): 2500 / 25 = 100 units per second toward b.
    let d = coulomb_pair(1, &at(0, 0), &at(3_000, 4_000), 50, -50);
    assert_eq!(d, (60_000, 80_000));
    // The constant scales the force.
    let d = coulomb_pair(2, &at(0, 0), &at(3_000, 4_000), 50, -50);
    assert_eq!(d, (120_000, 160_000));
}

#[test]
fn coincident_charges_exert_nothing() {
    assert_eq!(coulomb_pair(1, &at(7, 7), &at(7, 7), 50, 50), (0, 0));
    // Squared distance 0.0099 units is still inside the guard.
    assert_eq!(coulomb_pair(1, &at(0, 0), &at(99, 0), 50, 50), (0, 0));
    assert_ne!(coulomb_pair(1, &at(0, 0), &at(100, 0), 50, 50), (0, 0));
}

#[test]
fn stretched_spring_pulls_together() {
    // Rest length 50, distance 100, stiffness 1: force 50 units per second.
    let d = spring_pair(&at(0, 0), &at(100_000, 0), 50_000, 1_000);
    assert_eq!(d, (50_000, 0));
    let d = spring_pair(&at(100_000, 0), &at(0, 0), 50_000, 1_000);
    assert_eq!(d, (-50_000, 0));
}

#[test]
fn compressed_spring_pushes_apart() {
    let d = spring_pair(&at(0, 0), &at(30_000, 40_000), 100_000, 500);
    assert_eq!(d, (-15_000, -20_000));
}

#[test]
fn spring_at_rest_or_coincident_exerts_nothing() {
    assert_eq!(spring_pair(&at(0, 0), &at(50_000, 0), 50_000, 1_000), (0, 0));
    assert_eq!(spring_pair(&at(0, 0), &at(0, 0), 50_000, 1_000), (0, 0));
    assert_eq!(spring_pair(&at(0, 0), &at(100_000, 0), 50_000, 0), (0, 0));
}

#[test]
fn mouse_pull_ramps_and_saturates() {
    // At half the range the smoothstep is one half.
    assert_eq!(mouse_pull(&at(0, 0), 100_000, 0), (100_000, 0));
    // Beyond the range the pull is at full strength.
    assert_eq!(mouse_pull(&at(0, 0), 0, -400_000), (0, -200_000));
    // At the pointer there is no pull.
    assert_eq!(mouse_pull(&at(5, 5), 5, 5), (0, 0));
}

#[test]
fn damping_shrinks_toward_zero() {
    assert_eq!(damp_component(25_000), 24_875);
    assert_eq!(damp_component(-25_000), -24_875);
    assert_eq!(damp_component(0), 0);
    assert_eq!(damp_component(1), 0);
    let mut v: i64 = 1_000;
    let mut ticks = 0;
    while v != 0 {
        let next = damp_component(v);
        assert!(next.abs() < v.abs());
        v = next;
        ticks += 1;
    }
    assert!(ticks <= 1_000);
}

#[test]
fn integration_uses_milliseconds() {
    assert_eq!(integrate_axis(0, 24_875, 16), 398);
    assert_eq!(integrate_axis(0, -24_875, 16), -398);
    assert_eq!(integrate_axis(100, 5_000, 0), 100);
    assert_eq!(integrate_axis(LIMIT, LIMIT, i64::MAX), LIMIT);
    assert_eq!(integrate_axis(-LIMIT, LIMIT, 1_000_000_000), LIMIT);
    assert_eq!(integrate_axis(-LIMIT, 1_000, 1_000_000_000), -LIMIT + 1_000_000_000);
    assert_eq!(integrate_axis(0, 1_000, 2_000_000), 2_000_000);
}

#[test]
fn containment_clamps_and_bounces() {
    assert_eq!(contain_axis(1_000, -2_000, 5_000, 100_000), (5_000, 1_600));
    assert_eq!(contain_axis(99_000, 2_000, 5_000, 100_000), (95_000, -1_600));
    assert_eq!(contain_axis(50_000, 2_000, 5_000, 100_000), (50_000, 2_000));
}

#[test]
fn containment_skips_degenerate_arena() {
    assert_eq!(contain_axis(1_000, -2_000, 5_000, 9_999), (1_000, -2_000));
    assert_eq!(contain_axis(1_000, -2_000, 5_000, -1), (1_000, -2_000));
    assert_eq!(contain_axis(1_000, -2_000, 5_000, 10_000), (5_000, 1_600));
}

#[test]
fn containment_twice_is_containment_once() {
    for &(p, v) in &[(1_000, -2_000), (99_000, 3_000), (42_000, 7), (-LIMIT, LIMIT)] {
        let once = contain_axis(p, v, 5_000, 100_000);
        let twice = contain_axis(once.0, once.1, 5_000, 100_000);
        assert_eq!(once, twice);
    }
}
