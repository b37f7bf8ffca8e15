use rust_physics_engine::arith::{ceil_sqrt, div_floor_i64, floor_sqrt};
use rust_physics_engine::body::{
    is_colliding, resolve_boundaries, resolve_candidate_pair, resolve_collision, Body, Color,
};

const WHITE: Color = Color { r: 255, g: 255, b: 255, a: 255 };

fn body2(id: usize, x: i64, y: i64, vx: i64, vy: i64, radius: i64) -> Body<2> {
    Body { id, position: [x, y], velocity: [vx, vy], radius, pressure: 0, color: WHITE }
}

fn dist_sq(a: &Body<2>, b: &Body<2>) -> i128 {
    let dx = (b.position[0] - a.position[0]) as i128;
    let dy = (b.position[1] - a.position[1]) as i128;
    dx * dx + dy * dy
}

#[test]
fn square_roots_round_down_and_up() {
    assert_eq!(floor_sqrt(0), 0);
    assert_eq!(floor_sqrt(15), 3);
    assert_eq!(floor_sqrt(16), 4);
    assert_eq!(ceil_sqrt(15), 4);
    assert_eq!(ceil_sqrt(16), 4);
    assert_eq!(ceil_sqrt(17), 5);
    assert_eq!(floor_sqrt(25_000_000), 5_000);
}

#[test]
fn floor_division_rounds_toward_negative_infinity() {
    assert_eq!(div_floor_i64(7, 2), 3);
    assert_eq!(div_floor_i64(-7, 2), -4);
    assert_eq!(div_floor_i64(-8, 2), -4);
    assert_eq!(div_floor_i64(0, 5), 0);
}

#[test]
fn colliding_iff_closer_than_sum_of_radii() {
    let a = body2(0, 0, 0, 0, 0, 10_000);
    let touching = body2(1, 20_000, 0, 0, 0, 10_000);
    let overlapping = body2(1, 19_999, 0, 0, 0, 10_000);
    let diagonal = body2(1, 12_000, 16_000, 0, 0, 10_000);
    assert!(!is_colliding(&a, &touching));
    assert!(is_colliding(&a, &overlapping));
    assert!(is_colliding(&a, &body2(1, 12_000, 15_999, 0, 0, 10_000)));
    assert!(!is_colliding(&a, &diagonal));
}

#[test]
fn head_on_bounce() {
    // Two bodies of radius 10 px, 5 px apart on the x axis, closing at 50 px/s each.
    let mut a = body2(0, 100_000, 100_000, 50_000, 0, 10_000);
    let mut b = body2(1, 105_000, 100_000, -50_000, 0, 10_000);
    resolve_collision(&mut a, &mut b, 600_000, 1_000_000);
    assert!(dist_sq(&a, &b) >= 20_000 * 20_000);
    assert_eq!(a.position, [92_500, 100_000]);
    assert_eq!(b.position, [112_500, 100_000]);
    // The x velocities reverse their signs: 50 + (-100 * 0.6) = -10 px/s.
    assert!(a.velocity[0] < 0);
    assert!(b.velocity[0] > 0);
    assert_eq!(a.velocity, [-10_000, 0]);
    assert_eq!(b.velocity, [10_000, 0]);
    assert_eq!(a.velocity[0], -b.velocity[0]);
}

#[test]
fn head_on_pressure_is_impulse_over_area() {
    let mut a = body2(0, 100_000, 100_000, 50_000, 0, 10_000);
    let mut b = body2(1, 105_000, 100_000, -50_000, 0, 10_000);
    resolve_collision(&mut a, &mut b, 600_000, 1_000_000);
    // impulse 60 px/s over pi * 100 px^2 = 0.19099 -> 190 thousandths.
    assert_eq!(a.pressure, 190);
    assert_eq!(b.pressure, 190);
}

#[test]
fn pressure_is_limited_by_the_ceiling() {
    let mut a = body2(0, 100_000, 100_000, 50_000, 0, 10_000);
    let mut b = body2(1, 105_000, 100_000, -50_000, 0, 10_000);
    resolve_collision(&mut a, &mut b, 600_000, 100);
    assert_eq!(a.pressure, 100);
    assert_eq!(b.pressure, 100);
    let mut c = body2(0, 100_000, 100_000, 50_000, 0, 10_000);
    let mut d = body2(1, 105_000, 100_000, -50_000, 0, 10_000);
    resolve_collision(&mut c, &mut d, 600_000, 0);
    assert_eq!(c.pressure, 0);
    assert_eq!(d.pressure, 0);
}

#[test]
fn coincident_centers_are_left_alone() {
    let mut a = body2(0, 100_000, 100_000, 5, 6, 10_000);
    let mut b = body2(1, 100_000, 100_000, -5, 7, 10_000);
    let (a0, b0) = (a, b);
    resolve_collision(&mut a, &mut b, 600_000, 1_000_000);
    assert_eq!(a.position, a0.position);
    assert_eq!(b.position, b0.position);
    assert_eq!(a.velocity, a0.velocity);
    assert_eq!(b.velocity, b0.velocity);
}

#[test]
fn tiny_overlap_is_ignored() {
    // Overlap below one thousandth of a pixel: nothing moves.
    let mut a = body2(0, 0, 0, 10, 0, 10_000);
    let mut b = body2(1, 20_000, 0, -10, 0, 10_000);
    resolve_collision(&mut a, &mut b, 600_000, 1_000_000);
    assert_eq!(a.position, [0, 0]);
    assert_eq!(b.position, [20_000, 0]);
    assert_eq!(a.velocity, [10, 0]);
}

#[test]
fn separating_pair_keeps_velocity() {
    let mut a = body2(0, 100_000, 100_000, -50_000, 0, 10_000);
    let mut b = body2(1, 105_000, 100_000, 50_000, 0, 10_000);
    a.pressure = 7;
    resolve_collision(&mut a, &mut b, 600_000, 1_000_000);
    assert_eq!(a.velocity, [-50_000, 0]);
    assert_eq!(b.velocity, [50_000, 0]);
    assert_eq!(a.pressure, 7);
    assert!(dist_sq(&a, &b) >= 20_000 * 20_000);
}

#[test]
fn closing_speed_never_decreases() {
    // An oblique approach: the projected relative velocity moves toward separation.
    let a0 = body2(0, 0, 0, 30_000, 12_000, 10_000);
    let b0 = body2(1, 9_000, 7_000, -20_000, -4_000, 8_000);
    let (mut a, mut b) = (a0, b0);
    resolve_collision(&mut a, &mut b, 600_000, 1_000_000);
    let dx = (b0.position[0] - a0.position[0]) as i128;
    let dy = (b0.position[1] - a0.position[1]) as i128;
    let before = (b0.velocity[0] - a0.velocity[0]) as i128 * dx
        + (b0.velocity[1] - a0.velocity[1]) as i128 * dy;
    let after = (b.velocity[0] - a.velocity[0]) as i128 * dx
        + (b.velocity[1] - a.velocity[1]) as i128 * dy;
    assert!(before <= 0);
    assert!(after >= before);
}

#[test]
fn overlap_strictly_shrinks() {
    let a0 = body2(0, 0, 0, 0, 0, 10_000);
    let b0 = body2(1, 3_000, 4_000, 0, 0, 10_000);
    let (mut a, mut b) = (a0, b0);
    resolve_collision(&mut a, &mut b, 600_000, 1_000_000);
    assert!(dist_sq(&a, &b) > dist_sq(&a0, &b0));
    assert!(dist_sq(&a, &b) >= 20_000 * 20_000);
}

#[test]
fn three_dimensional_pair_separates() {
    let mut a: Body<3> = Body {
        id: 0,
        position: [0, 0, 0],
        velocity: [1_000, 0, 0],
        radius: 5_000,
        pressure: 0,
        color: WHITE,
    };
    let mut b: Body<3> = Body {
        id: 1,
        position: [2_000, 2_000, 1_000],
        velocity: [-1_000, 0, 0],
        radius: 5_000,
        pressure: 0,
        color: WHITE,
    };
    resolve_collision(&mut a, &mut b, 1_000_000, 1_000_000);
    let d: i128 = (0..3)
        .map(|j| {
            let x = (b.position[j] - a.position[j]) as i128;
            x * x
        })
        .sum();
    assert!(d > 9_000_000);
    assert!(a.velocity[0] < 1_000);
    assert!(b.velocity[0] > -1_000);
}

#[test]
fn boundary_pushes_back_and_damps() {
    let mut b = body2(0, -3_000, 790_000, -40_000, 20_000, 10_000);
    resolve_boundaries(&mut b, &[1_200_000, 800_000], 600_000);
    assert_eq!(b.position, [10_000, 790_000]);
    assert_eq!(b.velocity, [24_000, 20_000]);
    let mut c = body2(0, 600_000, 799_000, 5_000, 30_000, 10_000);
    resolve_boundaries(&mut c, &[1_200_000, 800_000], 600_000);
    assert_eq!(c.position, [600_000, 790_000]);
    assert_eq!(c.velocity, [5_000, -18_000]);
}

#[test]
fn boundary_keeps_inward_velocity() {
    let mut b = body2(0, 1_205_000, 400_000, -7_000, 0, 10_000);
    resolve_boundaries(&mut b, &[1_200_000, 800_000], 600_000);
    assert_eq!(b.position, [1_190_000, 400_000]);
    assert_eq!(b.velocity, [-7_000, 0]);
}

#[test]
fn boundary_containment_on_every_axis() {
    let extent = [1_200_000, 800_000, 500_000];
    for &(x, y, z) in &[(-1, 5, 499_999), (2_000_000, -800_000, 250_000), (600_000, 400_000, 0)] {
        let mut b: Body<3> = Body {
            id: 0,
            position: [x, y, z],
            velocity: [1, -1, 1],
            radius: 10_000,
            pressure: 0,
            color: WHITE,
        };
        resolve_boundaries(&mut b, &extent, 600_000);
        for j in 0..3 {
            assert!(b.position[j] >= 10_000);
            assert!(b.position[j] <= extent[j] - 10_000);
        }
    }
}

#[test]
fn apart_pair_clears_pressure() {
    let mut a = body2(0, 0, 0, 1, 2, 10_000);
    let mut b = body2(1, 50_000, 0, 3, 4, 10_000);
    a.pressure = 40;
    b.pressure = 70;
    resolve_candidate_pair(&mut a, &mut b, 600_000, 1_000_000);
    assert_eq!((a.pressure, b.pressure), (0, 0));
    assert_eq!(a.velocity, [1, 2]);
    assert_eq!(b.position, [50_000, 0]);
}

#[test]
fn overlapping_candidate_pair_is_resolved() {
    let mut a = body2(0, 100_000, 100_000, 50_000, 0, 10_000);
    let mut b = body2(1, 105_000, 100_000, -50_000, 0, 10_000);
    resolve_candidate_pair(&mut a, &mut b, 600_000, 1_000_000);
    assert_eq!(a.velocity, [-10_000, 0]);
    assert_eq!(b.position, [112_500, 100_000]);
    assert_eq!(a.pressure, 190);
}

#[test]
fn near_contact_within_the_minimum_is_left_alone() {
    // True distance about 19999.25 with reach 20000: the overlap is below one unit.
    let mut a = body2(0, 0, 0, 3, 0, 10_000);
    let mut b = body2(1, 19_999, 100, -3, 0, 10_000);
    resolve_collision(&mut a, &mut b, 600_000, 1_000_000);
    assert_eq!(a.position, [0, 0]);
    assert_eq!(b.position, [19_999, 100]);
    assert_eq!(a.velocity, [3, 0]);
}

#[test]
fn correction_does_not_overshoot_the_reach() {
    // Radii 1 and 4, centers sqrt(8) apart: afterwards strictly farther, at most 5.
    let mut a = body2(0, 0, 0, 0, 0, 1);
    let mut b = body2(1, 2, 2, 1, 1, 4);
    resolve_collision(&mut a, &mut b, 600_000, 1_000_000);
    let d2 = dist_sq(&a, &b);
    assert!(d2 > 8);
    assert!(d2 <= 25);
    assert_eq!(b.velocity, [1, 1]);
}

#[test]
fn correction_keeps_the_direction_when_exact() {
    let mut a = body2(0, 1_000, 1_000, 0, 0, 10);
    let mut b = body2(1, 1_006, 1_008, 0, 0, 10);
    resolve_collision(&mut a, &mut b, 600_000, 1_000_000);
    assert_eq!(
        [b.position[0] - a.position[0], b.position[1] - a.position[1]],
        [12, 16]
    );
}

#[test]
fn rounding_that_changes_nothing_still_separates() {
    // Offset (3, 4), reach 6: the stretched offset (3.6, 4.8) rounds to (3, 4),
    // so the first axis is lengthened by one unit.
    let mut a = body2(0, 100, 100, 0, 0, 3);
    let mut b = body2(1, 103, 104, 0, 0, 3);
    resolve_collision(&mut a, &mut b, 600_000, 1_000_000);
    assert_eq!(
        [b.position[0] - a.position[0], b.position[1] - a.position[1]],
        [4, 4]
    );
    assert!(dist_sq(&a, &b) > 25 && dist_sq(&a, &b) <= 36);
}
