use rust_physics_engine::body::{Body, Color};
use rust_physics_engine::controller::{DisplayMode, StepRequest};
use rust_physics_engine::integrate::integrate_body;
use rust_physics_engine::simulation::{FrameInput, SimConfig, Simulation};

const GREY: Color = Color { r: 128, g: 128, b: 128, a: 255 };

fn config2(body_count: usize, width: i64, height: i64) -> SimConfig<2> {
    SimConfig {
        body_count,
        body_radius: 10_000,
        gravity: 9_810,
        resistance: 999_000,
        bounce_amount: 600_000,
        max_speed: 2_000_000,
        max_pressure: 1_000_000,
        extent: [width, height],
        sim_steps: 20,
        auto_sim_steps: false,
        target_fps: 60,
        fps_boundary: 5,
        delete_dist: 5_000,
    }
}

fn body_at(x: i64, y: i64) -> Body<2> {
    Body { id: 99, position: [x, y], velocity: [0, 0], radius: 10_000, pressure: 0, color: GREY }
}

fn quiet_input(pointer: [i64; 2]) -> FrameInput<2> {
    FrameInput {
        pointer,
        attract: false,
        spawn: false,
        delete_near_pointer: false,
        toggle_gravity: false,
        cycle_display_mode: false,
        step_request: StepRequest::Keep,
        frame_time: 16_667,
        fps: 60,
    }
}

#[test]
fn settling_under_gravity() {
    let mut sim = Simulation::from_bodies(config2(1, 1_200_000, 500_000), vec![body_at(600_000, 0)]);
    let floor = 500_000 - 10_000;
    let mut contact_speeds: Vec<i64> = Vec::new();
    let mut previous_vy = sim.bodies[0].velocity[1];
    for _ in 0..3_000 {
        sim.frame(&quiet_input([0, 0]));
        let vy = sim.bodies[0].velocity[1];
        // The body hit the floor during this frame's passes: it was moving down
        // and now moves up.
        if previous_vy > 0 && vy < 0 {
            contact_speeds.push(previous_vy);
        }
        previous_vy = vy;
    }
    let bounces: Vec<i64> = contact_speeds.iter().copied().filter(|&v| v > 50_000).collect();
    assert!(bounces.len() >= 3);
    for w in bounces.windows(2) {
        assert!(w[1] < w[0]);
    }
    let y = sim.bodies[0].position[1];
    assert!((y - floor).abs() <= 1_000, "y = {}", y);
}

#[test]
fn spawn_and_remove_reindex() {
    let n = 8;
    let far: Vec<Body<2>> = (0..n).map(|k| body_at(100_000 + 50_000 * k as i64, 300_000)).collect();
    let mut sim = Simulation::from_bodies(config2(n, 1_200_000, 800_000), far);
    for (k, b) in sim.bodies.iter().enumerate() {
        assert_eq!(b.id, k);
    }
    sim.spawn_body_with([700_000, 700_000], [1_000, -2_000], GREY);
    assert_eq!(sim.bodies.len(), n + 1);
    assert_eq!(sim.bodies[n].id, n);
    assert_eq!(sim.bodies[n].position, [700_000, 700_000]);
    assert_eq!(sim.bodies[n].velocity, [1_000, -2_000]);

    // Bodies 2 and 5 sit at the pointer; every other one is far from it.
    let mut sim = Simulation::from_bodies(
        config2(n, 1_200_000, 800_000),
        (0..n)
            .map(|k| {
                if k == 2 || k == 5 {
                    body_at(50_000 + k as i64, 50_000)
                } else {
                    body_at(200_000 + 50_000 * k as i64, 300_000)
                }
            })
            .collect(),
    );
    let before: Vec<[i64; 2]> = sim.bodies.iter().map(|b| b.position).collect();
    sim.remove_near([50_000, 50_000]);
    assert_eq!(sim.bodies.len(), n - 2);
    let expected: Vec<[i64; 2]> = before
        .iter()
        .enumerate()
        .filter(|(k, _)| *k != 2 && *k != 5)
        .map(|(_, p)| *p)
        .collect();
    for (k, b) in sim.bodies.iter().enumerate() {
        assert_eq!(b.id, k);
        assert_eq!(b.position, expected[k]);
    }
}

#[test]
fn spawn_through_a_frame_draws_a_bounded_velocity() {
    let mut sim = Simulation::from_bodies(config2(0, 1_200_000, 800_000), vec![]);
    let mut input = quiet_input([300_000, 200_000]);
    input.spawn = true;
    sim.frame(&input);
    assert_eq!(sim.bodies.len(), 1);
    assert_eq!(sim.bodies[0].id, 0);
    assert_eq!(sim.bodies[0].position, [300_000, 200_000]);
    assert!(sim.bodies[0].velocity.iter().all(|v| v.abs() <= 100_000));
    sim.spawn_body([1_000, 1_000]);
    assert_eq!(sim.bodies[1].id, 1);
    assert!(sim.bodies[1].velocity.iter().all(|v| v.abs() <= 100_000));
}

#[test]
fn random_start_lies_inside_the_domain() {
    let sim: Simulation<3> = Simulation::new(SimConfig {
        body_count: 200,
        body_radius: 10_000,
        gravity: 9_810,
        resistance: 999_000,
        bounce_amount: 600_000,
        max_speed: 2_000_000,
        max_pressure: 1_000_000,
        extent: [300_000, 200_000, 100_000],
        sim_steps: 20,
        auto_sim_steps: true,
        target_fps: 60,
        fps_boundary: 5,
        delete_dist: 50_000,
    });
    assert_eq!(sim.bodies.len(), 200);
    let first = sim.bodies[0].position;
    assert!(sim.bodies.iter().any(|b| b.position != first));
    assert!(sim.bodies.iter().any(|b| b.position[0] > 10_000));
    for (k, b) in sim.bodies.iter().enumerate() {
        assert_eq!(b.id, k);
        for j in 0..3 {
            assert!(b.position[j] >= 10_000);
            assert!(b.position[j] <= [300_000, 200_000, 100_000][j] - 10_000);
            assert!(b.velocity[j].abs() <= 100_000);
        }
    }
}

#[test]
fn integration_applies_gravity_damping_and_motion() {
    let mut b = body_at(100_000, 100_000);
    b.velocity = [10_000, 0];
    integrate_body(&mut b, None, 9_810, true, 999_000, 2_000_000, 100_000);
    // vy = 9810 * 0.999 = 9800.19, vx = 10000 * 0.999 = 9990.
    assert_eq!(b.velocity, [9_990, 9_800]);
    // One tenth of a second of motion.
    assert_eq!(b.position, [100_999, 100_980]);
}

#[test]
fn integration_without_gravity_and_with_fallback_time() {
    let mut b = body_at(100_000, 100_000);
    b.velocity = [-50_000, 20_000];
    integrate_body(&mut b, None, 9_810, false, 1_000_000, 2_000_000, 0);
    assert_eq!(b.velocity, [-50_000, 20_000]);
    // A non-positive frame time counts as ten milliseconds.
    assert_eq!(b.position, [99_500, 100_200]);
}

#[test]
fn integration_limits_speed() {
    let mut b = body_at(100_000, 100_000);
    b.velocity = [3_000_000, 4_000_000];
    integrate_body(&mut b, None, 0, false, 1_000_000, 2_000_000, 1);
    assert_eq!(b.velocity, [1_200_000, 1_600_000]);
    let s2 = (b.velocity[0] as i128).pow(2) + (b.velocity[1] as i128).pow(2);
    assert!(s2 <= 2_000_000i128 * 2_000_000);
}

#[test]
fn integration_pulls_toward_the_pointer() {
    let mut b = body_at(100_000, 100_000);
    integrate_body(&mut b, Some([200_000, 100_000]), 10_000, false, 1_000_000, 2_000_000, 1_000_000);
    // 100 px away, strength 10, one second: 1000 px/s toward the pointer.
    assert_eq!(b.velocity, [1_000_000, 0]);
    let mut c = body_at(100_000, 100_000);
    integrate_body(&mut c, Some([100_050, 100_000]), 10_000, false, 1_000_000, 2_000_000, 1_000_000);
    // Closer than a tenth of a pixel the pull is normalised to one pixel.
    assert_eq!(c.velocity, [10_000, 0]);
}

#[test]
fn frame_toggles_and_records_rate() {
    let mut sim = Simulation::from_bodies(config2(1, 1_200_000, 800_000), vec![body_at(600_000, 400_000)]);
    let mut input = quiet_input([0, 0]);
    input.toggle_gravity = true;
    input.cycle_display_mode = true;
    input.step_request = StepRequest::Increase;
    sim.frame(&input);
    assert!(!sim.do_gravity);
    assert_eq!(sim.state.display_mode, DisplayMode::Velocity);
    assert_eq!(sim.sim_steps, 21);
    assert_eq!(sim.fps.get_average(), 6000);
    assert_eq!(sim.bodies[0].velocity, [0, 0]);
}

#[test]
fn frame_separates_overlapping_bodies() {
    let mut cfg = config2(2, 1_200_000, 800_000);
    cfg.gravity = 0;
    let mut sim = Simulation::from_bodies(cfg, vec![body_at(600_000, 400_000), body_at(605_000, 400_000)]);
    sim.frame(&quiet_input([0, 0]));
    let dx = sim.bodies[1].position[0] - sim.bodies[0].position[0];
    assert!(dx >= 20_000);
    for b in &sim.bodies {
        assert!(b.pressure >= 0 && b.pressure <= 1_000_000);
    }
}

#[test]
fn frame_deletes_near_pointer() {
    let mut sim = Simulation::from_bodies(
        config2(3, 1_200_000, 800_000),
        vec![body_at(100_000, 100_000), body_at(500_000, 500_000), body_at(900_000, 100_000)],
    );
    let mut input = quiet_input([500_000, 500_000]);
    input.delete_near_pointer = true;
    input.toggle_gravity = true;
    sim.frame(&input);
    assert_eq!(sim.bodies.len(), 2);
    assert_eq!(sim.bodies[0].position, [100_000, 100_000]);
    assert_eq!(sim.bodies[1].position, [900_000, 100_000]);
    assert_eq!(sim.bodies[1].id, 1);
}

#[test]
fn display_color_follows_the_mode() {
    let mut sim = Simulation::from_bodies(config2(1, 1_200_000, 800_000), vec![body_at(600_000, 400_000)]);
    let b = sim.bodies[0];
    assert_eq!(sim.display_color(&b), GREY);
    let mut input = quiet_input([0, 0]);
    input.cycle_display_mode = true;
    input.toggle_gravity = true;
    sim.frame(&input);
    let b = sim.bodies[0];
    assert_eq!(sim.display_color(&b), Color { r: 0, g: 0, b: 255, a: 255 });
}

#[test]
fn every_frame_ends_inside_the_domain() {
    let mut sim: Simulation<2> = Simulation::new(config2(150, 400_000, 300_000));
    for k in 0..60 {
        let mut input = quiet_input([200_000, 150_000]);
        input.attract = k % 7 == 0;
        input.spawn = k % 11 == 0;
        sim.frame(&input);
        for b in &sim.bodies {
            assert!(b.position[0] >= b.radius && b.position[0] <= 400_000 - b.radius);
            assert!(b.position[1] >= b.radius && b.position[1] <= 300_000 - b.radius);
        }
    }
}
