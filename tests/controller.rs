use rust_physics_engine::body::{Body, Color};
use rust_physics_engine::controller::{
    adjust_sim_steps, get_color_from_pressure, get_color_from_vel, DisplayMode, State,
    StepRequest,
};
use rust_physics_engine::fps_counter::SmoothedFps;

fn body_with(velocity: [i64; 2], pressure: i64) -> Body<2> {
    Body {
        id: 0,
        position: [0, 0],
        velocity,
        radius: 10_000,
        pressure,
        color: Color { r: 1, g: 2, b: 3, a: 255 },
    }
}

fn fps_of(samples: &[i32]) -> SmoothedFps {
    let mut f = SmoothedFps::new();
    for &s in samples {
        f.update(s);
    }
    f
}

#[test]
fn average_of_few_samples() {
    let f = SmoothedFps::new();
    assert_eq!(f.get_average(), 0);
    let f = fps_of(&[60, 61]);
    assert_eq!(f.get_average(), 6050);
    let f = fps_of(&[10, 20, 40]);
    assert_eq!(f.get_average(), 2333);
}

#[test]
fn average_spans_last_sixty_samples() {
    let mut samples = vec![1000; 10];
    samples.extend(vec![30; 60]);
    let f = fps_of(&samples);
    assert_eq!(f.get_average(), 3000);
    let mut f = fps_of(&[30; 60]);
    f.update(90);
    assert_eq!(f.get_average(), 3100);
}

#[test]
fn below_and_above_compare_the_exact_average() {
    let f = fps_of(&[59, 60]);
    assert!(f.is_below(60));
    assert!(!f.is_below(59));
    assert!(f.is_above(59));
    assert!(!f.is_above(60));
}

#[test]
fn automatic_steps_follow_the_frame_rate() {
    let slow = fps_of(&[40; 5]);
    let fast = fps_of(&[90; 5]);
    let steady = fps_of(&[62; 5]);
    assert_eq!(adjust_sim_steps(20, true, &slow, 60, 5, StepRequest::Increase), 19);
    assert_eq!(adjust_sim_steps(20, true, &fast, 60, 5, StepRequest::Decrease), 21);
    assert_eq!(adjust_sim_steps(20, true, &steady, 60, 5, StepRequest::Keep), 20);
}

#[test]
fn manual_steps_follow_requests() {
    let f = fps_of(&[40; 5]);
    assert_eq!(adjust_sim_steps(20, false, &f, 60, 5, StepRequest::Increase), 21);
    assert_eq!(adjust_sim_steps(20, false, &f, 60, 5, StepRequest::Decrease), 19);
    assert_eq!(adjust_sim_steps(20, false, &f, 60, 5, StepRequest::Keep), 20);
}

#[test]
fn steps_stay_within_bounds() {
    let slow = fps_of(&[1; 3]);
    let fast = fps_of(&[1000; 3]);
    assert_eq!(adjust_sim_steps(1, true, &slow, 60, 5, StepRequest::Keep), 1);
    assert_eq!(adjust_sim_steps(200, true, &fast, 60, 5, StepRequest::Keep), 200);
    assert_eq!(adjust_sim_steps(200, false, &slow, 60, 5, StepRequest::Increase), 200);
    assert_eq!(adjust_sim_steps(i32::MAX, false, &slow, 60, 5, StepRequest::Increase), 200);
    assert_eq!(adjust_sim_steps(i32::MIN, false, &slow, 60, 5, StepRequest::Decrease), 1);
    let mut steps = 5;
    for k in 0..500 {
        let request = if k % 3 == 0 { StepRequest::Decrease } else { StepRequest::Increase };
        steps = adjust_sim_steps(steps, k % 2 == 0, &fps_of(&[(k * 7 % 130) as i32]), 60, 5, request);
        assert!((1..=200).contains(&steps));
    }
}

#[test]
fn display_mode_cycles() {
    let mut s = State::new();
    assert_eq!(s.display_mode, DisplayMode::Normal);
    s.toggle_display_mode();
    assert_eq!(s.display_mode, DisplayMode::Velocity);
    s.toggle_display_mode();
    assert_eq!(s.display_mode, DisplayMode::Pressure);
    s.toggle_display_mode();
    assert_eq!(s.display_mode, DisplayMode::Normal);
}

#[test]
fn velocity_color_scales_with_speed() {
    let c = get_color_from_vel(&body_with([30_000, 40_000], 0), 100_000);
    assert_eq!(c, Color { r: 0, g: 127, b: 128, a: 255 });
    let c = get_color_from_vel(&body_with([0, 0], 0), 100_000);
    assert_eq!(c, Color { r: 0, g: 0, b: 255, a: 255 });
    let c = get_color_from_vel(&body_with([300_000, 0], 0), 100_000);
    assert_eq!(c, Color { r: 0, g: 255, b: 0, a: 255 });
    let c = get_color_from_vel(&body_with([300_000, 0], 0), 0);
    assert_eq!(c, Color { r: 0, g: 0, b: 255, a: 255 });
}

#[test]
fn pressure_color_scales_with_pressure() {
    let c = get_color_from_pressure(&body_with([0, 0], 500), 1000);
    assert_eq!(c, Color { r: 127, g: 0, b: 128, a: 255 });
    let c = get_color_from_pressure(&body_with([0, 0], 500), 0);
    assert_eq!(c, Color { r: 0, g: 0, b: 255, a: 255 });
}
