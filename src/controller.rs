//! The sub-step controller and the display state.
use vstd::prelude::*;
use crate::arith::{clamp_spec, floor_sqrt, VELOCITY_LIMIT};
use crate::body::{Body, Color};
use crate::fps_counter::SmoothedFps;
use crate::vector::{coords, norm_sq, within};

verus! {

/// Fewest resolution passes per frame.
pub const MIN_SIM_STEPS: i32 = 1;

/// Most resolution passes per frame.
pub const MAX_SIM_STEPS: i32 = 200;

/// A manual request to change the number of passes.
#[derive(Clone, Copy, PartialEq, Eq, Structural, Debug)]
pub enum StepRequest {
    Keep,
    Increase,
    Decrease,
}

/// The number of passes before limiting: under automatic control one fewer
/// when the smoothed rate is below target, one more when it exceeds target
/// plus the margin; otherwise as requested.
pub open spec fn requested_steps(
    sim_steps: int,
    auto: bool,
    below_target: bool,
    above_margin: bool,
    request: StepRequest,
) -> int {
    if auto {
        if below_target {
            sim_steps - 1
        } else if above_margin {
            sim_steps + 1
        } else {
            sim_steps
        }
    } else {
        match request {
            StepRequest::Keep => sim_steps,
            StepRequest::Increase => sim_steps + 1,
            StepRequest::Decrease => sim_steps - 1,
        }
    }
}

/// The smoothed rate lies below `target` (an empty average counts as zero).
pub open spec fn average_below(fps: SmoothedFps, target: int) -> bool {
    if fps.spec_count() == 0 {
        0 < target
    } else {
        fps.spec_sum() < target * fps.spec_count()
    }
}

/// The smoothed rate lies above `bound` (an empty average counts as zero).
pub open spec fn average_above(fps: SmoothedFps, bound: int) -> bool {
    if fps.spec_count() == 0 {
        0 > bound
    } else {
        fps.spec_sum() > bound * fps.spec_count()
    }
}

/// The number of passes for the next frame, always within
/// `[MIN_SIM_STEPS, MAX_SIM_STEPS]`.
pub fn adjust_sim_steps(
    sim_steps: i32,
    auto_sim_steps: bool,
    fps: &SmoothedFps,
    target_fps: i32,
    fps_boundary: i32,
    request: StepRequest,
) -> (r: i32)
    requires
        fps.wf(),
    ensures
        MIN_SIM_STEPS <= r <= MAX_SIM_STEPS,
        r == clamp_spec(
            requested_steps(
                sim_steps as int,
                auto_sim_steps,
                average_below(*fps, target_fps as int),
                average_above(*fps, target_fps + fps_boundary),
                request,
            ),
            MIN_SIM_STEPS as int,
            MAX_SIM_STEPS as int,
        ),
{
    let s = sim_steps as i64;
    let next: i64 = if auto_sim_steps {
        if fps.is_below(target_fps) {
            s - 1
        } else if fps.is_above(target_fps as i64 + fps_boundary as i64) {
            s + 1
        } else {
            s
        }
    } else {
        match request {
            StepRequest::Keep => s,
            StepRequest::Increase => s + 1,
            StepRequest::Decrease => s - 1,
        }
    };
    if next < MIN_SIM_STEPS as i64 {
        MIN_SIM_STEPS
    } else if next > MAX_SIM_STEPS as i64 {
        MAX_SIM_STEPS
    } else {
        next as i32
    }
}

/// How bodies are colored.
#[derive(Clone, Copy, PartialEq, Eq, Structural, Debug)]
pub enum DisplayMode {
    Normal,
    Velocity,
    Pressure,
}

/// The mode that follows `m` in the cycle Normal, Velocity, Pressure.
pub open spec fn next_mode(m: DisplayMode) -> DisplayMode {
    match m {
        DisplayMode::Normal => DisplayMode::Velocity,
        DisplayMode::Velocity => DisplayMode::Pressure,
        DisplayMode::Pressure => DisplayMode::Normal,
    }
}

/// The display state of the simulation.
#[derive(Clone, Copy, Debug)]
pub struct State {
    pub display_mode: DisplayMode,
}

impl State {
    /// Starts in the normal display mode.
    pub fn new() -> (r: Self)
        ensures
            r.display_mode == DisplayMode::Normal,
    {
        State { display_mode: DisplayMode::Normal }
    }

    /// Moves to the next display mode.
    pub fn toggle_display_mode(&mut self)
        ensures
            final(self).display_mode == next_mode(old(self).display_mode),
    {
        self.display_mode = match self.display_mode {
            DisplayMode::Normal => DisplayMode::Velocity,
            DisplayMode::Velocity => DisplayMode::Pressure,
            DisplayMode::Pressure => DisplayMode::Normal,
        };
    }
}

/// `value / largest` scaled to a color channel and limited to `[0, 255]`;
/// zero when `largest` is not positive.
pub open spec fn shade(value: int, largest: int) -> int {
    if largest <= 0 {
        0
    } else {
        clamp_spec((value * 255) / largest, 0, 255)
    }
}

/// Speed of a body, rounded down.
pub open spec fn speed_of<const D: usize>(body: Body<D>) -> int {
    crate::arith::sqrt_floor(norm_sq(coords(body.velocity)))
}

fn shade_exec(value: i128, largest: i128) -> (r: u8)
    requires
        0 <= value <= 0x1_0000_0000_0000_0000_0000_0000,
        largest < 0x1_0000_0000_0000_0000_0000_0000,
    ensures
        r == shade(value as int, largest as int),
{
    if largest <= 0 {
        0
    } else {
        let q = (value * 255) / largest;
        if q > 255 {
            255
        } else {
            q as u8
        }
    }
}

/// Speed of a body, rounded down.
pub fn body_speed<const D: usize>(body: &Body<D>) -> (r: i64)
    requires
        body.wf(),
    ensures
        r == speed_of(*body),
        0 <= r <= 4 * VELOCITY_LIMIT,
{
    let zero = [0i64; D];
    proof {
        assert(within(zero, crate::arith::POSITION_LIMIT as int));
        assert(crate::vector::offset(zero, body.velocity) =~= coords(body.velocity));
    }
    let sq = crate::vector::distance_sq(&zero, &body.velocity);
    let s = floor_sqrt(sq);
    assert(s <= 4 * VELOCITY_LIMIT) by (nonlinear_arith)
        requires
            s * s <= sq,
            sq <= 12_000_000_000_000_000_000_000_000u128,
    ;
    s as i64
}

/// Color of a body in velocity mode: green for the fastest, blue for a body
/// at rest.
pub fn get_color_from_vel<const D: usize>(body: &Body<D>, largest_speed: i64) -> (r: Color)
    requires
        body.wf(),
    ensures
        r.r == 0,
        r.g == shade(speed_of(*body), largest_speed as int),
        r.b == 255 - shade(speed_of(*body), largest_speed as int),
        r.a == 255,
{
    let n = shade_exec(body_speed(body) as i128, largest_speed as i128);
    Color { r: 0, g: n, b: 255 - n, a: 255 }
}

/// Color of a body in pressure mode: red for the highest pressure, blue for
/// none.
pub fn get_color_from_pressure<const D: usize>(body: &Body<D>, largest_pressure: i64) -> (r: Color)
    requires
        body.wf(),
    ensures
        r.r == shade(body.pressure as int, largest_pressure as int),
        r.g == 0,
        r.b == 255 - shade(body.pressure as int, largest_pressure as int),
        r.a == 255,
{
    let n = shade_exec(body.pressure as i128, largest_pressure as i128);
    Color { r: n, g: 0, b: 255 - n, a: 255 }
}

} // verus!
