//! Once-per-frame integration of one body: pointer attraction, gravity,
//! damping, the speed limit, and the position step.
use vstd::prelude::*;
use crate::arith::{
    ceil_sqrt, div_trunc, div_trunc_i128, floor_sqrt, is_ceil_sqrt, sat_pos, sat_vel,
    saturate_position, saturate_velocity, sqrt_ceil, sqrt_floor, POSITION_LIMIT, RATIO_ONE,
    VELOCITY_LIMIT,
};
use crate::body::Body;
use crate::vector::{
    coords, distance_sq, lemma_component_sq_le_norm, lemma_norm_prefix_nonneg,
    lemma_scaled_norm,
    norm_sq, offset, within,
};

verus! {

/// Microseconds in a second; frame times are given in microseconds.
pub const MICROS_PER_SECOND: i64 = 1_000_000;

/// Frame time used when the host reports a non-positive one.
pub const FALLBACK_FRAME_TIME: i64 = 10_000;

/// Longest frame time the arithmetic admits (1000 seconds).
pub const FRAME_TIME_LIMIT: i64 = 1_000_000_000;

/// Below this distance (a tenth of a pixel) the pull toward the pointer is
/// normalised to unit length.
pub const POINTER_SNAP_DISTANCE: i64 = 100;

/// The frame time used for integration.
pub open spec fn effective_frame_time(frame_time: int) -> int {
    if frame_time <= 0 {
        FALLBACK_FRAME_TIME as int
    } else {
        frame_time
    }
}

/// The vector from `position` to `pointer`, scaled to one pixel when shorter
/// than the snap distance.
pub open spec fn pull<const D: usize>(position: [i64; D], pointer: [i64; D]) -> Seq<int> {
    let f = offset(position, pointer);
    let d = sqrt_floor(norm_sq(f));
    if 0 < d < POINTER_SNAP_DISTANCE {
        Seq::new(D as nat, |j: int| div_trunc(f[j] * 1000, d))
    } else {
        f
    }
}

/// Velocity after the pull toward the pointer, of strength `gravity`, over
/// `dt` microseconds.
pub open spec fn attracted<const D: usize>(
    v: Seq<int>,
    position: [i64; D],
    pointer: [i64; D],
    gravity: int,
    dt: int,
) -> Seq<int> {
    let f = pull(position, pointer);
    Seq::new(D as nat, |j: int| sat_vel(v[j] + div_trunc(f[j] * gravity * dt, 1_000_000_000)))
}

/// Velocity after gravity, which acts on the vertical axis (index 1).
pub open spec fn with_gravity(v: Seq<int>, gravity: int) -> Seq<int> {
    v.update(1, sat_vel(v[1] + gravity))
}

/// Velocity scaled by the resistance ratio.
pub open spec fn damped(v: Seq<int>, resistance: int) -> Seq<int> {
    Seq::new(v.len(), |j: int| div_trunc(v[j] * resistance, RATIO_ONE as int))
}

/// Velocity scaled down to length at most `max_speed`.
pub open spec fn speed_limited(v: Seq<int>, max_speed: int) -> Seq<int> {
    let s2 = norm_sq(v);
    if s2 > max_speed * max_speed {
        let s = sqrt_ceil(s2);
        Seq::new(v.len(), |j: int| div_trunc(v[j] * max_speed, s))
    } else {
        v
    }
}

/// Position advanced by velocity `v` over `dt` microseconds.
pub open spec fn advanced(p: Seq<int>, v: Seq<int>, dt: int) -> Seq<int> {
    Seq::new(p.len(), |j: int| sat_pos(p[j] + div_trunc(v[j] * dt, MICROS_PER_SECOND as int)))
}

/// The velocity a body ends the frame with.
pub open spec fn integrated_velocity<const D: usize>(
    body: Body<D>,
    pointer: Option<[i64; D]>,
    gravity: int,
    gravity_on: bool,
    resistance: int,
    max_speed: int,
    dt: int,
) -> Seq<int> {
    let v0 = coords(body.velocity);
    let v1 = match pointer {
        Some(p) => attracted(v0, body.position, p, gravity, dt),
        None => v0,
    };
    let v2 = if gravity_on {
        with_gravity(v1, gravity)
    } else {
        v1
    };
    speed_limited(damped(v2, resistance), max_speed)
}

/// Scales `v` so that its length is at most `max_speed`.
fn limit_speed<const D: usize>(v: &mut [i64; D], max_speed: i64)
    requires
        D <= 3,
        within(*old(v), VELOCITY_LIMIT as int),
        0 <= max_speed <= VELOCITY_LIMIT,
    ensures
        within(*final(v), VELOCITY_LIMIT as int),
        coords(*final(v)) == speed_limited(coords(*old(v)), max_speed as int),
        norm_sq(coords(*final(v))) <= max_speed * max_speed,
{
    let ghost v0 = coords(*v);
    let zero = [0i64; D];
    proof {
        assert(within(zero, POSITION_LIMIT as int));
        assert(offset(zero, *v) =~= v0);
    }
    let s2 = distance_sq(&zero, v);
    let m = max_speed as u128;
    assert(m * m <= 1_000_000_000_000_000_000_000_000) by (nonlinear_arith)
        requires
            m <= 1_000_000_000_000,
    ;
    if s2 <= m * m {
        return;
    }
    let s = ceil_sqrt(s2);
    assert(s >= 1) by (nonlinear_arith)
        requires
            s2 > m * m,
            s2 <= s * s,
            s >= 0,
    ;
    let mut i: usize = 0;
    while i < D
        invariant
            i <= D <= 3,
            0 <= max_speed <= VELOCITY_LIMIT,
            s == sqrt_ceil(norm_sq(v0)),
            s <= crate::arith::SQRT_RESULT_LIMIT,
            is_ceil_sqrt(norm_sq(v0), s as int),
            s >= 1,
            v0.len() == D,
            forall|j: int| 0 <= j < D ==> -VELOCITY_LIMIT <= #[trigger] v0[j] <= VELOCITY_LIMIT,
            within(*v, VELOCITY_LIMIT as int),
            forall|j: int| 0 <= j < i ==> #[trigger] v[j] == div_trunc(v0[j] * max_speed, s as int),
            forall|j: int| 0 <= j < i ==> #[trigger] (v[j] * v[j]) * (s * s) <= (v0[j] * v0[j]) * (max_speed * max_speed),
            forall|j: int| i <= j < D ==> #[trigger] v[j] == v0[j],
        decreases D - i,
    {
        let x = v[i] as i128;
        assert(-1_000_000_000_000_000_000_000_000 <= x * max_speed
            <= 1_000_000_000_000_000_000_000_000) by (nonlinear_arith)
            requires
                -1_000_000_000_000 <= x <= 1_000_000_000_000,
                0 <= max_speed <= 1_000_000_000_000,
        ;
        let t = div_trunc_i128(x * (max_speed as i128), s as i128);
        proof {
            lemma_component_sq_le_norm(v0, D as int, i as int);
            let xm = x * max_speed;
            assert(0 <= xm * xm) by (nonlinear_arith);
            if xm >= 0 {
                assert(t * s <= xm && t >= 0) by (nonlinear_arith)
                    requires
                        t == xm / (s as int),
                        xm >= 0,
                        s >= 1,
                ;
                assert(t * t * (s * s) <= xm * xm) by (nonlinear_arith)
                    requires
                        0 <= t * s <= xm,
                        t >= 0,
                        s >= 1,
                ;
            } else {
                assert((-t) * s <= -xm && t <= 0) by (nonlinear_arith)
                    requires
                        t == -((-xm) / (s as int)),
                        xm < 0,
                        s >= 1,
                ;
                assert(t * t * (s * s) <= xm * xm) by (nonlinear_arith)
                    requires
                        0 <= (-t) * s <= -xm,
                        t <= 0,
                        s >= 1,
                ;
            }
            assert(xm * xm == (x * x) * (max_speed * max_speed)) by (nonlinear_arith)
                requires
                    xm == x * max_speed,
            ;
            assert(t * t * (s * s) == (t * t) * (s * s)) by (nonlinear_arith);
            assert(-VELOCITY_LIMIT <= t <= VELOCITY_LIMIT) by (nonlinear_arith)
                requires
                    (t * t) * (s * s) <= (x * x) * (max_speed * max_speed),
                    x * x <= s * s,
                    0 <= max_speed <= VELOCITY_LIMIT,
                    s >= 1,
            ;
        }
        v[i] = t as i64;
        i = i + 1;
    }
    proof {
        let v1 = coords(*v);
        assert(v1 =~= speed_limited(v0, max_speed as int));
        lemma_scaled_norm(v1, v0, D as int, (s * s) as int, max_speed * max_speed);
        lemma_norm_prefix_nonneg(v1, D as int);
        assert(norm_sq(v1) <= max_speed * max_speed) by (nonlinear_arith)
            requires
                norm_sq(v1) * (s * s) <= norm_sq(v0) * (max_speed * max_speed),
                norm_sq(v0) <= s * s,
                s >= 1,
                norm_sq(v1) >= 0,
                max_speed >= 0,
        ;
    }
}

proof fn lemma_div_trunc_bound(a: int, b: int)
    requires
        b >= 1,
    ensures
        a >= 0 ==> 0 <= div_trunc(a, b) <= a,
        a < 0 ==> a <= div_trunc(a, b) <= 0,
{
    if a >= 0 {
        assert(a / b <= a) by (nonlinear_arith)
            requires
                a >= 0,
                b >= 1,
        ;
        vstd::arithmetic::div_mod::lemma_div_pos_is_pos(a, b);
    } else {
        assert((-a) / b <= -a) by (nonlinear_arith)
            requires
                -a >= 0,
                b >= 1,
        ;
        vstd::arithmetic::div_mod::lemma_div_pos_is_pos(-a, b);
    }
}

/// Adds the pull toward `pointer`, of strength `gravity`, over `dt`
/// microseconds.
fn attract_velocity<const D: usize>(
    v: &mut [i64; D],
    position: &[i64; D],
    pointer: &[i64; D],
    gravity: i64,
    dt: i64,
)
    requires
        D <= 3,
        within(*old(v), VELOCITY_LIMIT as int),
        within(*position, POSITION_LIMIT as int),
        within(*pointer, POSITION_LIMIT as int),
        -VELOCITY_LIMIT <= gravity <= VELOCITY_LIMIT,
        0 < dt <= FRAME_TIME_LIMIT,
    ensures
        within(*final(v), VELOCITY_LIMIT as int),
        coords(*final(v)) == attracted(coords(*old(v)), *position, *pointer, gravity as int, dt as int),
{
    let ghost v0 = coords(*v);
    let ghost f = offset(*position, *pointer);
    let ghost pl = pull(*position, *pointer);
    let norm = distance_sq(position, pointer);
    let d = floor_sqrt(norm);
    let snap = 0 < d && d < POINTER_SNAP_DISTANCE as u128;
    let mut i: usize = 0;
    while i < D
        invariant
            i <= D <= 3,
            v0.len() == D,
            f == offset(*position, *pointer),
            pl == pull(*position, *pointer),
            d == sqrt_floor(norm_sq(f)),
            snap == (0 < d < POINTER_SNAP_DISTANCE),
            within(*position, POSITION_LIMIT as int),
            within(*pointer, POSITION_LIMIT as int),
            -VELOCITY_LIMIT <= gravity <= VELOCITY_LIMIT,
            0 < dt <= FRAME_TIME_LIMIT,
            within(*v, VELOCITY_LIMIT as int),
            forall|j: int|
                0 <= j < i ==> #[trigger] v[j] == sat_vel(
                    v0[j] + div_trunc(pl[j] * gravity * dt, 1_000_000_000),
                ),
            forall|j: int| i <= j < D ==> #[trigger] v[j] == v0[j],
        decreases D - i,
    {
        let raw: i128 = pointer[i] as i128 - position[i] as i128;
        let fj: i128 = if snap {
            let q = div_trunc_i128(raw * 1000, d as i128);
            proof {
                lemma_div_trunc_bound(raw * 1000, d as int);
            }
            q
        } else {
            raw
        };
        assert(fj == pl[i as int]);
        assert(-2_000_000_000_000_000 <= fj <= 2_000_000_000_000_000);
        assert(-2_000_000_000_000_000_000_000_000_000_000_000_000 <= fj * gravity * dt
            <= 2_000_000_000_000_000_000_000_000_000_000_000_000) by (nonlinear_arith)
            requires
                -2_000_000_000_000_000 <= fj <= 2_000_000_000_000_000,
                -1_000_000_000_000 <= gravity <= 1_000_000_000_000,
                0 < dt <= 1_000_000_000,
        ;
        assert(-2_000_000_000_000_000_000_000_000_000 <= fj * gravity
            <= 2_000_000_000_000_000_000_000_000_000) by (nonlinear_arith)
            requires
                -2_000_000_000_000_000 <= fj <= 2_000_000_000_000_000,
                -1_000_000_000_000 <= gravity <= 1_000_000_000_000,
        ;
        let dv = div_trunc_i128(fj * (gravity as i128) * (dt as i128), 1_000_000_000);
        proof {
            lemma_div_trunc_bound(fj * gravity * dt, 1_000_000_000);
        }
        let nv = saturate_velocity(v[i] as i128 + dv);
        v[i] = nv;
        i = i + 1;
    }
    proof {
        assert(coords(*v) =~= attracted(v0, *position, *pointer, gravity as int, dt as int));
    }
}

/// Adds `gravity` to the vertical component.
fn apply_gravity<const D: usize>(v: &mut [i64; D], gravity: i64)
    requires
        2 <= D,
        within(*old(v), VELOCITY_LIMIT as int),
        -VELOCITY_LIMIT <= gravity <= VELOCITY_LIMIT,
    ensures
        within(*final(v), VELOCITY_LIMIT as int),
        coords(*final(v)) == with_gravity(coords(*old(v)), gravity as int),
{
    let ghost v0 = coords(*v);
    let nv = saturate_velocity(v[1] as i128 + gravity as i128);
    v[1] = nv;
    proof {
        assert(coords(*v) =~= with_gravity(v0, gravity as int));
    }
}

/// Scales every component by the resistance ratio.
fn damp_velocity<const D: usize>(v: &mut [i64; D], resistance: i64)
    requires
        within(*old(v), VELOCITY_LIMIT as int),
        0 <= resistance <= RATIO_ONE,
    ensures
        within(*final(v), VELOCITY_LIMIT as int),
        coords(*final(v)) == damped(coords(*old(v)), resistance as int),
{
    let ghost v0 = coords(*v);
    let mut i: usize = 0;
    while i < D
        invariant
            i <= D,
            v0.len() == D,
            0 <= resistance <= RATIO_ONE,
            within(*v, VELOCITY_LIMIT as int),
            forall|j: int| 0 <= j < i ==> #[trigger] v[j] == div_trunc(v0[j] * resistance, RATIO_ONE as int),
            forall|j: int| i <= j < D ==> #[trigger] v[j] == v0[j],
        decreases D - i,
    {
        let x = v[i] as i128;
        assert(-1_000_000_000_000_000_000 <= x * resistance <= 1_000_000_000_000_000_000) by (nonlinear_arith)
            requires
                -1_000_000_000_000 <= x <= 1_000_000_000_000,
                0 <= resistance <= 1_000_000,
        ;
        let q = div_trunc_i128(x * (resistance as i128), RATIO_ONE as i128);
        assert(-1_000_000_000_000 <= q <= 1_000_000_000_000) by {
            let m = x * resistance;
            if m >= 0 {
                assert(m / 1_000_000 <= 1_000_000_000_000);
            } else {
                assert((-m) / 1_000_000 <= 1_000_000_000_000);
            }
        }
        v[i] = q as i64;
        i = i + 1;
    }
    proof {
        assert(coords(*v) =~= damped(v0, resistance as int));
    }
}

/// Advances `p` by velocity `v` over `dt` microseconds.
fn advance_position<const D: usize>(p: &mut [i64; D], v: &[i64; D], dt: i64)
    requires
        within(*old(p), POSITION_LIMIT as int),
        within(*v, VELOCITY_LIMIT as int),
        0 < dt <= FRAME_TIME_LIMIT,
    ensures
        within(*final(p), POSITION_LIMIT as int),
        coords(*final(p)) == advanced(coords(*old(p)), coords(*v), dt as int),
{
    let ghost p0 = coords(*p);
    let mut i: usize = 0;
    while i < D
        invariant
            i <= D,
            p0.len() == D,
            0 < dt <= FRAME_TIME_LIMIT,
            within(*v, VELOCITY_LIMIT as int),
            within(*p, POSITION_LIMIT as int),
            forall|j: int|
                0 <= j < i ==> #[trigger] p[j] == sat_pos(
                    p0[j] + div_trunc(v[j] * dt, MICROS_PER_SECOND as int),
                ),
            forall|j: int| i <= j < D ==> #[trigger] p[j] == p0[j],
        decreases D - i,
    {
        let x = v[i] as i128;
        assert(-1_000_000_000_000_000_000_000 <= x * dt <= 1_000_000_000_000_000_000_000) by (nonlinear_arith)
            requires
                -1_000_000_000_000 <= x <= 1_000_000_000_000,
                0 < dt <= 1_000_000_000,
        ;
        let step = div_trunc_i128(x * (dt as i128), MICROS_PER_SECOND as i128);
        proof {
            lemma_div_trunc_bound(x * dt, MICROS_PER_SECOND as int);
        }
        let np = saturate_position(p[i] as i128 + step);
        p[i] = np;
        i = i + 1;
    }
    proof {
        assert(coords(*p) =~= advanced(p0, coords(*v), dt as int));
    }
}

/// Integrates one body over one frame: the pull toward the pointer when one
/// is given, gravity on the vertical axis when enabled, damping by
/// `resistance`, the limit `max_speed` on the speed, and the position step
/// over the frame time (a non-positive frame time counts as the fallback).
pub fn integrate_body<const D: usize>(
    body: &mut Body<D>,
    pointer: Option<[i64; D]>,
    gravity: i64,
    gravity_on: bool,
    resistance: i64,
    max_speed: i64,
    frame_time: i64,
)
    requires
        old(body).wf(),
        match pointer {
            Some(p) => within(p, POSITION_LIMIT as int),
            None => true,
        },
        -VELOCITY_LIMIT <= gravity <= VELOCITY_LIMIT,
        0 <= resistance <= RATIO_ONE,
        0 <= max_speed <= VELOCITY_LIMIT,
        frame_time <= FRAME_TIME_LIMIT,
    ensures
        final(body).wf(),
        final(body).id == old(body).id,
        final(body).radius == old(body).radius,
        final(body).pressure == old(body).pressure,
        final(body).color == old(body).color,
        coords(final(body).velocity) == integrated_velocity(
            *old(body),
            pointer,
            gravity as int,
            gravity_on,
            resistance as int,
            max_speed as int,
            effective_frame_time(frame_time as int),
        ),
        coords(final(body).position) == advanced(
            coords(old(body).position),
            coords(final(body).velocity),
            effective_frame_time(frame_time as int),
        ),
        norm_sq(coords(final(body).velocity)) <= max_speed * max_speed,
{
    let dt = if frame_time <= 0 {
        FALLBACK_FRAME_TIME
    } else {
        frame_time
    };
    let mut v = body.velocity;
    match pointer {
        Some(p) => attract_velocity(&mut v, &body.position, &p, gravity, dt),
        None => {},
    }
    if gravity_on {
        apply_gravity(&mut v, gravity);
    }
    damp_velocity(&mut v, resistance);
    limit_speed(&mut v, max_speed);
    body.velocity = v;
    let mut p = body.position;
    advance_position(&mut p, &v, dt);
    body.position = p;
}

} // verus!
