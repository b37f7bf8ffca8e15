//! Bodies, and the narrow phase: the collision test and response for one pair,
//! and containment of one body in the domain.
use vstd::prelude::*;
use crate::arith::{
    clamp_i128, clamp_spec, div_trunc, div_trunc_i128, floor_sqrt,
    lemma_floor_sqrt_exists, sat_pos, sat_vel, saturate_position, saturate_velocity, sqrt_floor,
    POSITION_LIMIT, RATIO_ONE, VELOCITY_LIMIT,
};
use crate::vector::{
    distance_sq, dist_sq, dot, dot_prefix, lemma_component_sq_le_norm, lemma_dot_prefix_monotone,
    lemma_nonzero_component, lemma_norm_prefix_monotone, lemma_norm_prefix_nonneg, lemma_norm_update,
    lemma_scaled_norm, norm_sq, offset, within,
};
use vstd::arithmetic::div_mod::{
    lemma_basic_div, lemma_div_is_ordered, lemma_div_pos_is_pos,
};

verus! {

/// Largest radius a body may have.
pub const RADIUS_LIMIT: i64 = 1_000_000_000;

/// Overlaps smaller than this are taken as contact without penetration.
pub const MIN_OVERLAP: i64 = 1;

/// Numerator of the rational approximation 355/113 of pi.
pub const PI_NUMERATOR: i128 = 355;

/// Denominator of the rational approximation 355/113 of pi.
pub const PI_DENOMINATOR: i128 = 113;

/// A display color, one byte per channel.
#[derive(Clone, Copy, PartialEq, Eq, Structural, Debug)]
pub struct Color {
    pub r: u8,
    pub g: u8,
    pub b: u8,
    pub a: u8,
}

/// A circular or spherical body. Lengths are in thousandths of a pixel,
/// velocities in thousandths of a pixel per second, pressure in thousandths.
#[derive(Clone, Copy, Debug)]
pub struct Body<const D: usize> {
    pub id: usize,
    pub position: [i64; D],
    pub velocity: [i64; D],
    pub radius: i64,
    pub pressure: i64,
    pub color: Color,
}

impl<const D: usize> Body<D> {
    /// Two or three axes, a positive radius, a non-negative pressure, and
    /// components within the representable range.
    pub open spec fn wf(&self) -> bool {
        &&& 2 <= D <= 3
        &&& 0 < self.radius <= RADIUS_LIMIT
        &&& self.pressure >= 0
        &&& within(self.position, POSITION_LIMIT as int)
        &&& within(self.velocity, VELOCITY_LIMIT as int)
    }
}

/// Squared distance between the centers.
pub open spec fn separation_sq<const D: usize>(a: Body<D>, b: Body<D>) -> int {
    dist_sq(a.position, b.position)
}

/// Distance between the centers, rounded down.
pub open spec fn separation<const D: usize>(a: Body<D>, b: Body<D>) -> int {
    sqrt_floor(separation_sq(a, b))
}

/// Sum of the radii: the distance at which the two bodies touch.
pub open spec fn reach<const D: usize>(a: Body<D>, b: Body<D>) -> int {
    a.radius + b.radius
}

/// The pair has distinct centers and overlaps by at least the minimum:
/// `0 < |b - a| <= reach - MIN_OVERLAP`.
pub open spec fn in_contact<const D: usize>(a: Body<D>, b: Body<D>) -> bool {
    0 < separation_sq(a, b) <= (reach(a, b) - MIN_OVERLAP) * (reach(a, b) - MIN_OVERLAP)
}

/// Component `j` of the vector from `a`'s center to `b`'s.
pub open spec fn center_offset<const D: usize>(a: Body<D>, b: Body<D>, j: int) -> int {
    offset(a.position, b.position)[j]
}

/// `o * r / sqrt(ds)`, rounded toward zero: a component of the offset `o`
/// stretched so that the whole offset, of squared length `ds`, has length `r`.
pub open spec fn stretched(o: int, r: int, ds: int) -> int {
    if o >= 0 {
        sqrt_floor((o * r) * (o * r) / ds)
    } else {
        -sqrt_floor((o * r) * (o * r) / ds)
    }
}

/// The offset between the centers stretched to the sum of the radii, each
/// component rounded toward zero.
pub open spec fn stretched_offset<const D: usize>(a: Body<D>, b: Body<D>) -> Seq<int> {
    Seq::new(
        D as nat,
        |j: int| stretched(center_offset(a, b, j), reach(a, b), separation_sq(a, b)),
    )
}

/// Index of the first non-zero component of `u` at or after `j`.
pub open spec fn first_nonzero(u: Seq<int>, j: int) -> int
    decreases u.len() - j,
{
    if j >= u.len() || j < 0 {
        u.len() as int
    } else if u[j] != 0 {
        j
    } else {
        first_nonzero(u, j + 1)
    }
}

/// The offset between the centers after the correction: the stretched
/// offset, or, where rounding left every component unchanged, the offset
/// lengthened by one unit on its first non-zero axis.
pub open spec fn target_offset<const D: usize>(a: Body<D>, b: Body<D>) -> Seq<int> {
    let o = offset(a.position, b.position);
    let t = stretched_offset(a, b);
    if t == o {
        let m = first_nonzero(o, 0);
        o.update(m, o[m] + if o[m] > 0 {
            1int
        } else {
            -1int
        })
    } else {
        t
    }
}

/// How far the pair is pulled apart along axis `j`.
pub open spec fn shift<const D: usize>(a: Body<D>, b: Body<D>, j: int) -> int {
    target_offset(a, b)[j] - center_offset(a, b, j)
}

/// The part of the shift along axis `j` that `a` takes (half, rounded toward
/// zero); `b` takes the rest.
pub open spec fn shift_of_a<const D: usize>(a: Body<D>, b: Body<D>, j: int) -> int {
    div_trunc(shift(a, b, j), 2)
}

/// Relative velocity of `b` with respect to `a`, projected on the vector
/// between the centers (the closing speed scaled by the distance); positive
/// when the pair separates.
pub open spec fn closing<const D: usize>(a: Body<D>, b: Body<D>) -> int {
    dot(offset(a.velocity, b.velocity), offset(a.position, b.position))
}

/// Velocity change of `a` along axis `j`: the normal times the closing speed
/// times the bounce ratio, rounded toward zero.
pub open spec fn impulse<const D: usize>(a: Body<D>, b: Body<D>, bounce: int, j: int) -> int {
    div_trunc(
        center_offset(a, b, j) * closing(a, b) * bounce,
        separation_sq(a, b) * RATIO_ONE,
    )
}

/// Pressure of a body of radius `radius` in the contact: the impulse over the
/// body's area, limited to `[0, max_pressure]`.
pub open spec fn contact_pressure<const D: usize>(
    a: Body<D>,
    b: Body<D>,
    bounce: int,
    radius: int,
    max_pressure: int,
) -> int {
    clamp_spec(
        div_trunc(
            PI_DENOMINATOR * (-closing(a, b)) * bounce,
            PI_NUMERATOR * separation(a, b) * radius * radius,
        ),
        0,
        max_pressure,
    )
}

/// `(a2, b2)` is the outcome of resolving the pair `(a, b)`.
pub open spec fn resolved<const D: usize>(
    a: Body<D>,
    b: Body<D>,
    bounce: int,
    max_pressure: int,
    a2: Body<D>,
    b2: Body<D>,
) -> bool {
    &&& a2.id == a.id && a2.radius == a.radius && a2.color == a.color
    &&& b2.id == b.id && b2.radius == b.radius && b2.color == b.color
    &&& if !in_contact(a, b) {
        a2 == a && b2 == b
    } else {
        &&& forall|j: int|
            0 <= j < D ==> #[trigger] a2.position[j] == sat_pos(a.position[j] - shift_of_a(a, b, j))
                && b2.position[j] == sat_pos(b.position[j] + shift(a, b, j) - shift_of_a(a, b, j))
        &&& if closing(a, b) > 0 {
            a2.velocity == a.velocity && b2.velocity == b.velocity && a2.pressure == a.pressure
                && b2.pressure == b.pressure
        } else {
            &&& forall|j: int|
                0 <= j < D ==> #[trigger] a2.velocity[j] == sat_vel(
                    a.velocity[j] + impulse(a, b, bounce, j),
                ) && b2.velocity[j] == sat_vel(b.velocity[j] - impulse(a, b, bounce, j))
            &&& a2.pressure == contact_pressure(a, b, bounce, a.radius as int, max_pressure)
            &&& b2.pressure == contact_pressure(a, b, bounce, b.radius as int, max_pressure)
        }
    }
}

/// Whether the two bodies overlap: the distance between the centers is below
/// the sum of the radii.
pub fn is_colliding<const D: usize>(a: &Body<D>, b: &Body<D>) -> (r: bool)
    requires
        a.wf(),
        b.wf(),
    ensures
        r == (separation_sq(*a, *b) < (a.radius + b.radius) * (a.radius + b.radius)),
{
    let ds = distance_sq(&a.position, &b.position);
    let reach: u128 = (a.radius as u128) + (b.radius as u128);
    assert(reach * reach <= 4_000_000_000_000_000_000) by (nonlinear_arith)
        requires
            reach <= 2_000_000_000,
    ;
    ds < reach * reach
}

/// Component `j` of the stretched offset, computed exactly.
fn stretch_component<const D: usize>(
    off: i128,
    sum_r: i128,
    ds: u128,
    Ghost(a): Ghost<Body<D>>,
    Ghost(b): Ghost<Body<D>>,
    Ghost(j): Ghost<int>,
) -> (t: i128)
    requires
        a.wf(),
        b.wf(),
        in_contact(a, b),
        0 <= j < D,
        off == center_offset(a, b, j),
        sum_r == reach(a, b),
        ds == separation_sq(a, b),
        -2_000_000_000 <= off <= 2_000_000_000,
    ensures
        t == stretched_offset(a, b)[j],
        -2_000_000_000 <= t <= 2_000_000_000,
{
    proof {
        lemma_component_sq_le_norm(offset(a.position, b.position), D as int, j);
        assert(ds <= sum_r * sum_r) by (nonlinear_arith)
            requires
                ds <= (sum_r - 1) * (sum_r - 1),
                sum_r >= 2,
        ;
        lemma_stretched(off as int, sum_r as int, ds as int);
    }
    let mag: u128 = if off >= 0 {
        off as u128
    } else {
        (-off) as u128
    };
    assert(mag <= 2_000_000_000);
    assert(mag * sum_r <= 4_000_000_000_000_000_000) by (nonlinear_arith)
        requires
            mag <= 2_000_000_000,
            1 <= sum_r <= 2_000_000_000,
    ;
    let u: u128 = mag * (sum_r as u128);
    assert(u * u <= 16_000_000_000_000_000_000_000_000_000_000_000_000) by (nonlinear_arith)
        requires
            u == mag * sum_r,
            mag <= 2_000_000_000,
            1 <= sum_r <= 2_000_000_000,
    ;
    assert(u * u == (off * sum_r) * (off * sum_r)) by (nonlinear_arith)
        requires
            u == mag * sum_r,
            mag == off || mag == -off,
    ;
    let q = (u * u) / ds;
    assert(q <= 4_000_000_000_000_000_000) by (nonlinear_arith)
        requires
            q <= sum_r * sum_r,
            1 <= sum_r <= 2_000_000_000,
    ;
    let s = floor_sqrt(q);
    let ghost t = stretched(off as int, sum_r as int, ds as int);
    assert(-2_000_000_000 <= t <= 2_000_000_000) by (nonlinear_arith)
        requires
            t * t * ds <= off * off * (sum_r * sum_r),
            off * off <= ds,
            ds > 0,
            1 <= sum_r <= 2_000_000_000,
    ;
    if off >= 0 {
        s as i128
    } else {
        -(s as i128)
    }
}

proof fn lemma_first_nonzero(u: Seq<int>, j: int, m: int)
    requires
        0 <= j <= m < u.len(),
        u[m] != 0,
        forall|k: int| 0 <= k < m ==> #[trigger] u[k] == 0,
    ensures
        first_nonzero(u, j) == m,
    decreases m - j,
{
    if j < m {
        lemma_first_nonzero(u, j + 1, m);
    }
}

/// Resolves one candidate pair. Coincident centers, and pairs that overlap
/// by less than the minimum, are left alone. Otherwise the two bodies move
/// apart, each taking half of the shift, until their offset is the stretched
/// offset (`target_offset`): never farther apart than the sum of the radii,
/// and strictly farther apart than before; if they are approaching, each
/// receives the velocity change `normal * closing speed * bounce` (`a` along
/// it, `b` against it), and its pressure becomes the impulse over its area,
/// limited to `[0, max_pressure]`. Results saturate at the representable range.
pub fn resolve_collision<const D: usize>(
    a: &mut Body<D>,
    b: &mut Body<D>,
    bounce_amount: i64,
    max_pressure: i64,
)
    requires
        old(a).wf(),
        old(b).wf(),
        0 <= bounce_amount <= RATIO_ONE,
        max_pressure >= 0,
    ensures
        final(a).wf(),
        final(b).wf(),
        resolved(
            *old(a),
            *old(b),
            bounce_amount as int,
            max_pressure as int,
            *final(a),
            *final(b),
        ),
{
    let ds = distance_sq(&a.position, &b.position);
    if ds == 0 {
        return;
    }
    let sum_r: i128 = a.radius as i128 + b.radius as i128;
    let reach_less: i128 = sum_r - MIN_OVERLAP as i128;
    assert(1 <= reach_less * reach_less <= 4_000_000_000_000_000_000) by (nonlinear_arith)
        requires
            1 <= reach_less <= 2_000_000_000,
    ;
    if ds > (reach_less * reach_less) as u128 {
        return;
    }
    let ghost a0 = *a;
    let ghost b0 = *b;
    proof {
        lemma_contact_offsets_bounded(a0, b0);
    }
    let d = floor_sqrt(ds);
    assert(1 <= d < 2_000_000_000) by (nonlinear_arith)
        requires
            d * d <= ds,
            ds < (d + 1) * (d + 1),
            ds >= 1,
            ds <= reach_less * reach_less,
            1 <= reach_less < 2_000_000_000,
            d >= 0,
    ;
    let mut closing_raw: i128 = 0;
    let mut i: usize = 0;
    while i < D
        invariant
            i <= D,
            *a == a0,
            *b == b0,
            a0.wf(),
            b0.wf(),
            forall|j: int|
                0 <= j < D ==> -2_000_000_000 <= #[trigger] center_offset(a0, b0, j)
                    <= 2_000_000_000,
            closing_raw == dot_prefix(
                offset(a0.velocity, b0.velocity),
                offset(a0.position, b0.position),
                i as int,
            ),
            -(i * 4_000_000_000_000_000_000_000) <= closing_raw <= i
                * 4_000_000_000_000_000_000_000,
        decreases D - i,
    {
        let rel: i128 = b.velocity[i] as i128 - a.velocity[i] as i128;
        let off: i128 = b.position[i] as i128 - a.position[i] as i128;
        assert(center_offset(a0, b0, i as int) == off);
        assert(-4_000_000_000_000_000_000_000 <= rel * off <= 4_000_000_000_000_000_000_000)
            by (nonlinear_arith)
            requires
                -2_000_000_000_000 <= rel <= 2_000_000_000_000,
                -2_000_000_000 <= off <= 2_000_000_000,
        ;
        closing_raw = closing_raw + rel * off;
        i = i + 1;
    }
    assert(closing_raw == closing(a0, b0));
    let mut same = true;
    let mut first: usize = D;
    let mut i: usize = 0;
    while i < D
        invariant
            i <= D,
            *a == a0,
            *b == b0,
            a0.wf(),
            b0.wf(),
            in_contact(a0, b0),
            ds == separation_sq(a0, b0),
            sum_r == reach(a0, b0),
            forall|j: int|
                0 <= j < D ==> -2_000_000_000 <= #[trigger] center_offset(a0, b0, j)
                    <= 2_000_000_000,
            same == (forall|j: int|
                0 <= j < i ==> #[trigger] stretched_offset(a0, b0)[j] == center_offset(a0, b0, j)),
            first == D ==> forall|j: int| 0 <= j < i ==> #[trigger] center_offset(a0, b0, j) == 0,
            first < D ==> first < i && center_offset(a0, b0, first as int) != 0 && forall|j: int|
                0 <= j < first ==> #[trigger] center_offset(a0, b0, j) == 0,
            first <= D,
        decreases D - i,
    {
        let off: i128 = b.position[i] as i128 - a.position[i] as i128;
        assert(center_offset(a0, b0, i as int) == off);
        let t = stretch_component::<D>(off, sum_r, ds, Ghost(a0), Ghost(b0), Ghost(i as int));
        if t != off {
            same = false;
        }
        if off != 0 && first == D {
            first = i;
        }
        i = i + 1;
    }
    let ghost o0 = offset(a0.position, b0.position);
    proof {
        if same {
            assert(stretched_offset(a0, b0) =~= o0);
        } else {
            let j = choose|j: int| 0 <= j < D && #[trigger] stretched_offset(a0, b0)[j] != center_offset(a0, b0, j);
            assert(stretched_offset(a0, b0)[j] != o0[j]);
        }
        lemma_nonzero_component(o0, D as int);
        let j = choose|j: int| 0 <= j < D && #[trigger] o0[j] != 0;
        assert(center_offset(a0, b0, j) != 0);
        assert(first < D);
        assert forall|k: int| 0 <= k < first implies #[trigger] o0[k] == 0 by {
            assert(center_offset(a0, b0, k) == 0);
        }
        lemma_first_nonzero(o0, 0, first as int);
    }
    let scale: i128 = (ds as i128) * 1_000_000;
    let approaching = closing_raw <= 0;
    let bounce = bounce_amount as i128;
    let mut i: usize = 0;
    while i < D
        invariant
            i <= D,
            a0.wf(),
            b0.wf(),
            in_contact(a0, b0),
            ds == separation_sq(a0, b0),
            d == separation(a0, b0),
            1 <= d < 2_000_000_000,
            sum_r == reach(a0, b0),
            same == (stretched_offset(a0, b0) == offset(a0.position, b0.position)),
            first < D,
            first == first_nonzero(offset(a0.position, b0.position), 0),
            0 < ds < 4_000_000_000_000_000_000,
            0 <= bounce <= RATIO_ONE,
            scale == ds * RATIO_ONE,
            closing_raw == closing(a0, b0),
            approaching == (closing_raw <= 0),
            -12_000_000_000_000_000_000_000 <= closing_raw <= 12_000_000_000_000_000_000_000,
            forall|j: int|
                0 <= j < D ==> -2_000_000_000 <= #[trigger] center_offset(a0, b0, j)
                    <= 2_000_000_000,
            a.id == a0.id,
            a.radius == a0.radius,
            a.color == a0.color,
            a.pressure == a0.pressure,
            b.id == b0.id,
            b.radius == b0.radius,
            b.color == b0.color,
            b.pressure == b0.pressure,
            within(a.position, POSITION_LIMIT as int),
            within(b.position, POSITION_LIMIT as int),
            within(a.velocity, VELOCITY_LIMIT as int),
            within(b.velocity, VELOCITY_LIMIT as int),
            forall|j: int|
                0 <= j < i ==> #[trigger] a.position[j] == sat_pos(
                    a0.position[j] - shift_of_a(a0, b0, j),
                ),
            forall|j: int|
                0 <= j < i ==> #[trigger] b.position[j] == sat_pos(
                    b0.position[j] + shift(a0, b0, j) - shift_of_a(a0, b0, j),
                ),
            forall|j: int| i <= j < D ==> #[trigger] a.position[j] == a0.position[j],
            forall|j: int| i <= j < D ==> #[trigger] b.position[j] == b0.position[j],
            forall|j: int|
                0 <= j < i ==> #[trigger] a.velocity[j] == (if approaching {
                    sat_vel(a0.velocity[j] + impulse(a0, b0, bounce as int, j))
                } else {
                    a0.velocity[j] as int
                }),
            forall|j: int|
                0 <= j < i ==> #[trigger] b.velocity[j] == (if approaching {
                    sat_vel(b0.velocity[j] - impulse(a0, b0, bounce as int, j))
                } else {
                    b0.velocity[j] as int
                }),
            forall|j: int| i <= j < D ==> #[trigger] a.velocity[j] == a0.velocity[j],
            forall|j: int| i <= j < D ==> #[trigger] b.velocity[j] == b0.velocity[j],
        decreases D - i,
    {
        let off: i128 = b.position[i] as i128 - a.position[i] as i128;
        assert(center_offset(a0, b0, i as int) == off);
        let t = stretch_component::<D>(off, sum_r, ds, Ghost(a0), Ghost(b0), Ghost(i as int));
        let target: i128 = if same && i == first {
            if off > 0 {
                off + 1
            } else {
                off - 1
            }
        } else {
            t
        };
        assert(target == target_offset(a0, b0)[i as int]);
        let sh: i128 = target - off;
        let sa = div_trunc_i128(sh, 2);
        let pa = saturate_position(a.position[i] as i128 - sa);
        let pb = saturate_position(b.position[i] as i128 + sh - sa);
        a.position[i] = pa;
        b.position[i] = pb;
        if approaching {
            assert(-24_000_000_000_000_000_000_000_000_000_000 <= off * closing_raw
                <= 24_000_000_000_000_000_000_000_000_000_000) by (nonlinear_arith)
                requires
                    -2_000_000_000 <= off <= 2_000_000_000,
                    -12_000_000_000_000_000_000_000 <= closing_raw
                        <= 12_000_000_000_000_000_000_000,
            ;
            let t: i128 = off * closing_raw;
            assert(-24_000_000_000_000_000_000_000_000_000_000_000_000 <= t * bounce
                <= 24_000_000_000_000_000_000_000_000_000_000_000_000) by (nonlinear_arith)
                requires
                    -24_000_000_000_000_000_000_000_000_000_000 <= t
                        <= 24_000_000_000_000_000_000_000_000_000_000,
                    0 <= bounce <= 1_000_000,
            ;
            let delta = div_trunc_i128(t * bounce, scale);
            assert(delta == impulse(a0, b0, bounce as int, i as int));
            let va = saturate_velocity(a.velocity[i] as i128 + delta);
            let vb = saturate_velocity(b.velocity[i] as i128 - delta);
            a.velocity[i] = va;
            b.velocity[i] = vb;
        }
        i = i + 1;
    }
    if approaching {
        assert(0 <= PI_DENOMINATOR * (-closing_raw) * bounce <= 1_356_000_000_000_000_000_000_000_000_000)
            by (nonlinear_arith)
            requires
                -12_000_000_000_000_000_000_000 <= closing_raw <= 0,
                0 <= bounce <= 1_000_000,
        ;
        let num: i128 = PI_DENOMINATOR * (-closing_raw) * bounce;
        let ra = a.radius as i128;
        let rb = b.radius as i128;
        assert(1 <= PI_NUMERATOR * (d as i128) * ra <= 710_000_000_000_000_000_000
            && PI_NUMERATOR * (d as i128) * ra * ra <= 710_000_000_000_000_000_000_000_000_000
            && 1 <= PI_NUMERATOR * (d as i128) * ra * ra) by (nonlinear_arith)
            requires
                1 <= d < 2_000_000_000,
                1 <= ra <= 1_000_000_000,
        ;
        assert(1 <= PI_NUMERATOR * (d as i128) * rb <= 710_000_000_000_000_000_000
            && PI_NUMERATOR * (d as i128) * rb * rb <= 710_000_000_000_000_000_000_000_000_000
            && 1 <= PI_NUMERATOR * (d as i128) * rb * rb) by (nonlinear_arith)
            requires
                1 <= d < 2_000_000_000,
                1 <= rb <= 1_000_000_000,
        ;
        let qa = div_trunc_i128(num, PI_NUMERATOR * (d as i128) * ra * ra);
        let qb = div_trunc_i128(num, PI_NUMERATOR * (d as i128) * rb * rb);
        a.pressure = clamp_i128(qa, 0, max_pressure as i128) as i64;
        b.pressure = clamp_i128(qb, 0, max_pressure as i128) as i64;
    } else {
        proof {
            broadcast use vstd::array::axiom_array_ext_equal;

            assert(a.velocity@ =~= a0.velocity@);
            assert(b.velocity@ =~= b0.velocity@);
            assert(a.velocity == a0.velocity);
            assert(b.velocity == b0.velocity);
        }
    }
}

/// In a contact, every component of the vector between the centers is
/// smaller in magnitude than the largest possible sum of radii.
proof fn lemma_contact_offsets_bounded<const D: usize>(a: Body<D>, b: Body<D>)
    requires
        a.wf(),
        b.wf(),
        in_contact(a, b),
    ensures
        separation_sq(a, b) < 4_000_000_000_000_000_000,
        forall|j: int|
            0 <= j < D ==> -2_000_000_000 <= #[trigger] center_offset(a, b, j) <= 2_000_000_000,
{
    let ds = separation_sq(a, b);
    let u = offset(a.position, b.position);
    let r = reach(a, b) - MIN_OVERLAP;
    assert(ds < 4_000_000_000_000_000_000) by (nonlinear_arith)
        requires
            ds <= r * r,
            1 <= r < 2_000_000_000,
    ;
    assert forall|j: int| 0 <= j < D implies -2_000_000_000 <= #[trigger] center_offset(a, b, j)
        <= 2_000_000_000 by {
        lemma_component_sq_le_norm(u, D as int, j);
        let x = u[j];
        assert(-2_000_000_000 <= x <= 2_000_000_000) by (nonlinear_arith)
            requires
                x * x < 4_000_000_000_000_000_000,
        ;
    }
}

/// A stretched component keeps the sign of the offset component, is at
/// least as large in magnitude, and does not overshoot: `t^2 * ds <= o^2 * r^2`.
proof fn lemma_stretched(o: int, r: int, ds: int)
    requires
        0 < ds <= r * r,
        o * o <= ds,
        r >= 0,
    ensures
        ({
            let t = stretched(o, r, ds);
            &&& t * t * ds <= o * o * (r * r)
            &&& o > 0 ==> t >= o
            &&& o < 0 ==> t <= o
            &&& o == 0 ==> t == 0
            &&& 0 <= (o * r) * (o * r) / ds <= r * r
        }),
{
    let x = (o * r) * (o * r);
    let q = x / ds;
    assert(x >= 0) by (nonlinear_arith)
        requires
            x == (o * r) * (o * r),
    ;
    lemma_div_pos_is_pos(x, ds);
    lemma_floor_sqrt_exists(q);
    let s = sqrt_floor(q);
    vstd::arithmetic::div_mod::lemma_fundamental_div_mod(x, ds);
    assert(q * ds <= x) by (nonlinear_arith)
        requires
            x == ds * q + x % ds,
            0 <= x % ds,
    ;
    assert(s * s * ds <= x) by (nonlinear_arith)
        requires
            s * s <= q,
            q * ds <= x,
            ds > 0,
    ;
    assert(x == o * o * (r * r)) by (nonlinear_arith)
        requires
            x == (o * r) * (o * r),
    ;
    assert(o * o * ds <= x) by (nonlinear_arith)
        requires
            ds <= r * r,
            x == o * o * (r * r),
    ;
    lemma_div_is_ordered(o * o * ds, x, ds);
    vstd::arithmetic::div_mod::lemma_div_multiples_vanish(o * o, ds);
    assert(o * o * ds == ds * (o * o)) by (nonlinear_arith);
    assert(o * o <= q);
    if o > 0 {
        assert(s >= o) by (nonlinear_arith)
            requires
                o * o <= q,
                q < (s + 1) * (s + 1),
                s >= 0,
                o > 0,
        ;
    } else if o < 0 {
        assert(s >= -o) by (nonlinear_arith)
            requires
                o * o <= q,
                q < (s + 1) * (s + 1),
                s >= 0,
                o < 0,
        ;
    } else {
        assert(x == 0);
        lemma_basic_div(0, ds);
        assert(s * s <= 0);
        assert(s == 0) by (nonlinear_arith)
            requires
                s * s <= 0,
                s >= 0,
        ;
    }
    assert(x <= r * r * ds) by (nonlinear_arith)
        requires
            o * o <= ds,
            x == o * o * (r * r),
            r >= 0,
    ;
    lemma_div_is_ordered(x, r * r * ds, ds);
    vstd::arithmetic::div_mod::lemma_div_multiples_vanish(r * r, ds);
    assert(r * r * ds == ds * (r * r)) by (nonlinear_arith);
    let t = stretched(o, r, ds);
    assert(t * t == s * s) by (nonlinear_arith)
        requires
            t == s || t == -s,
    ;
}

/// Resolution never makes an approaching pair approach faster: the relative
/// velocity after the call, projected on the vector between the centers as
/// they were before the call, is at least what it was before.
pub proof fn lemma_separation_monotone<const D: usize>(
    a: Body<D>,
    b: Body<D>,
    bounce: int,
    max_pressure: int,
    a2: Body<D>,
    b2: Body<D>,
)
    requires
        a.wf(),
        b.wf(),
        0 <= bounce,
        closing(a, b) <= 0,
        resolved(a, b, bounce, max_pressure, a2, b2),
    ensures
        dot(offset(a2.velocity, b2.velocity), offset(a.position, b.position)) >= closing(a, b),
{
    let u = offset(a.velocity, b.velocity);
    let u2 = offset(a2.velocity, b2.velocity);
    let v = offset(a.position, b.position);
    if in_contact(a, b) {
        let c = closing(a, b);
        let m = separation_sq(a, b) * RATIO_ONE;
        assert forall|j: int| 0 <= j < D implies u[j] * v[j] <= #[trigger] (u2[j] * v[j]) by {
            let off = v[j];
            let n = off * c * bounce;
            let dv = impulse(a, b, bounce, j);
            assert(a2.velocity[j] == sat_vel(a.velocity[j] + dv));
            assert(b2.velocity[j] == sat_vel(b.velocity[j] - dv));
            if off > 0 {
                assert(n <= 0) by (nonlinear_arith)
                    requires
                        off > 0,
                        c <= 0,
                        bounce >= 0,
                        n == off * c * bounce,
                ;
                lemma_div_pos_is_pos(-n, m);
                assert(dv <= 0);
                assert(u2[j] >= u[j]);
                assert(u[j] * off <= u2[j] * off) by (nonlinear_arith)
                    requires
                        u2[j] >= u[j],
                        off > 0,
                ;
            } else if off < 0 {
                assert(n >= 0) by (nonlinear_arith)
                    requires
                        off < 0,
                        c <= 0,
                        bounce >= 0,
                        n == off * c * bounce,
                ;
                lemma_div_pos_is_pos(n, m);
                assert(dv >= 0);
                assert(u2[j] <= u[j]);
                assert(u[j] * off <= u2[j] * off) by (nonlinear_arith)
                    requires
                        u2[j] <= u[j],
                        off < 0,
                ;
            } else {
                assert(u[j] * off == 0 && u2[j] * off == 0) by (nonlinear_arith)
                    requires
                        off == 0,
                ;
            }
        }
        lemma_dot_prefix_monotone(u, u2, v, D as int);
    } else {
        assert(u2 =~= u);
    }
}

/// Resolving a pair whose centers are distinct and which overlaps by at least
/// the minimum moves the centers strictly apart, and never farther apart than
/// the sum of the radii: `|b - a| < |b2 - a2| <= reach`, so the distance moves
/// toward the sum of the radii. (Bodies within a few radii of the
/// representable edge are left out: there the positions saturate.)
pub proof fn lemma_overlap_reduction<const D: usize>(
    a: Body<D>,
    b: Body<D>,
    bounce: int,
    max_pressure: int,
    a2: Body<D>,
    b2: Body<D>,
)
    requires
        a.wf(),
        b.wf(),
        in_contact(a, b),
        resolved(a, b, bounce, max_pressure, a2, b2),
        within(a.position, POSITION_LIMIT - 3 * RADIUS_LIMIT),
        within(b.position, POSITION_LIMIT - 3 * RADIUS_LIMIT),
    ensures
        separation_sq(a, b) < separation_sq(a2, b2) <= reach(a, b) * reach(a, b),
{
    let o = offset(a.position, b.position);
    let t = stretched_offset(a, b);
    let tg = target_offset(a, b);
    let ds = separation_sq(a, b);
    let r = reach(a, b);
    lemma_contact_offsets_bounded(a, b);
    assert(ds <= r * r) by (nonlinear_arith)
        requires
            ds <= (r - 1) * (r - 1),
            r >= 2,
    ;
    assert forall|j: int| 0 <= j < D implies {
        &&& #[trigger] t[j] * t[j] * ds <= o[j] * o[j] * (r * r)
        &&& o[j] > 0 ==> t[j] >= o[j]
        &&& o[j] < 0 ==> t[j] <= o[j]
        &&& o[j] == 0 ==> t[j] == 0
        &&& o[j] * o[j] <= ds
    } by {
        lemma_component_sq_le_norm(o, D as int, j);
        lemma_stretched(o[j], r, ds);
    }
    lemma_nonzero_component(o, D as int);
    let j0 = choose|j: int| 0 <= j < D && #[trigger] o[j] != 0;
    lemma_first_nonzero_exists(o, 0, j0);
    let m = first_nonzero(o, 0);
    assert forall|j: int| 0 <= j < D implies -2_000_000_001 <= #[trigger] tg[j] <= 2_000_000_001
        && (o[j] >= 0 ==> tg[j] >= o[j]) && (o[j] <= 0 ==> tg[j] <= o[j]) by {
        assert(center_offset(a, b, j) == o[j]);
        if t == o {
            if j != m {
                assert(tg[j] == o[j]);
            }
        } else {
            assert(tg[j] == t[j]);
        }
        let x = t[j];
        assert(-2_000_000_000 <= x <= 2_000_000_000) by (nonlinear_arith)
            requires
                x * x * ds <= o[j] * o[j] * (r * r),
                o[j] * o[j] <= ds,
                ds > 0,
                2 <= r <= 2_000_000_000,
        ;
    }
    assert(offset(a2.position, b2.position) =~= tg) by {
        assert forall|j: int| 0 <= j < D implies #[trigger] offset(a2.position, b2.position)[j]
            == tg[j] by {
            let sh = shift(a, b, j);
            assert(a2.position[j] == sat_pos(a.position[j] - shift_of_a(a, b, j)));
            assert(-2_000_000_001 <= sh <= 2_000_000_001);
            assert(-2_000_000_001 <= shift_of_a(a, b, j) <= 2_000_000_001);
        }
    }
    if t == o {
        let x = o[m] + if o[m] > 0 {
            1int
        } else {
            -1int
        };
        lemma_norm_update(o, m, x, D as int);
        assert(o[m] * o[m] <= ds);
        assert(ds < ds - o[m] * o[m] + x * x <= r * r) by (nonlinear_arith)
            requires
                o[m] != 0,
                x == o[m] + 1 || x == o[m] - 1,
                o[m] > 0 ==> x == o[m] + 1,
                o[m] < 0 ==> x == o[m] - 1,
                o[m] * o[m] <= ds,
                ds <= (r - 1) * (r - 1),
                r >= 2,
        ;
    } else {
        assert forall|j: int| 0 <= j < D implies o[j] * o[j] <= #[trigger] (t[j] * t[j]) by {
            assert(o[j] > 0 ==> t[j] >= o[j]);
            assert(o[j] * o[j] <= t[j] * t[j]) by (nonlinear_arith)
                requires
                    o[j] > 0 ==> t[j] >= o[j],
                    o[j] < 0 ==> t[j] <= o[j],
                    o[j] == 0 ==> t[j] == 0,
            ;
        }
        assert(exists|j: int| 0 <= j < D && t[j] != o[j]) by {
            if forall|j: int| 0 <= j < D ==> t[j] == o[j] {
                assert(t =~= o);
            }
        }
        let j = choose|j: int| 0 <= j < D && t[j] != o[j];
        assert(o[j] * o[j] < t[j] * t[j]) by (nonlinear_arith)
            requires
                o[j] > 0 ==> t[j] >= o[j],
                o[j] < 0 ==> t[j] <= o[j],
                o[j] == 0 ==> t[j] == 0,
                t[j] != o[j],
        ;
        lemma_norm_prefix_monotone(o, t, D as int);
        lemma_scaled_norm(t, o, D as int, ds, r * r);
        lemma_norm_prefix_nonneg(t, D as int);
        assert(norm_sq(t) <= r * r) by (nonlinear_arith)
            requires
                norm_sq(t) * ds <= ds * (r * r),
                ds > 0,
        ;
    }
}

proof fn lemma_first_nonzero_exists(u: Seq<int>, j: int, k: int)
    requires
        0 <= j <= k < u.len(),
        u[k] != 0,
    ensures
        j <= first_nonzero(u, j) <= k,
        u[first_nonzero(u, j)] != 0,
    decreases k - j,
{
    if u[j] == 0 {
        lemma_first_nonzero_exists(u, j + 1, k);
    }
}

/// After a resolution both pressures lie in `[0, max_pressure]`, given that
/// they did before.
pub proof fn lemma_pressure_bounded<const D: usize>(
    a: Body<D>,
    b: Body<D>,
    bounce: int,
    max_pressure: int,
    a2: Body<D>,
    b2: Body<D>,
)
    requires
        0 <= a.pressure <= max_pressure,
        0 <= b.pressure <= max_pressure,
        resolved(a, b, bounce, max_pressure, a2, b2),
    ensures
        0 <= a2.pressure <= max_pressure,
        0 <= b2.pressure <= max_pressure,
{
}

/// `(a2, b2)` is the outcome of handling `(a, b)` as a candidate pair: resolved
/// if they overlap, otherwise unchanged but for both pressures set to zero.
pub open spec fn candidate_outcome<const D: usize>(
    a: Body<D>,
    b: Body<D>,
    bounce: int,
    max_pressure: int,
    a2: Body<D>,
    b2: Body<D>,
) -> bool {
    if separation_sq(a, b) < reach(a, b) * reach(a, b) {
        resolved(a, b, bounce, max_pressure, a2, b2)
    } else {
        a2 == (Body { pressure: 0, ..a }) && b2 == (Body { pressure: 0, ..b })
    }
}

/// `b2` is `b` kept inside the domain `[0, extent]` by `resolve_boundaries`.
pub open spec fn contained<const D: usize>(b: Body<D>, extent: [i64; D], bounce: int, b2: Body<D>) -> bool {
    &&& b2.id == b.id && b2.radius == b.radius && b2.pressure == b.pressure && b2.color == b.color
    &&& forall|j: int|
        0 <= j < D ==> #[trigger] b2.position[j] == contained_position(
            b.position[j] as int,
            b.radius as int,
            extent[j] as int,
        ) && b2.velocity[j] == contained_velocity(
            b.position[j] as int,
            b.velocity[j] as int,
            b.radius as int,
            extent[j] as int,
            bounce,
        )
}

/// Handles one candidate pair of a pass: an overlapping pair is resolved;
/// otherwise both pressures drop to zero, since pressure reflects only the
/// contacts of the current pass.
pub fn resolve_candidate_pair<const D: usize>(
    a: &mut Body<D>,
    b: &mut Body<D>,
    bounce_amount: i64,
    max_pressure: i64,
)
    requires
        old(a).wf(),
        old(b).wf(),
        0 <= bounce_amount <= RATIO_ONE,
        max_pressure >= 0,
    ensures
        final(a).wf(),
        final(b).wf(),
        candidate_outcome(
            *old(a),
            *old(b),
            bounce_amount as int,
            max_pressure as int,
            *final(a),
            *final(b),
        ),
        0 <= old(a).pressure <= max_pressure ==> 0 <= final(a).pressure <= max_pressure,
        0 <= old(b).pressure <= max_pressure ==> 0 <= final(b).pressure <= max_pressure,
{
    if is_colliding(a, b) {
        let ghost a0 = *a;
        let ghost b0 = *b;
        resolve_collision(a, b, bounce_amount, max_pressure);
        proof {
            if 0 <= a0.pressure <= max_pressure && 0 <= b0.pressure <= max_pressure {
                lemma_pressure_bounded(a0, b0, bounce_amount as int, max_pressure as int, *a, *b);
            }
        }
    } else {
        a.pressure = 0;
        b.pressure = 0;
    }
}

/// Position along one axis after containment in `[0, extent]`.
pub open spec fn contained_position(p: int, radius: int, extent: int) -> int {
    if p - radius < 0 {
        radius
    } else if p + radius > extent {
        extent - radius
    } else {
        p
    }
}

/// Velocity along one axis after containment: reversed and damped by the
/// bounce ratio when it points further out of the domain.
pub open spec fn contained_velocity(p: int, v: int, radius: int, extent: int, bounce: int) -> int {
    if p - radius < 0 {
        if v < 0 {
            div_trunc(-v * bounce, RATIO_ONE as int)
        } else {
            v
        }
    } else if p + radius > extent {
        if v > 0 {
            div_trunc(-v * bounce, RATIO_ONE as int)
        } else {
            v
        }
    } else {
        v
    }
}

/// `v` reversed and scaled by the ratio `bounce`, rounded toward zero.
fn reverse_damped(v: i64, bounce: i64) -> (r: i64)
    requires
        -VELOCITY_LIMIT <= v <= VELOCITY_LIMIT,
        0 <= bounce <= RATIO_ONE,
    ensures
        r == div_trunc(-v * bounce, RATIO_ONE as int),
        -VELOCITY_LIMIT <= r <= VELOCITY_LIMIT,
{
    let w = v as i128;
    let b = bounce as i128;
    assert(-1_000_000_000_000_000_000 <= -w * b <= 1_000_000_000_000_000_000) by (nonlinear_arith)
        requires
            -1_000_000_000_000 <= w <= 1_000_000_000_000,
            0 <= b <= 1_000_000,
    ;
    let q = div_trunc_i128(-w * b, RATIO_ONE as i128);
    let ghost m: int = -w * b;
    assert(-1_000_000_000_000 <= q <= 1_000_000_000_000) by {
        if m >= 0 {
            assert(m / 1_000_000 <= 1_000_000_000_000);
        } else {
            assert((-m) / 1_000_000 <= 1_000_000_000_000);
        }
    }
    q as i64
}

/// Extents of a domain whose every axis is positive and representable.
pub open spec fn valid_extent<const D: usize>(extent: [i64; D]) -> bool {
    forall|j: int| 0 <= j < D ==> 0 < #[trigger] extent[j] <= POSITION_LIMIT
}

/// Keeps a body inside the domain `[0, extent]` on every axis: a body that
/// crosses an edge is put back against it, and its velocity along that axis,
/// if it points outward, is reversed and damped by `bounce_amount`.
pub fn resolve_boundaries<const D: usize>(body: &mut Body<D>, extent: &[i64; D], bounce_amount: i64)
    requires
        old(body).wf(),
        valid_extent(*extent),
        0 <= bounce_amount <= RATIO_ONE,
    ensures
        final(body).wf(),
        contained(*old(body), *extent, bounce_amount as int, *final(body)),
        forall|j: int|
            0 <= j < D && 2 * old(body).radius <= extent[j] ==> old(body).radius
                <= #[trigger] final(body).position[j] <= extent[j] - old(body).radius,
{
    let ghost b0 = *body;
    let r = body.radius;
    let mut i: usize = 0;
    while i < D
        invariant
            i <= D,
            b0.wf(),
            valid_extent(*extent),
            0 <= bounce_amount <= RATIO_ONE,
            r == b0.radius,
            body.id == b0.id,
            body.radius == b0.radius,
            body.pressure == b0.pressure,
            body.color == b0.color,
            within(body.position, POSITION_LIMIT as int),
            within(body.velocity, VELOCITY_LIMIT as int),
            forall|j: int|
                0 <= j < i ==> #[trigger] body.position[j] == contained_position(
                    b0.position[j] as int,
                    r as int,
                    extent[j] as int,
                ),
            forall|j: int|
                0 <= j < i ==> #[trigger] body.velocity[j] == contained_velocity(
                    b0.position[j] as int,
                    b0.velocity[j] as int,
                    r as int,
                    extent[j] as int,
                    bounce_amount as int,
                ),
            forall|j: int| i <= j < D ==> #[trigger] body.position[j] == b0.position[j],
            forall|j: int| i <= j < D ==> #[trigger] body.velocity[j] == b0.velocity[j],
        decreases D - i,
    {
        let p = body.position[i];
        let v = body.velocity[i];
        let e = extent[i];
        if p - r < 0 {
            body.position[i] = r;
            if v < 0 {
                body.velocity[i] = reverse_damped(v, bounce_amount);
            }
        } else if p + r > e {
            body.position[i] = e - r;
            if v > 0 {
                body.velocity[i] = reverse_damped(v, bounce_amount);
            }
        }
        i = i + 1;
    }
}

} // verus!
