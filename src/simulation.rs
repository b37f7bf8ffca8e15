//! The per-frame loop: rebuild the grid, run the resolution passes,
//! integrate, adapt the number of passes, and apply spawn and removal
//! requests.
use vstd::prelude::*;
use crate::arith::{clamp_spec, POSITION_LIMIT, RATIO_ONE, VELOCITY_LIMIT};
use crate::body::{
    candidate_outcome, contained, resolve_boundaries, resolve_candidate_pair, valid_extent, Body,
    Color, RADIUS_LIMIT,
};
use crate::controller::{
    adjust_sim_steps, average_above, average_below, body_speed, get_color_from_pressure,
    get_color_from_vel, next_mode, requested_steps, shade, speed_of, DisplayMode, State,
    StepRequest, MAX_SIM_STEPS, MIN_SIM_STEPS,
};
use crate::fps_counter::SmoothedFps;
use crate::integrate::{
    advanced, effective_frame_time, integrate_body, integrated_velocity, FRAME_TIME_LIMIT,
};
use crate::spatial_hash::{cell_of, inserted, is_nearby, SpatialHash};
use crate::vector::{coords, dist_sq, distance_sq, within};

verus! {

/// Largest magnitude of a randomly drawn velocity component: 100 pixels per
/// second.
pub const SPAWN_SPEED: i64 = 100_000;

/// Margin added to a body diameter to get the grid's cell edge: 2 pixels.
pub const CELL_MARGIN: i64 = 2_000;

/// Relies on `macroquad::rand::gen_range` (quad-rand) for `i64`: it draws a
/// fraction `f` in `[0, 1)` and returns `low + (high - low) * f` in `f64`,
/// truncated. With both bounds exactly representable in `f64` the result lies
/// in `[low, high]`.
#[verifier::external_body]
fn random_between(low: i64, high: i64) -> (r: i64)
    requires
        -0x10_0000_0000_0000 <= low <= high <= 0x10_0000_0000_0000,
    ensures
        low <= r <= high,
{
    macroquad::rand::gen_range::<i64>(low, high)
}

/// Parameters of a run. Lengths are in thousandths of a pixel, speeds in
/// thousandths of a pixel per second, ratios in millionths, pressures in
/// thousandths.
#[derive(Clone, Copy, Debug)]
pub struct SimConfig<const D: usize> {
    pub body_count: usize,
    pub body_radius: i64,
    pub gravity: i64,
    pub resistance: i64,
    pub bounce_amount: i64,
    pub max_speed: i64,
    pub max_pressure: i64,
    pub extent: [i64; D],
    pub sim_steps: i32,
    pub auto_sim_steps: bool,
    pub target_fps: i32,
    pub fps_boundary: i32,
    pub delete_dist: i64,
}

impl<const D: usize> SimConfig<D> {
    pub open spec fn wf(&self) -> bool {
        &&& 2 <= D <= 3
        &&& 0 < self.body_radius <= RADIUS_LIMIT
        &&& -VELOCITY_LIMIT <= self.gravity <= VELOCITY_LIMIT
        &&& 0 <= self.resistance <= RATIO_ONE
        &&& 0 <= self.bounce_amount <= RATIO_ONE
        &&& 0 <= self.max_speed <= VELOCITY_LIMIT
        &&& 0 <= self.max_pressure
        &&& valid_extent(self.extent)
        &&& forall|j: int| 0 <= j < D ==> 2 * self.body_radius <= #[trigger] self.extent[j]
        &&& 0 <= self.delete_dist <= POSITION_LIMIT
    }

    /// Edge of a grid cell: a body diameter plus a margin.
    pub open spec fn cell_size(&self) -> int {
        2 * self.body_radius + CELL_MARGIN
    }
}

/// The simulation state threaded through the frames.
pub struct Simulation<const D: usize> {
    pub config: SimConfig<D>,
    pub bodies: Vec<Body<D>>,
    pub sim_steps: i32,
    pub do_gravity: bool,
    pub state: State,
    pub fps: SmoothedFps,
    pub largest_speed: i64,
    pub largest_pressure: i64,
    pub grid: SpatialHash<D>,
}

/// A body that may take part in the simulation under `config`.
pub open spec fn body_fits<const D: usize>(config: SimConfig<D>, b: Body<D>) -> bool {
    &&& b.wf()
    &&& b.pressure <= config.max_pressure
    &&& forall|j: int| 0 <= j < D ==> 2 * b.radius <= #[trigger] config.extent[j]
}

/// `bodies` are valid under `config` and each one's id is its index.
pub open spec fn bodies_ok<const D: usize>(config: SimConfig<D>, bodies: Seq<Body<D>>) -> bool {
    forall|i: int| 0 <= i < bodies.len() ==> body_fits(config, #[trigger] bodies[i]) && bodies[i].id == i
}

/// `b` with its id replaced by `id`.
pub open spec fn with_id<const D: usize>(b: Body<D>, id: int) -> Body<D> {
    Body { id: id as usize, ..b }
}

/// The bodies among the first `k` that lie at least `dist` away from
/// `pointer`, in their order.
pub open spec fn kept<const D: usize>(bodies: Seq<Body<D>>, pointer: [i64; D], dist: int, k: int) -> Seq<
    Body<D>,
>
    decreases k,
{
    if k <= 0 {
        Seq::empty()
    } else if dist_sq(bodies[k - 1].position, pointer) >= dist * dist {
        kept(bodies, pointer, dist, k - 1).push(bodies[k - 1])
    } else {
        kept(bodies, pointer, dist, k - 1)
    }
}

/// The (position, id) of every body, in order.
pub open spec fn body_points<const D: usize>(bodies: Seq<Body<D>>) -> Seq<([i64; D], usize)> {
    Seq::new(bodies.len(), |i: int| (bodies[i].position, bodies[i].id))
}

/// Every id recorded in the grid names one of the first `n` bodies.
pub open spec fn grid_ids_below<const D: usize>(grid: SpatialHash<D>, n: int) -> bool {
    forall|c: Seq<int>, x: usize| #[trigger] grid@.contains((c, x)) ==> x < n
}

/// What the host reports for one frame.
#[derive(Clone, Copy, Debug)]
pub struct FrameInput<const D: usize> {
    pub pointer: [i64; D],
    pub attract: bool,
    pub spawn: bool,
    pub delete_near_pointer: bool,
    pub toggle_gravity: bool,
    pub cycle_display_mode: bool,
    pub step_request: StepRequest,
    pub frame_time: i64,
    pub fps: i32,
}

proof fn lemma_inserted_step<const D: usize>(points: Seq<([i64; D], usize)>, s: int, k: int)
    requires
        0 <= k < points.len(),
    ensures
        inserted(points.take(k + 1), s) == inserted(points.take(k), s).insert(
            (cell_of(points[k].0, s), points[k].1),
        ),
{
    let a = inserted(points.take(k + 1), s);
    let b = inserted(points.take(k), s).insert((cell_of(points[k].0, s), points[k].1));
    assert forall|e: (Seq<int>, usize)| a.contains(e) <==> b.contains(e) by {
        if a.contains(e) {
            let m = choose|m: int|
                0 <= m < points.take(k + 1).len() && e == (
                    cell_of((#[trigger] points.take(k + 1)[m]).0, s),
                    points.take(k + 1)[m].1,
                );
            if m < k {
                assert(points.take(k)[m] == points[m]);
                assert(inserted(points.take(k), s).contains(e));
            }
        }
        if inserted(points.take(k), s).contains(e) {
            let m = choose|m: int|
                0 <= m < points.take(k).len() && e == (
                    cell_of((#[trigger] points.take(k)[m]).0, s),
                    points.take(k)[m].1,
                );
            assert(points.take(k + 1)[m] == points[m]);
        }
        if e == (cell_of(points[k].0, s), points[k].1) {
            assert(points.take(k + 1)[k] == points[k]);
        }
    }
    assert(a =~= b);
}

/// Bodies `i` and `j` of `s`, handled as a candidate pair, give `t`.
pub open spec fn pair_applied<const D: usize>(
    s: Seq<Body<D>>,
    t: Seq<Body<D>>,
    i: int,
    j: int,
    config: SimConfig<D>,
) -> bool {
    &&& t.len() == s.len()
    &&& 0 <= i < s.len()
    &&& 0 <= j < s.len()
    &&& i != j
    &&& candidate_outcome(
        s[i],
        s[j],
        config.bounce_amount as int,
        config.max_pressure as int,
        t[i],
        t[j],
    )
    &&& forall|k: int| 0 <= k < s.len() && k != i && k != j ==> #[trigger] t[k] == s[k]
}

/// Body `i`'s turn in a pass, witnessed by `states`: it is paired in turn
/// with each id of `cands`, then kept inside the domain.
pub open spec fn turn_trace<const D: usize>(
    s: Seq<Body<D>>,
    t: Seq<Body<D>>,
    i: int,
    cands: Seq<usize>,
    config: SimConfig<D>,
    states: Seq<Seq<Body<D>>>,
) -> bool {
    &&& states.len() == cands.len() + 1
    &&& states[0] == s
    &&& forall|k: int|
        0 <= k < cands.len() ==> pair_applied(
            #[trigger] states[k],
            states[k + 1],
            i,
            cands[k] as int,
            config,
        )
    &&& t.len() == s.len()
    &&& 0 <= i < s.len()
    &&& contained(states.last()[i], config.extent, config.bounce_amount as int, t[i])
    &&& forall|k: int| 0 <= k < s.len() && k != i ==> #[trigger] t[k] == states.last()[k]
}

/// `cands` lists exactly the ids that the grid `entries` reports around
/// `position` for body `i`: those in the surrounding block of cells, but `i`.
pub open spec fn reported<const D: usize>(
    cands: Seq<usize>,
    entries: Set<(Seq<int>, usize)>,
    cell_size: int,
    position: [i64; D],
    i: int,
) -> bool {
    &&& cands.no_duplicates()
    &&& forall|x: usize|
        #[trigger] cands.contains(x) <==> is_nearby(
            entries,
            cell_of(position, cell_size),
            1,
            Some(i as usize),
            x,
        )
}

/// A resolution pass from `s` to `t` over the grid `entries`, witnessed by
/// the states between turns, the candidates of each turn (in the order they
/// were handled) and the states within each turn.
pub open spec fn pass_trace<const D: usize>(
    s: Seq<Body<D>>,
    t: Seq<Body<D>>,
    entries: Set<(Seq<int>, usize)>,
    config: SimConfig<D>,
    turns: Seq<Seq<Body<D>>>,
    cands: Seq<Seq<usize>>,
    states: Seq<Seq<Seq<Body<D>>>>,
) -> bool {
    &&& turns.len() == s.len() + 1
    &&& cands.len() == s.len()
    &&& states.len() == s.len()
    &&& turns[0] == s
    &&& turns.last() == t
    &&& forall|i: int|
        0 <= i < s.len() ==> reported(
            #[trigger] cands[i],
            entries,
            config.cell_size(),
            turns[i][i].position,
            i,
        ) && turn_trace(turns[i], turns[i + 1], i, cands[i], config, states[i])
}

/// `t` follows from `s` by one resolution pass over the grid `entries`: for
/// each body in order, every id the grid reports around it is handled as a
/// candidate pair (in some order), then the body is kept inside the domain.
pub open spec fn pass_result<const D: usize>(
    s: Seq<Body<D>>,
    t: Seq<Body<D>>,
    entries: Set<(Seq<int>, usize)>,
    config: SimConfig<D>,
) -> bool {
    exists|turns: Seq<Seq<Body<D>>>, cands: Seq<Seq<usize>>, states: Seq<Seq<Seq<Body<D>>>>|
        #[trigger] pass_trace(s, t, entries, config, turns, cands, states)
}

/// `t` is `s` with every body integrated over the frame (see `integrate_body`).
pub open spec fn integrated_all<const D: usize>(
    s: Seq<Body<D>>,
    t: Seq<Body<D>>,
    pointer: Option<[i64; D]>,
    gravity_on: bool,
    config: SimConfig<D>,
    frame_time: int,
) -> bool {
    &&& t.len() == s.len()
    &&& forall|i: int|
        0 <= i < t.len() ==> {
            let b0 = s[i];
            let b = #[trigger] t[i];
            let v = integrated_velocity(
                b0,
                pointer,
                config.gravity as int,
                gravity_on,
                config.resistance as int,
                config.max_speed as int,
                effective_frame_time(frame_time),
            );
            &&& coords(b.velocity) == v
            &&& coords(b.position) == advanced(
                coords(b0.position),
                v,
                effective_frame_time(frame_time),
            )
            &&& b.id == b0.id && b.radius == b0.radius && b.pressure == b0.pressure && b.color
                == b0.color
        }
}

/// `t` is `s` after `k` resolution passes over the grid `entries`, witnessed
/// by the states between passes.
pub open spec fn passes_trace<const D: usize>(
    s: Seq<Body<D>>,
    t: Seq<Body<D>>,
    k: int,
    entries: Set<(Seq<int>, usize)>,
    config: SimConfig<D>,
    mids: Seq<Seq<Body<D>>>,
) -> bool {
    &&& mids.len() == k + 1
    &&& mids[0] == s
    &&& mids.last() == t
    &&& forall|p: int| 0 <= p < k ==> pass_result(#[trigger] mids[p], mids[p + 1], entries, config)
}

/// `t` is `s` with, when `spawn` holds, one body appended at `pointer`: the
/// next id, the configured radius, no pressure and a velocity of at most
/// `SPAWN_SPEED` per axis.
pub open spec fn spawned<const D: usize>(
    s: Seq<Body<D>>,
    t: Seq<Body<D>>,
    spawn: bool,
    pointer: [i64; D],
    config: SimConfig<D>,
) -> bool {
    if spawn {
        &&& t.len() == s.len() + 1
        &&& t.drop_last() == s
        &&& t.last().id == s.len()
        &&& t.last().position == pointer
        &&& t.last().radius == config.body_radius
        &&& t.last().pressure == 0
        &&& forall|j: int| 0 <= j < D ==> -SPAWN_SPEED <= #[trigger] t.last().velocity[j] <= SPAWN_SPEED
    } else {
        t == s
    }
}

/// `t` is `s` with, when `delete` holds, the bodies closer than `delete_dist`
/// to `pointer` removed and the others renumbered in order.
pub open spec fn removed<const D: usize>(
    s: Seq<Body<D>>,
    t: Seq<Body<D>>,
    delete: bool,
    pointer: [i64; D],
    config: SimConfig<D>,
) -> bool {
    if delete {
        let k = kept(s, pointer, config.delete_dist as int, s.len() as int);
        &&& t.len() == k.len()
        &&& forall|i: int| 0 <= i < k.len() ==> #[trigger] t[i] == with_id(k[i], i)
    } else {
        t == s
    }
}

/// `t` is `s` with every body kept inside the domain.
pub open spec fn all_contained<const D: usize>(
    s: Seq<Body<D>>,
    t: Seq<Body<D>>,
    config: SimConfig<D>,
) -> bool {
    &&& t.len() == s.len()
    &&& forall|i: int|
        0 <= i < s.len() ==> contained(
            s[i],
            config.extent,
            config.bounce_amount as int,
            #[trigger] t[i],
        )
}

/// The bodies of one frame, from `s` to `t`, witnessed by the intermediate
/// states: `steps` passes over the grid rebuilt from `s`, integration, the
/// spawn and removal requests, and containment.
pub open spec fn frame_trace<const D: usize>(
    s: Seq<Body<D>>,
    t: Seq<Body<D>>,
    input: FrameInput<D>,
    gravity_on: bool,
    steps: int,
    config: SimConfig<D>,
    mids: Seq<Seq<Body<D>>>,
    moved: Seq<Body<D>>,
    grown: Seq<Body<D>>,
    thinned: Seq<Body<D>>,
) -> bool {
    &&& passes_trace(
        s,
        mids.last(),
        steps,
        inserted(body_points(s), config.cell_size()),
        config,
        mids,
    )
    &&& integrated_all(
        mids.last(),
        moved,
        if input.attract {
            Some(input.pointer)
        } else {
            None
        },
        gravity_on,
        config,
        input.frame_time as int,
    )
    &&& spawned(moved, grown, input.spawn, input.pointer, config)
    &&& removed(grown, thinned, input.delete_near_pointer, input.pointer, config)
    &&& all_contained(thinned, t, config)
}

impl<const D: usize> Simulation<D> {
    pub closed spec fn wf(&self) -> bool {
        &&& self.config.wf()
        &&& bodies_ok(self.config, self.bodies@)
        &&& 1 <= self.sim_steps <= 200
        &&& self.fps.wf()
        &&& self.grid.wf()
        &&& self.grid.spec_cell_size() == self.config.cell_size()
    }

    /// A simulation of the given bodies, whose ids become their indices.
    pub fn from_bodies(config: SimConfig<D>, bodies: Vec<Body<D>>) -> (r: Self)
        requires
            config.wf(),
            forall|i: int| 0 <= i < bodies@.len() ==> body_fits(config, #[trigger] bodies@[i]),
        ensures
            r.wf(),
            r.config == config,
            r.bodies@.len() == bodies@.len(),
            forall|i: int| 0 <= i < bodies@.len() ==> #[trigger] r.bodies@[i] == with_id(bodies@[i], i),
            r.sim_steps == (if config.sim_steps < 1 {
                1
            } else if config.sim_steps > 200 {
                200
            } else {
                config.sim_steps as int
            }),
            r.do_gravity,
            r.state.display_mode == DisplayMode::Normal,
            r.fps@ == Seq::<int>::empty(),
    {
        let mut bodies = bodies;
        let ghost b0 = bodies@;
        let mut i: usize = 0;
        while i < bodies.len()
            invariant
                i <= bodies@.len() == b0.len(),
                forall|k: int| 0 <= k < i ==> #[trigger] bodies@[k] == with_id(b0[k], k),
                forall|k: int| i <= k < bodies@.len() ==> #[trigger] bodies@[k] == b0[k],
            decreases bodies@.len() - i,
        {
            let mut b = bodies[i];
            b.id = i;
            bodies[i] = b;
            i = i + 1;
        }
        let sim_steps = if config.sim_steps < 1 {
            1
        } else if config.sim_steps > 200 {
            200
        } else {
            config.sim_steps
        };
        Simulation {
            config,
            bodies,
            sim_steps,
            do_gravity: true,
            state: State::new(),
            fps: SmoothedFps::new(),
            largest_speed: 0,
            largest_pressure: 0,
            grid: SpatialHash::new(2 * config.body_radius + CELL_MARGIN),
        }
    }

    /// A simulation of `config.body_count` bodies of radius
    /// `config.body_radius` at random positions inside the domain, with random
    /// velocities of at most `SPAWN_SPEED` per axis and random colors.
    pub fn new(config: SimConfig<D>) -> (r: Self)
        requires
            config.wf(),
        ensures
            r.wf(),
            r.config == config,
            r.bodies@.len() == config.body_count,
            forall|i: int|
                0 <= i < r.bodies@.len() ==> {
                    let b = #[trigger] r.bodies@[i];
                    &&& b.radius == config.body_radius
                    &&& b.pressure == 0
                    &&& forall|j: int|
                        0 <= j < D ==> config.body_radius <= #[trigger] b.position[j]
                            <= config.extent[j] - config.body_radius
                    &&& forall|j: int|
                        0 <= j < D ==> -SPAWN_SPEED <= #[trigger] b.velocity[j] <= SPAWN_SPEED
                },
    {
        let mut bodies: Vec<Body<D>> = Vec::new();
        let mut i: usize = 0;
        while i < config.body_count
            invariant
                config.wf(),
                i <= config.body_count,
                bodies@.len() == i,
                forall|k: int|
                    0 <= k < i ==> {
                        let b = #[trigger] bodies@[k];
                        &&& body_fits(config, b)
                        &&& b.radius == config.body_radius
                        &&& b.pressure == 0
                        &&& forall|j: int|
                            0 <= j < D ==> config.body_radius <= #[trigger] b.position[j]
                                <= config.extent[j] - config.body_radius
                        &&& forall|j: int|
                            0 <= j < D ==> -SPAWN_SPEED <= #[trigger] b.velocity[j] <= SPAWN_SPEED
                    },
            decreases config.body_count - i,
        {
            let r = config.body_radius;
            let mut position = [0i64; D];
            let mut velocity = [0i64; D];
            let mut j: usize = 0;
            while j < D
                invariant
                    config.wf(),
                    r == config.body_radius,
                    j <= D,
                    forall|m: int|
                        0 <= m < j ==> r <= #[trigger] position[m] <= config.extent[m] - r,
                    forall|m: int|
                        0 <= m < j ==> -SPAWN_SPEED <= #[trigger] velocity[m] <= SPAWN_SPEED,
                decreases D - j,
            {
                assert(2 * r <= config.extent[j as int]);
                position[j] = random_between(r, config.extent[j] - r);
                velocity[j] = random_between(-SPAWN_SPEED, SPAWN_SPEED);
                j = j + 1;
            }
            let color = random_color();
            bodies.push(Body { id: i, position, velocity, radius: r, pressure: 0, color });
            i = i + 1;
        }
        Self::from_bodies(config, bodies)
    }

    /// Empties the grid and records every body at its position.
    pub fn rebuild_index(&mut self)
        requires
            old(self).wf(),
        ensures
            final(self).wf(),
            final(self).grid@ == inserted(
                body_points(final(self).bodies@),
                final(self).config.cell_size(),
            ),
            grid_ids_below(final(self).grid, final(self).bodies@.len() as int),
            final(self).grid.ids_distinct(),
            final(self).bodies@ == old(self).bodies@,
            final(self).config == old(self).config,
            final(self).sim_steps == old(self).sim_steps,
            final(self).do_gravity == old(self).do_gravity,
            final(self).state == old(self).state,
            final(self).fps@ == old(self).fps@,
            final(self).largest_speed == old(self).largest_speed,
            final(self).largest_pressure == old(self).largest_pressure,
    {
        let ghost pts = body_points(self.bodies@);
        self.grid.clear();
        assert(inserted(pts.take(0), self.config.cell_size()) =~= Set::empty());
        let mut i: usize = 0;
        while i < self.bodies.len()
            invariant
                self.wf(),
                pts == body_points(self.bodies@),
                i <= self.bodies@.len(),
                self.grid@ == inserted(pts.take(i as int), self.config.cell_size()),
                self.grid.ids_distinct(),
                grid_ids_below(self.grid, i as int),
                self.bodies@ == old(self).bodies@,
                self.config == old(self).config,
                self.sim_steps == old(self).sim_steps,
                self.do_gravity == old(self).do_gravity,
                self.state == old(self).state,
                self.fps@ == old(self).fps@,
                self.largest_speed == old(self).largest_speed,
                self.largest_pressure == old(self).largest_pressure,
            decreases self.bodies@.len() - i,
        {
            let p = self.bodies[i].position;
            let id = self.bodies[i].id;
            assert(id == i);
            self.grid.insert(&p, id);
            proof {
                lemma_inserted_step(pts, self.config.cell_size(), i as int);
            }
            i = i + 1;
        }
        assert(pts.take(i as int) =~= pts);
        proof {
            assert forall|c: Seq<int>, x: usize| #[trigger] self.grid@.contains((c, x)) implies x
                < self.bodies@.len() by {
                let m = choose|m: int|
                    0 <= m < pts.len() && (c, x) == (
                        cell_of((#[trigger] pts[m]).0, self.config.cell_size()),
                        pts[m].1,
                    );
                assert(self.bodies@[m].id == m);
            }
        }
    }

    /// Records the largest speed and the largest pressure among the bodies
    /// (zero when there are none), for coloring.
    pub fn observe_extremes(&mut self)
        requires
            old(self).wf(),
        ensures
            final(self).wf(),
            final(self).largest_speed >= 0,
            forall|i: int|
                0 <= i < final(self).bodies@.len() ==> speed_of(#[trigger] final(self).bodies@[i])
                    <= final(self).largest_speed,
            final(self).largest_speed == 0 || exists|i: int|
                0 <= i < final(self).bodies@.len() && speed_of(#[trigger] final(self).bodies@[i])
                    == final(self).largest_speed,
            final(self).largest_pressure >= 0,
            forall|i: int|
                0 <= i < final(self).bodies@.len() ==> (#[trigger] final(self).bodies@[i]).pressure
                    <= final(self).largest_pressure,
            final(self).largest_pressure == 0 || exists|i: int|
                0 <= i < final(self).bodies@.len() && (#[trigger] final(self).bodies@[i]).pressure
                    == final(self).largest_pressure,
            final(self).bodies@ == old(self).bodies@,
            final(self).grid == old(self).grid,
            final(self).config == old(self).config,
            final(self).sim_steps == old(self).sim_steps,
            final(self).do_gravity == old(self).do_gravity,
            final(self).state == old(self).state,
            final(self).fps@ == old(self).fps@,
    {
        let mut speed: i64 = 0;
        let mut pressure: i64 = 0;
        let mut i: usize = 0;
        while i < self.bodies.len()
            invariant
                self.wf(),
                i <= self.bodies@.len(),
                speed >= 0,
                pressure >= 0,
                forall|k: int| 0 <= k < i ==> speed_of(#[trigger] self.bodies@[k]) <= speed,
                speed == 0 || exists|k: int| 0 <= k < i && speed_of(#[trigger] self.bodies@[k]) == speed,
                forall|k: int| 0 <= k < i ==> (#[trigger] self.bodies@[k]).pressure <= pressure,
                pressure == 0 || exists|k: int| 0 <= k < i && (#[trigger] self.bodies@[k]).pressure == pressure,
            decreases self.bodies@.len() - i,
        {
            let sp = body_speed(&self.bodies[i]);
            if sp > speed {
                speed = sp;
            }
            if self.bodies[i].pressure > pressure {
                pressure = self.bodies[i].pressure;
            }
            i = i + 1;
        }
        self.largest_speed = speed;
        self.largest_pressure = pressure;
    }

    /// One resolution pass: for each body in turn, every candidate from the
    /// grid is resolved against it if the two overlap, or both pressures are
    /// reset if they do not; then the body is kept inside the domain.
    pub fn run_pass(&mut self)
        requires
            old(self).wf(),
            grid_ids_below(old(self).grid, old(self).bodies@.len() as int),
            old(self).grid.ids_distinct(),
        ensures
            final(self).wf(),
            pass_result(old(self).bodies@, final(self).bodies@, old(self).grid@, old(self).config),
            bodies_ok(final(self).config, final(self).bodies@),
            grid_ids_below(final(self).grid, final(self).bodies@.len() as int),
            final(self).bodies@.len() == old(self).bodies@.len(),
            forall|k: int|
                0 <= k < final(self).bodies@.len() ==> (#[trigger] final(self).bodies@[k]).radius
                    == old(self).bodies@[k].radius && final(self).bodies@[k].color
                    == old(self).bodies@[k].color,
            final(self).grid == old(self).grid,
            final(self).config == old(self).config,
            final(self).sim_steps == old(self).sim_steps,
            final(self).do_gravity == old(self).do_gravity,
            final(self).state == old(self).state,
            final(self).fps@ == old(self).fps@,
            final(self).largest_speed == old(self).largest_speed,
            final(self).largest_pressure == old(self).largest_pressure,
    {
        let ghost g0 = self.grid;
        let ghost s0 = self.bodies@;
        let ghost cfg = self.config;
        let ghost mut turns: Seq<Seq<Body<D>>> = seq![s0];
        let ghost mut cands_all: Seq<Seq<usize>> = Seq::empty();
        let ghost mut states_all: Seq<Seq<Seq<Body<D>>>> = Seq::empty();
        let n = self.bodies.len();
        let bounce = self.config.bounce_amount;
        let max_pressure = self.config.max_pressure;
        let mut i: usize = 0;
        while i < n
            invariant
                self.wf(),
                self.grid == g0,
                g0.ids_distinct(),
                n == self.bodies@.len() == s0.len(),
                grid_ids_below(self.grid, n as int),
                bounce == self.config.bounce_amount,
                max_pressure == self.config.max_pressure,
                cfg == self.config,
                i <= n,
                turns.len() == i + 1,
                cands_all.len() == i,
                states_all.len() == i,
                turns[0] == s0,
                turns[i as int] == self.bodies@,
                forall|k: int|
                    0 <= k < i ==> reported(
                        #[trigger] cands_all[k],
                        g0@,
                        cfg.cell_size(),
                        turns[k][k].position,
                        k,
                    ) && turn_trace(turns[k], turns[k + 1], k, cands_all[k], cfg, states_all[k]),
                forall|m: int|
                    0 <= m < n ==> (#[trigger] self.bodies@[m]).radius == old(self).bodies@[m].radius
                        && self.bodies@[m].color == old(self).bodies@[m].color,
                self.config == old(self).config,
                self.sim_steps == old(self).sim_steps,
                self.do_gravity == old(self).do_gravity,
                self.state == old(self).state,
                self.fps@ == old(self).fps@,
                self.largest_speed == old(self).largest_speed,
                self.largest_pressure == old(self).largest_pressure,
            decreases n - i,
        {
            let ghost start = self.bodies@;
            let pos = self.bodies[i].position;
            let candidates = self.grid.get_nearby_objects(&pos, i);
            let ghost mut states: Seq<Seq<Body<D>>> = seq![start];
            let mut k: usize = 0;
            while k < candidates.len()
                invariant
                    self.wf(),
                    self.grid == g0,
                    n == self.bodies@.len(),
                    grid_ids_below(self.grid, n as int),
                    bounce == self.config.bounce_amount,
                    max_pressure == self.config.max_pressure,
                    cfg == self.config,
                    i < n,
                    k <= candidates@.len(),
                    forall|x: usize|
                        #[trigger] candidates@.contains(x) ==> x < n && x != i,
                    states.len() == k + 1,
                    states[0] == start,
                    states[k as int] == self.bodies@,
                    forall|q: int|
                        0 <= q < k ==> pair_applied(
                            #[trigger] states[q],
                            states[q + 1],
                            i as int,
                            candidates@[q] as int,
                            cfg,
                        ),
                    forall|m: int|
                        0 <= m < n ==> (#[trigger] self.bodies@[m]).radius
                            == old(self).bodies@[m].radius && self.bodies@[m].color
                            == old(self).bodies@[m].color,
                    self.config == old(self).config,
                    self.sim_steps == old(self).sim_steps,
                    self.do_gravity == old(self).do_gravity,
                    self.state == old(self).state,
                    self.fps@ == old(self).fps@,
                    self.largest_speed == old(self).largest_speed,
                    self.largest_pressure == old(self).largest_pressure,
                decreases candidates@.len() - k,
            {
                let j = candidates[k];
                assert(candidates@.contains(j));
                let ghost before = self.bodies@;
                let mut a = self.bodies[i];
                let mut b = self.bodies[j];
                resolve_candidate_pair(&mut a, &mut b, bounce, max_pressure);
                self.bodies[i] = a;
                self.bodies[j] = b;
                proof {
                    assert(pair_applied(before, self.bodies@, i as int, j as int, cfg));
                    states = states.push(self.bodies@);
                }
                k = k + 1;
            }
            let ghost last = self.bodies@;
            let mut body = self.bodies[i];
            resolve_boundaries(&mut body, &self.config.extent, bounce);
            self.bodies[i] = body;
            proof {
                assert(states.last() == last);
                assert(turn_trace(start, self.bodies@, i as int, candidates@, cfg, states));
                assert(reported(candidates@, g0@, cfg.cell_size(), start[i as int].position, i as int));
                turns = turns.push(self.bodies@);
                cands_all = cands_all.push(candidates@);
                states_all = states_all.push(states);
            }
            i = i + 1;
        }
        proof {
            assert(pass_trace(s0, self.bodies@, g0@, cfg, turns, cands_all, states_all));
        }
    }

    /// Integrates every body over the frame, with the pull toward `pointer`
    /// when one is given.
    pub fn integrate_all(&mut self, pointer: Option<[i64; D]>, frame_time: i64)
        requires
            old(self).wf(),
            match pointer {
                Some(p) => within(p, POSITION_LIMIT as int),
                None => true,
            },
            frame_time <= FRAME_TIME_LIMIT,
        ensures
            final(self).wf(),
            integrated_all(
                old(self).bodies@,
                final(self).bodies@,
                pointer,
                old(self).do_gravity,
                old(self).config,
                frame_time as int,
            ),
            final(self).grid == old(self).grid,
            final(self).config == old(self).config,
            final(self).sim_steps == old(self).sim_steps,
            final(self).do_gravity == old(self).do_gravity,
            final(self).state == old(self).state,
            final(self).fps@ == old(self).fps@,
    {
        let ghost b0 = self.bodies@;
        let n = self.bodies.len();
        let mut i: usize = 0;
        while i < n
            invariant
                self.wf(),
                n == self.bodies@.len() == b0.len(),
                i <= n,
                match pointer {
                    Some(p) => within(p, POSITION_LIMIT as int),
                    None => true,
                },
                frame_time <= FRAME_TIME_LIMIT,
                forall|k: int|
                    0 <= k < i ==> {
                        let b = #[trigger] self.bodies@[k];
                        let v = integrated_velocity(
                            b0[k],
                            pointer,
                            self.config.gravity as int,
                            self.do_gravity,
                            self.config.resistance as int,
                            self.config.max_speed as int,
                            effective_frame_time(frame_time as int),
                        );
                        &&& coords(b.velocity) == v
                        &&& coords(b.position) == advanced(
                            coords(b0[k].position),
                            v,
                            effective_frame_time(frame_time as int),
                        )
                        &&& b.id == b0[k].id && b.radius == b0[k].radius && b.pressure
                            == b0[k].pressure && b.color == b0[k].color
                    },
                forall|k: int| i <= k < n ==> #[trigger] self.bodies@[k] == b0[k],
                self.grid == old(self).grid,
                self.config == old(self).config,
                self.sim_steps == old(self).sim_steps,
                self.do_gravity == old(self).do_gravity,
                self.state == old(self).state,
                self.fps@ == old(self).fps@,
            decreases n - i,
        {
            let mut body = self.bodies[i];
            integrate_body(
                &mut body,
                pointer,
                self.config.gravity,
                self.do_gravity,
                self.config.resistance,
                self.config.max_speed,
                frame_time,
            );
            self.bodies[i] = body;
            i = i + 1;
        }
    }

    /// Advances the simulation by one displayed frame: rebuild the grid,
    /// record the extremes for coloring, run `sim_steps` resolution passes,
    /// apply the gravity and display toggles, integrate, apply the spawn and
    /// removal requests at the pointer, keep every body inside the domain,
    /// then record the frame rate and choose the next number of passes. The
    /// bodies follow `frame_trace`, which the display mode does not enter.
    pub fn frame(&mut self, input: &FrameInput<D>)
        requires
            old(self).wf(),
            within(input.pointer, POSITION_LIMIT as int),
            input.frame_time <= FRAME_TIME_LIMIT,
            old(self).bodies@.len() < usize::MAX,
        ensures
            final(self).wf(),
            bodies_ok(final(self).config, final(self).bodies@),
            final(self).config == old(self).config,
            MIN_SIM_STEPS <= final(self).sim_steps <= MAX_SIM_STEPS,
            final(self).fps@ == old(self).fps@.push(input.fps as int),
            final(self).sim_steps == clamp_spec(
                requested_steps(
                    old(self).sim_steps as int,
                    old(self).config.auto_sim_steps,
                    average_below(final(self).fps, old(self).config.target_fps as int),
                    average_above(
                        final(self).fps,
                        old(self).config.target_fps + old(self).config.fps_boundary,
                    ),
                    input.step_request,
                ),
                MIN_SIM_STEPS as int,
                MAX_SIM_STEPS as int,
            ),
            final(self).do_gravity == (old(self).do_gravity != input.toggle_gravity),
            final(self).state.display_mode == (if input.cycle_display_mode {
                next_mode(old(self).state.display_mode)
            } else {
                old(self).state.display_mode
            }),
            exists|mids: Seq<Seq<Body<D>>>, moved: Seq<Body<D>>, grown: Seq<Body<D>>, thinned: Seq<Body<D>>|
                #[trigger] frame_trace(
                    old(self).bodies@,
                    final(self).bodies@,
                    *input,
                    final(self).do_gravity,
                    old(self).sim_steps as int,
                    old(self).config,
                    mids,
                    moved,
                    grown,
                    thinned,
                ),
            forall|i: int, j: int|
                0 <= i < final(self).bodies@.len() && 0 <= j < D ==> final(self).bodies@[i].radius
                    <= #[trigger] final(self).bodies@[i].position[j] <= final(self).config.extent[j]
                    - final(self).bodies@[i].radius,
    {
        let ghost s0 = self.bodies@;
        self.rebuild_index();
        self.observe_extremes();
        let ghost entries = self.grid@;
        let steps = self.sim_steps;
        let ghost mut mids: Seq<Seq<Body<D>>> = seq![s0];
        let mut s: i32 = 0;
        while s < steps
            invariant
                self.wf(),
                0 <= s <= steps,
                steps == old(self).sim_steps,
                entries == inserted(body_points(s0), self.config.cell_size()),
                self.grid@ == entries,
                self.grid.ids_distinct(),
                mids.len() == s + 1,
                mids[0] == s0,
                mids.last() == self.bodies@,
                forall|p: int|
                    0 <= p < s ==> pass_result(#[trigger] mids[p], mids[p + 1], entries, self.config),
                grid_ids_below(self.grid, self.bodies@.len() as int),
                self.bodies@.len() == old(self).bodies@.len(),
                self.config == old(self).config,
                self.sim_steps == old(self).sim_steps,
                self.do_gravity == old(self).do_gravity,
                self.state == old(self).state,
                self.fps@ == old(self).fps@,
            decreases steps - s,
        {
            let ghost before = self.bodies@;
            self.run_pass();
            proof {
                mids = mids.push(self.bodies@);
                assert(mids[s as int] == before);
            }
            s = s + 1;
        }
        if input.toggle_gravity {
            self.do_gravity = !self.do_gravity;
        }
        if input.cycle_display_mode {
            self.state.toggle_display_mode();
        }
        let pointer = if input.attract {
            Some(input.pointer)
        } else {
            None
        };
        self.integrate_all(pointer, input.frame_time);
        let ghost moved = self.bodies@;
        if input.spawn {
            self.spawn_body(input.pointer);
        }
        let ghost grown = self.bodies@;
        if input.delete_near_pointer {
            self.remove_near(input.pointer);
        }
        let ghost thinned = self.bodies@;
        self.contain_all();
        self.fps.update(input.fps);
        self.sim_steps = adjust_sim_steps(
            self.sim_steps,
            self.config.auto_sim_steps,
            &self.fps,
            self.config.target_fps,
            self.config.fps_boundary,
            input.step_request,
        );
        proof {
            assert(passes_trace(s0, mids.last(), steps as int, entries, self.config, mids));
            assert(frame_trace(
                s0,
                self.bodies@,
                *input,
                self.do_gravity,
                steps as int,
                self.config,
                mids,
                moved,
                grown,
                thinned,
            ));
        }
    }

    /// Keeps every body inside the domain (see `resolve_boundaries`).
    pub fn contain_all(&mut self)
        requires
            old(self).wf(),
        ensures
            final(self).wf(),
            all_contained(old(self).bodies@, final(self).bodies@, old(self).config),
            forall|i: int, j: int|
                0 <= i < final(self).bodies@.len() && 0 <= j < D ==> final(self).bodies@[i].radius
                    <= #[trigger] final(self).bodies@[i].position[j] <= final(self).config.extent[j]
                    - final(self).bodies@[i].radius,
            final(self).grid == old(self).grid,
            final(self).config == old(self).config,
            final(self).sim_steps == old(self).sim_steps,
            final(self).do_gravity == old(self).do_gravity,
            final(self).state == old(self).state,
            final(self).fps@ == old(self).fps@,
    {
        let ghost b0 = self.bodies@;
        let n = self.bodies.len();
        let mut i: usize = 0;
        while i < n
            invariant
                self.wf(),
                n == self.bodies@.len() == b0.len(),
                i <= n,
                forall|k: int|
                    0 <= k < i ==> contained(
                        b0[k],
                        self.config.extent,
                        self.config.bounce_amount as int,
                        #[trigger] self.bodies@[k],
                    ),
                forall|k: int, j: int|
                    0 <= k < i && 0 <= j < D ==> self.bodies@[k].radius
                        <= #[trigger] self.bodies@[k].position[j] <= self.config.extent[j]
                        - self.bodies@[k].radius,
                forall|k: int| i <= k < n ==> #[trigger] self.bodies@[k] == b0[k],
                self.grid == old(self).grid,
                self.config == old(self).config,
                self.sim_steps == old(self).sim_steps,
                self.do_gravity == old(self).do_gravity,
                self.state == old(self).state,
                self.fps@ == old(self).fps@,
            decreases n - i,
        {
            let mut body = self.bodies[i];
            resolve_boundaries(&mut body, &self.config.extent, self.config.bounce_amount);
            self.bodies[i] = body;
            i = i + 1;
        }
    }

    /// The color a body is drawn with in the current display mode.
    pub fn display_color(&self, body: &Body<D>) -> (r: Color)
        requires
            body.wf(),
        ensures
            self.state.display_mode == DisplayMode::Normal ==> r == body.color,
            self.state.display_mode == DisplayMode::Velocity ==> r.g == shade(
                speed_of(*body),
                self.largest_speed as int,
            ) && r.r == 0 && r.b == 255 - r.g && r.a == 255,
            self.state.display_mode == DisplayMode::Pressure ==> r.r == shade(
                body.pressure as int,
                self.largest_pressure as int,
            ) && r.g == 0 && r.b == 255 - r.r && r.a == 255,
    {
        match self.state.display_mode {
            DisplayMode::Normal => body.color,
            DisplayMode::Velocity => get_color_from_vel(body, self.largest_speed),
            DisplayMode::Pressure => get_color_from_pressure(body, self.largest_pressure),
        }
    }

    /// Appends a body of the configured radius at `position`, with the given
    /// velocity and color and no pressure; its id is the former body count.
    pub fn spawn_body_with(&mut self, position: [i64; D], velocity: [i64; D], color: Color)
        requires
            old(self).wf(),
            within(position, POSITION_LIMIT as int),
            within(velocity, VELOCITY_LIMIT as int),
            old(self).bodies@.len() < usize::MAX,
        ensures
            final(self).wf(),
            final(self).bodies@ == old(self).bodies@.push(
                Body {
                    id: old(self).bodies@.len() as usize,
                    position,
                    velocity,
                    radius: old(self).config.body_radius,
                    pressure: 0,
                    color,
                },
            ),
            final(self).config == old(self).config,
            final(self).sim_steps == old(self).sim_steps,
            final(self).do_gravity == old(self).do_gravity,
            final(self).state == old(self).state,
            final(self).fps@ == old(self).fps@,
    {
        let id = self.bodies.len();
        let body = Body { id, position, velocity, radius: self.config.body_radius, pressure: 0, color };
        self.bodies.push(body);
    }

    /// Appends a body at `position` with a random velocity of at most
    /// `SPAWN_SPEED` per axis and a random color.
    pub fn spawn_body(&mut self, position: [i64; D])
        requires
            old(self).wf(),
            within(position, POSITION_LIMIT as int),
            old(self).bodies@.len() < usize::MAX,
        ensures
            final(self).wf(),
            final(self).bodies@.len() == old(self).bodies@.len() + 1,
            final(self).bodies@.drop_last() == old(self).bodies@,
            ({
                let b = final(self).bodies@.last();
                &&& b.id == old(self).bodies@.len()
                &&& b.position == position
                &&& b.radius == old(self).config.body_radius
                &&& b.pressure == 0
                &&& forall|j: int|
                    0 <= j < D ==> -SPAWN_SPEED <= #[trigger] b.velocity[j] <= SPAWN_SPEED
            }),
            final(self).config == old(self).config,
            final(self).sim_steps == old(self).sim_steps,
            final(self).do_gravity == old(self).do_gravity,
            final(self).state == old(self).state,
            final(self).fps@ == old(self).fps@,
    {
        let mut velocity = [0i64; D];
        let mut j: usize = 0;
        while j < D
            invariant
                j <= D,
                forall|m: int| 0 <= m < j ==> -SPAWN_SPEED <= #[trigger] velocity[m] <= SPAWN_SPEED,
            decreases D - j,
        {
            velocity[j] = random_between(-SPAWN_SPEED, SPAWN_SPEED);
            j = j + 1;
        }
        let color = random_color();
        self.spawn_body_with(position, velocity, color);
        assert(self.bodies@.drop_last() =~= old(self).bodies@);
    }

    /// Removes every body closer than `delete_dist` to `pointer`; the others
    /// keep their order and take the ids `0..n`.
    pub fn remove_near(&mut self, pointer: [i64; D])
        requires
            old(self).wf(),
            within(pointer, POSITION_LIMIT as int),
        ensures
            final(self).wf(),
            ({
                let k = kept(
                    old(self).bodies@,
                    pointer,
                    old(self).config.delete_dist as int,
                    old(self).bodies@.len() as int,
                );
                &&& final(self).bodies@.len() == k.len()
                &&& forall|i: int|
                    0 <= i < k.len() ==> #[trigger] final(self).bodies@[i] == with_id(k[i], i)
            }),
            final(self).config == old(self).config,
            final(self).sim_steps == old(self).sim_steps,
            final(self).do_gravity == old(self).do_gravity,
            final(self).state == old(self).state,
            final(self).fps@ == old(self).fps@,
    {
        let ghost b0 = self.bodies@;
        let dd = self.config.delete_dist as u128;
        assert(dd * dd <= 1_000_000_000_000_000_000_000_000) by (nonlinear_arith)
            requires
                dd <= 1_000_000_000_000,
        ;
        let limit = dd * dd;
        let mut survivors: Vec<Body<D>> = Vec::new();
        let mut i: usize = 0;
        while i < self.bodies.len()
            invariant
                self.wf(),
                self.bodies@ == b0,
                i <= b0.len(),
                within(pointer, POSITION_LIMIT as int),
                limit == self.config.delete_dist * self.config.delete_dist,
                survivors@.len() == kept(b0, pointer, self.config.delete_dist as int, i as int).len(),
                forall|m: int|
                    0 <= m < survivors@.len() ==> #[trigger] survivors@[m] == with_id(
                        kept(b0, pointer, self.config.delete_dist as int, i as int)[m],
                        m,
                    ),
                forall|m: int|
                    0 <= m < survivors@.len() ==> body_fits(self.config, #[trigger] survivors@[m])
                        && survivors@[m].id == m,
            decreases b0.len() - i,
        {
            let b = self.bodies[i];
            let d2 = distance_sq(&b.position, &pointer);
            if d2 >= limit {
                let mut s = b;
                s.id = survivors.len();
                survivors.push(s);
            }
            i = i + 1;
        }
        self.bodies = survivors;
    }
}

/// A random opaque color.
fn random_color() -> (r: Color)
    ensures
        r.a == 255,
{
    let r = random_between(0, 255) as u8;
    let g = random_between(0, 255) as u8;
    let b = random_between(0, 255) as u8;
    Color { r, g, b, a: 255 }
}

} // verus!
