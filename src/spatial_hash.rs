//! Broad phase: a uniform grid that buckets body ids by the cell holding
//! their position, rebuilt from scratch every frame.
use std::collections::HashMap;
use vstd::prelude::*;
use crate::arith::{div_away, div_floor, div_floor_i64, POSITION_LIMIT};
use crate::vector::{coords, dist_sq, lemma_component_sq_le_norm, offset, within};
use vstd::arithmetic::div_mod::{lemma_div_is_ordered, lemma_hoist_over_denominator};
use vstd::arithmetic::div_mod::lemma_fundamental_div_mod_converse;

verus! {

/// Largest magnitude of a cell coordinate that can hold bodies.
pub const CELL_LIMIT: i64 = 1_000_000_000_000;

/// Base of the encoding of a cell as one hash key.
pub const CELL_RADIX: u128 = 2_000_000_000_001;

/// A cell coordinate that can hold bodies, on every axis.
pub open spec fn valid_cell(c: Seq<int>, dims: int) -> bool {
    c.len() == dims && forall|j: int| 0 <= j < dims ==> -CELL_LIMIT <= #[trigger] c[j] <= CELL_LIMIT
}

/// The cell that holds `position`: per axis, the position over the cell size,
/// rounded down.
pub open spec fn cell_of<const D: usize>(position: [i64; D], cell_size: int) -> Seq<int> {
    Seq::new(D as nat, |j: int| div_floor(position[j] as int, cell_size))
}

/// The cell `c` lies within `range` cells of `center` on every axis.
pub open spec fn near_cell(c: Seq<int>, center: Seq<int>, range: int) -> bool {
    &&& c.len() == center.len()
    &&& forall|j: int|
        0 <= j < center.len() ==> center[j] - range <= #[trigger] c[j] <= center[j] + range
}

/// `x` was inserted in a cell within `range` cells of `center`, and is not the
/// excluded id.
pub open spec fn is_nearby(
    entries: Set<(Seq<int>, usize)>,
    center: Seq<int>,
    range: int,
    exclude: Option<usize>,
    x: usize,
) -> bool {
    &&& exclude != Some(x)
    &&& exists|c: Seq<int>| near_cell(c, center, range) && #[trigger] entries.contains((c, x))
}

/// The cell `c` agrees with `prefix` below `axis` and lies within `range`
/// cells of `center` from `axis` on.
spec fn in_block(c: Seq<int>, prefix: Seq<int>, axis: int, center: Seq<int>, range: int) -> bool {
    &&& c.len() == center.len()
    &&& forall|j: int| 0 <= j < axis ==> #[trigger] c[j] == prefix[j]
    &&& forall|j: int|
        axis <= j < center.len() ==> center[j] - range <= #[trigger] c[j] <= center[j] + range
}

spec fn block_has(
    entries: Set<(Seq<int>, usize)>,
    prefix: Seq<int>,
    axis: int,
    center: Seq<int>,
    range: int,
    exclude: Option<usize>,
    x: usize,
) -> bool {
    &&& exclude != Some(x)
    &&& exists|c: Seq<int>| in_block(c, prefix, axis, center, range) && #[trigger] entries.contains((c, x))
}

/// The pairs (cell, id) recorded by inserting every `(position, id)` of
/// `points` into an empty grid of cells of edge `cell_size`.
pub open spec fn inserted<const D: usize>(points: Seq<([i64; D], usize)>, cell_size: int) -> Set<
    (Seq<int>, usize),
> {
    Set::new(
        |e: (Seq<int>, usize)|
            exists|k: int|
                0 <= k < points.len() && e == (cell_of(points[k].0, cell_size), points[k].1),
    )
}

/// Points at most one cell edge apart on an axis lie in the same or adjacent
/// cells on that axis.
proof fn lemma_adjacent_cells(p: int, q: int, s: int)
    requires
        s > 0,
        q - s <= p <= q + s,
    ensures
        q / s - 1 <= p / s <= q / s + 1,
{
    lemma_div_is_ordered(p, q + s, s);
    lemma_div_is_ordered(q - s, p, s);
    lemma_hoist_over_denominator(q, 1, s as nat);
    lemma_hoist_over_denominator(q, -1, s as nat);
}

/// The neighbor query misses no close body: for any inserted points and any
/// query point `q`, every inserted id whose point lies within distance
/// `cell_size` of `q` (and is not the excluded id) is among the ids that the
/// query around `q` reports.
pub proof fn lemma_neighbors_superset<const D: usize>(
    points: Seq<([i64; D], usize)>,
    cell_size: int,
    q: [i64; D],
    exclude: Option<usize>,
    k: int,
)
    requires
        cell_size > 0,
        0 <= k < points.len(),
        dist_sq(points[k].0, q) <= cell_size * cell_size,
        exclude != Some(points[k].1),
    ensures
        is_nearby(inserted(points, cell_size), cell_of(q, cell_size), 1, exclude, points[k].1),
{
    let p = points[k].0;
    let c = cell_of(p, cell_size);
    let center = cell_of(q, cell_size);
    let u = offset(p, q);
    assert forall|j: int| 0 <= j < D implies center[j] - 1 <= #[trigger] c[j] <= center[j] + 1 by {
        lemma_component_sq_le_norm(u, D as int, j);
        let x = u[j];
        assert(-cell_size <= x <= cell_size) by (nonlinear_arith)
            requires
                x * x <= cell_size * cell_size,
                cell_size > 0,
        ;
        lemma_adjacent_cells(p[j] as int, q[j] as int, cell_size);
    }
    assert(near_cell(c, center, 1));
    assert(inserted(points, cell_size).contains((c, points[k].1)));
}

/// The first `k` coordinates of a cell, read as digits of a number.
pub open spec fn key_prefix(c: Seq<int>, k: int) -> int
    decreases k,
{
    if k <= 0 {
        0
    } else {
        key_prefix(c, k - 1) * CELL_RADIX + (c[k - 1] + CELL_LIMIT)
    }
}

pub open spec fn radix_pow(k: int) -> int
    decreases k,
{
    if k <= 0 {
        1
    } else {
        radix_pow(k - 1) * CELL_RADIX
    }
}

proof fn lemma_key_prefix_bounds(c: Seq<int>, k: int)
    requires
        0 <= k <= c.len(),
        forall|j: int| 0 <= j < c.len() ==> -CELL_LIMIT <= #[trigger] c[j] <= CELL_LIMIT,
    ensures
        0 <= key_prefix(c, k) < radix_pow(k),
    decreases k,
{
    if k > 0 {
        lemma_key_prefix_bounds(c, k - 1);
        let p = key_prefix(c, k - 1);
        let digit = c[k - 1] + CELL_LIMIT;
        assert(0 <= p * CELL_RADIX + digit < radix_pow(k - 1) * CELL_RADIX) by (nonlinear_arith)
            requires
                0 <= p < radix_pow(k - 1),
                0 <= digit < CELL_RADIX,
        ;
    }
}

proof fn lemma_key_prefix_injective(c1: Seq<int>, c2: Seq<int>, k: int)
    requires
        0 <= k <= c1.len(),
        0 <= k <= c2.len(),
        forall|j: int| 0 <= j < c1.len() ==> -CELL_LIMIT <= #[trigger] c1[j] <= CELL_LIMIT,
        forall|j: int| 0 <= j < c2.len() ==> -CELL_LIMIT <= #[trigger] c2[j] <= CELL_LIMIT,
        key_prefix(c1, k) == key_prefix(c2, k),
    ensures
        forall|j: int| 0 <= j < k ==> #[trigger] c1[j] == c2[j],
    decreases k,
{
    if k > 0 {
        lemma_key_prefix_bounds(c1, k - 1);
        lemma_key_prefix_bounds(c2, k - 1);
        let x = key_prefix(c1, k);
        lemma_fundamental_div_mod_converse(
            x,
            CELL_RADIX as int,
            key_prefix(c1, k - 1),
            c1[k - 1] + CELL_LIMIT,
        );
        lemma_fundamental_div_mod_converse(
            x,
            CELL_RADIX as int,
            key_prefix(c2, k - 1),
            c2[k - 1] + CELL_LIMIT,
        );
        lemma_key_prefix_injective(c1, c2, k - 1);
    }
}

/// Distinct valid cells have distinct keys.
proof fn lemma_cell_key_injective(c1: Seq<int>, c2: Seq<int>, dims: int)
    requires
        valid_cell(c1, dims),
        valid_cell(c2, dims),
        key_prefix(c1, dims) == key_prefix(c2, dims),
    ensures
        c1 == c2,
{
    lemma_key_prefix_injective(c1, c2, dims);
    assert(c1 =~= c2);
}

/// A uniform grid of cells of edge `cell_size`, each holding the ids of the
/// bodies inserted at a position inside it.
pub struct SpatialHash<const D: usize> {
    cell_size: i64,
    grid: HashMap<u128, Vec<usize>>,
    entries: Ghost<Set<(Seq<int>, usize)>>,
}

impl<const D: usize> View for SpatialHash<D> {
    type V = Set<(Seq<int>, usize)>;

    /// The pairs (cell, id) inserted since the grid was last cleared.
    closed spec fn view(&self) -> Set<(Seq<int>, usize)> {
        self.entries@
    }
}

impl<const D: usize> SpatialHash<D> {
    /// Edge length of a cell.
    pub closed spec fn spec_cell_size(&self) -> int {
        self.cell_size as int
    }

    /// The ids recorded in cell `c`, in insertion order (empty for a cell
    /// that holds none).
    pub closed spec fn bucket(&self, c: Seq<int>) -> Seq<usize> {
        if valid_cell(c, D as int) && self.grid@.contains_key(key_prefix(c, D as int) as u128) {
            self.grid@[key_prefix(c, D as int) as u128]@
        } else {
            Seq::empty()
        }
    }

    /// No id is recorded twice: no bucket repeats an id, and no id lies in
    /// two cells.
    pub open spec fn ids_distinct(&self) -> bool {
        &&& forall|c: Seq<int>| #[trigger] self.bucket(c).no_duplicates()
        &&& forall|c1: Seq<int>, c2: Seq<int>, x: usize|
            #[trigger] self@.contains((c1, x)) && #[trigger] self@.contains((c2, x)) ==> c1 == c2
    }

    /// The view and the buckets agree.
    pub proof fn lemma_view_bucket(&self, c: Seq<int>, x: usize)
        requires
            self.wf(),
        ensures
            self@.contains((c, x)) <==> (valid_cell(c, D as int) && self.bucket(c).contains(x)),
    {
    }

    pub closed spec fn wf(&self) -> bool {
        &&& 2 <= D <= 3
        &&& 0 < self.cell_size <= POSITION_LIMIT
        &&& forall|k: u128| #[trigger] self.grid@.contains_key(k) ==> self.grid@[k]@.len() > 0
        &&& forall|c: Seq<int>, id: usize| #[trigger]
            self.entries@.contains((c, id)) <==> {
                &&& valid_cell(c, D as int)
                &&& self.grid@.contains_key(key_prefix(c, D as int) as u128)
                &&& self.grid@[key_prefix(c, D as int) as u128]@.contains(id)
            }
    }

    /// An empty grid with cells of edge `cell_size`.
    pub fn new(cell_size: i64) -> (r: Self)
        requires
            2 <= D <= 3,
            0 < cell_size <= POSITION_LIMIT,
        ensures
            r.wf(),
            r@ == Set::<(Seq<int>, usize)>::empty(),
            forall|c: Seq<int>| #[trigger] r.bucket(c) == Seq::<usize>::empty(),
            r.ids_distinct(),
            r.spec_cell_size() == cell_size,
    {
        SpatialHash { cell_size, grid: HashMap::new(), entries: Ghost(Set::empty()) }
    }

    /// The cell that holds `position`.
    fn to_cell_coords(&self, position: &[i64; D]) -> (r: [i64; D])
        requires
            self.wf(),
            within(*position, POSITION_LIMIT as int),
        ensures
            coords(r) == cell_of(*position, self.spec_cell_size()),
            valid_cell(cell_of(*position, self.spec_cell_size()), D as int),
    {
        let mut cell = *position;
        let mut i: usize = 0;
        while i < D
            invariant
                i <= D,
                self.wf(),
                within(*position, POSITION_LIMIT as int),
                forall|j: int|
                    0 <= j < i ==> #[trigger] cell[j] == div_floor(
                        position[j] as int,
                        self.cell_size as int,
                    ),
                forall|j: int|
                    0 <= j < i ==> -CELL_LIMIT <= #[trigger] cell[j] <= CELL_LIMIT,
            decreases D - i,
        {
            let q = div_floor_i64(position[i], self.cell_size);
            proof {
                vstd::arithmetic::div_mod::lemma_div_is_ordered(
                    -POSITION_LIMIT as int,
                    position[i as int] as int,
                    self.cell_size as int,
                );
                vstd::arithmetic::div_mod::lemma_div_is_ordered(
                    position[i as int] as int,
                    POSITION_LIMIT as int,
                    self.cell_size as int,
                );
                vstd::arithmetic::div_mod::lemma_div_is_ordered_by_denominator(
                    POSITION_LIMIT as int,
                    1,
                    self.cell_size as int,
                );
                assert(-POSITION_LIMIT / (self.cell_size as int) >= -POSITION_LIMIT) by (nonlinear_arith)
                    requires
                        self.cell_size >= 1,
                ;
            }
            cell[i] = q;
            i = i + 1;
        }
        assert(coords(cell) =~= cell_of(*position, self.cell_size as int));
        cell
    }

    /// The hash key of a valid cell.
    fn cell_key(cell: &[i64; D]) -> (r: u128)
        requires
            2 <= D <= 3,
            valid_cell(coords(*cell), D as int),
        ensures
            r == key_prefix(coords(*cell), D as int),
    {
        let ghost c = coords(*cell);
        let mut key: u128 = 0;
        let mut i: usize = 0;
        while i < D
            invariant
                i <= D <= 3,
                c == coords(*cell),
                valid_cell(c, D as int),
                key == key_prefix(c, i as int),
            decreases D - i,
        {
            let digit: u128 = (cell[i] as i128 + CELL_LIMIT as i128) as u128;
            proof {
                assert(c[i as int] == cell[i as int]);
                assert(0 <= digit < CELL_RADIX);
                lemma_key_prefix_bounds(c, i as int + 1);
                lemma_radix_pow_monotone(i as int + 1, 3);
                lemma_radix_pow_three();
                assert(key_prefix(c, i as int + 1) == key * CELL_RADIX + digit);
                assert(key * CELL_RADIX + digit < 0x1_0000_0000_0000_0000_0000_0000_0000_0000);
            }
            key = key * CELL_RADIX + digit;
            i = i + 1;
        }
        key
    }

    /// Records that the body `id` lies at `position`.
    pub fn insert(&mut self, position: &[i64; D], id: usize)
        requires
            old(self).wf(),
            within(*position, POSITION_LIMIT as int),
        ensures
            final(self).wf(),
            final(self).spec_cell_size() == old(self).spec_cell_size(),
            final(self)@ == old(self)@.insert((cell_of(*position, old(self).spec_cell_size()), id)),
            final(self).bucket(cell_of(*position, old(self).spec_cell_size())) == old(self).bucket(
                cell_of(*position, old(self).spec_cell_size()),
            ).push(id),
            forall|c: Seq<int>|
                c != cell_of(*position, old(self).spec_cell_size()) ==> #[trigger] final(self).bucket(c)
                    == old(self).bucket(c),
            old(self).ids_distinct() && (forall|c: Seq<int>| !old(self)@.contains((c, id)))
                ==> final(self).ids_distinct(),
    {
        let cell = self.to_cell_coords(position);
        let key = Self::cell_key(&cell);
        let ghost c = coords(cell);
        let ghost old_grid = self.grid@;
        let ghost old_entries = self.entries@;
        let mut bucket = match self.grid.remove(&key) {
            Some(v) => v,
            None => Vec::new(),
        };
        let ghost old_bucket = bucket@;
        assert(old_grid.contains_key(key) ==> old_bucket == old_grid[key]@);
        assert(!old_grid.contains_key(key) ==> old_bucket == Seq::<usize>::empty());
        bucket.push(id);
        self.grid.insert(key, bucket);
        self.entries = Ghost(self.entries@.insert((c, id)));
        proof {
            lemma_radix_pow_three();
            lemma_radix_pow_monotone(D as int, 3);
            lemma_key_prefix_bounds(c, D as int);
            assert forall|c2: Seq<int>, x: usize| #[trigger]
                self.entries@.contains((c2, x)) <==> {
                    &&& valid_cell(c2, D as int)
                    &&& self.grid@.contains_key(key_prefix(c2, D as int) as u128)
                    &&& self.grid@[key_prefix(c2, D as int) as u128]@.contains(x)
                } by {
                assert(old_entries.contains((c2, x)) <==> {
                    &&& valid_cell(c2, D as int)
                    &&& old_grid.contains_key(key_prefix(c2, D as int) as u128)
                    &&& old_grid[key_prefix(c2, D as int) as u128]@.contains(x)
                });
                if valid_cell(c2, D as int) {
                    let k2 = key_prefix(c2, D as int);
                    lemma_key_prefix_bounds(c2, D as int);
                    if k2 == key_prefix(c, D as int) {
                        lemma_cell_key_injective(c2, c, D as int);
                        assert(k2 as u128 == key);
                        assert(self.grid@[key]@ == old_bucket.push(id));
                        lemma_push_contains(old_bucket, id, x);
                        assert(self.grid@[key]@.contains(x) <==> (old_bucket.contains(x) || x
                            == id));
                    } else {
                        assert(k2 as u128 != key);
                        assert(self.grid@.contains_key(k2 as u128) == old_grid.contains_key(
                            k2 as u128,
                        ));
                        if old_grid.contains_key(k2 as u128) {
                            assert(self.grid@[k2 as u128] == old_grid[k2 as u128]);
                        }
                    }
                }
            }
            assert forall|c2: Seq<int>| c2 != c implies #[trigger] self.bucket(c2) == old(self).bucket(
                c2,
            ) by {
                if valid_cell(c2, D as int) {
                    lemma_key_prefix_bounds(c2, D as int);
                    if key_prefix(c2, D as int) == key_prefix(c, D as int) {
                        lemma_cell_key_injective(c2, c, D as int);
                    }
                    assert(key_prefix(c2, D as int) as u128 != key);
                }
            }
            assert(self.bucket(c) == old_bucket.push(id));
            if old(self).ids_distinct() && (forall|c3: Seq<int>| !old(self)@.contains((c3, id))) {
                assert(!old_bucket.contains(id)) by {
                    if old_bucket.contains(id) {
                        assert(old(self).bucket(c) == old_bucket);
                        old(self).lemma_view_bucket(c, id);
                    }
                }
                assert(old(self).bucket(c).no_duplicates());
                assert(old_bucket == old(self).bucket(c));
                assert(self.bucket(c).no_duplicates()) by {
                    let sq = old_bucket.push(id);
                    assert forall|p: int, q: int| 0 <= p < sq.len() && 0 <= q < sq.len() && p != q implies sq[p] != sq[q] by {
                        if p < old_bucket.len() && q < old_bucket.len() {
                            assert(sq[p] == old_bucket[p] && sq[q] == old_bucket[q]);
                        } else if p < old_bucket.len() {
                            assert(old_bucket.contains(sq[p]));
                        } else if q < old_bucket.len() {
                            assert(old_bucket.contains(sq[q]));
                        }
                    }
                }
                assert forall|c2: Seq<int>| #[trigger] self.bucket(c2).no_duplicates() by {
                    if c2 != c {
                        assert(old(self).bucket(c2).no_duplicates());
                    }
                }
                assert forall|c1: Seq<int>, c2: Seq<int>, x: usize|
                    #[trigger] self@.contains((c1, x)) && #[trigger] self@.contains((c2, x))
                        implies c1 == c2 by {
                    if x == id {
                        if c1 != c {
                            assert(old(self)@.contains((c1, x)));
                        }
                        if c2 != c {
                            assert(old(self)@.contains((c2, x)));
                        }
                    } else {
                        assert(old(self)@.contains((c1, x)));
                        assert(old(self)@.contains((c2, x)));
                    }
                }
            }
        }
    }

    /// Appends to `out` the ids, other than `exclude`, of every cell that
    /// agrees with `cell` below `axis` and lies within `range` cells of
    /// `center` from `axis` on.
    fn collect_block(
        &self,
        center: &[i64; D],
        range: i64,
        axis: usize,
        cell: &mut [i64; D],
        exclude: Option<usize>,
        out: &mut Vec<usize>,
    )
        requires
            self.wf(),
            axis <= D,
            0 <= range <= 2 * CELL_LIMIT,
            within(*center, CELL_LIMIT as int),
            forall|j: int|
                0 <= j < axis ==> center[j] - range <= #[trigger] old(cell)[j] <= center[j] + range,
            self.ids_distinct() ==> old(out)@.no_duplicates(),
            self.ids_distinct() ==> forall|x: usize|
                #[trigger] old(out)@.contains(x) ==> !block_has(
                    self@,
                    coords(*old(cell)),
                    axis as int,
                    coords(*center),
                    range as int,
                    exclude,
                    x,
                ),
        ensures
            self.ids_distinct() ==> final(out)@.no_duplicates(),
            forall|j: int| 0 <= j < axis ==> #[trigger] final(cell)[j] == old(cell)[j],
            forall|x: usize|
                #[trigger] final(out)@.contains(x) <==> (old(out)@.contains(x) || block_has(
                    self@,
                    coords(*old(cell)),
                    axis as int,
                    coords(*center),
                    range as int,
                    exclude,
                    x,
                )),
        decreases D - axis,
    {
        let ghost cell0 = coords(*cell);
        let ghost out0 = out@;
        let ghost ctr = coords(*center);
        if axis == D {
            proof {
                assert forall|c: Seq<int>| in_block(c, cell0, axis as int, ctr, range as int) implies c
                    == cell0 by {
                    assert(c =~= cell0);
                }
            }
            let mut valid = true;
            let mut i: usize = 0;
            while i < D
                invariant
                    i <= D,
                    cell0 == coords(*cell),
                    valid == (forall|j: int| 0 <= j < i ==> -CELL_LIMIT <= #[trigger] cell[j] <= CELL_LIMIT),
                decreases D - i,
            {
                if cell[i] < -CELL_LIMIT || cell[i] > CELL_LIMIT {
                    valid = false;
                }
                i = i + 1;
            }
            if !valid {
                proof {
                    if valid_cell(cell0, D as int) {
                        assert forall|j: int| 0 <= j < D implies -CELL_LIMIT <= #[trigger] cell[j]
                            <= CELL_LIMIT by {
                            assert(cell0[j] == cell[j]);
                        }
                    }
                    assert forall|x: usize| !block_has(self@, cell0, axis as int, ctr, range as int, exclude, x) by {
                        if block_has(self@, cell0, axis as int, ctr, range as int, exclude, x) {
                            let c = choose|c: Seq<int>| in_block(c, cell0, axis as int, ctr, range as int) && #[trigger] self@.contains((c, x));
                            assert(self.entries@.contains((c, x)));
                        }
                    }
                }
                return;
            }
            let key = Self::cell_key(cell);
            match self.grid.get(&key) {
                Some(bucket) => {
                    let mut k: usize = 0;
                    proof {
                        assert(bucket@ == self.bucket(cell0));
                    }
                    while k < bucket.len()
                        invariant
                            k <= bucket.len(),
                            self.wf(),
                            valid_cell(cell0, D as int),
                            cell0.len() == D,
                            ctr.len() == D,
                            bucket@ == self.bucket(cell0),
                            self.ids_distinct() ==> out@.no_duplicates(),
                            self.ids_distinct() ==> forall|x: usize|
                                #[trigger] out0.contains(x) ==> !block_has(
                                    self@,
                                    cell0,
                                    D as int,
                                    ctr,
                                    range as int,
                                    exclude,
                                    x,
                                ),
                            forall|x: usize|
                                #[trigger] out@.contains(x) <==> (out0.contains(x) || (exclude != Some(x)
                                    && exists|m: int| 0 <= m < k && bucket@[m] == x)),
                        decreases bucket.len() - k,
                    {
                        let x = bucket[k];
                        let keep = match exclude {
                            Some(e) => x != e,
                            None => true,
                        };
                        if keep {
                            let ghost before = out@;
                            proof {
                                if self.ids_distinct() {
                                    assert(!before.contains(x)) by {
                                        if out0.contains(x) {
                                            assert(bucket@.contains(x));
                                            self.lemma_view_bucket(cell0, x);
                                            assert(in_block(cell0, cell0, D as int, ctr, range as int));
                                            assert(block_has(self@, cell0, D as int, ctr, range as int, exclude, x));
                                        } else if before.contains(x) {
                                            let m = choose|m: int| 0 <= m < k && bucket@[m] == x;
                                            assert(self.bucket(cell0).no_duplicates());
                                        }
                                    }
                                    lemma_push_no_duplicates(before, x);
                                }
                            }
                            out.push(x);
                            proof {
                                assert forall|y: usize| #[trigger] out@.contains(y) <==> (before.contains(y) || y == x) by {
                                    lemma_push_contains(before, x, y);
                                }
                            }
                        }
                        proof {
                            assert forall|y: usize|
                                #[trigger] out@.contains(y) <==> (out0.contains(y) || (exclude != Some(y)
                                    && exists|m: int| 0 <= m < k + 1 && bucket@[m] == y)) by {
                                if exists|m: int| 0 <= m < k + 1 && bucket@[m] == y {
                                    let m = choose|m: int| 0 <= m < k + 1 && bucket@[m] == y;
                                    if m < k {
                                        assert(exists|m: int| 0 <= m < k && bucket@[m] == y);
                                    }
                                }
                                if exists|m: int| 0 <= m < k && bucket@[m] == y {
                                    let m = choose|m: int| 0 <= m < k && bucket@[m] == y;
                                    assert(0 <= m < k + 1 && bucket@[m] == y);
                                }
                                if y == x {
                                    assert(0 <= k < k + 1 && bucket@[k as int] == y);
                                }
                            }
                        }
                        k = k + 1;
                    }
                    proof {
                        assert forall|x: usize| #[trigger] out@.contains(x) <==> (out0.contains(x) || block_has(self@, cell0, axis as int, ctr, range as int, exclude, x)) by {
                            assert(self.entries@.contains((cell0, x)) <==> bucket@.contains(x));
                            if block_has(self@, cell0, axis as int, ctr, range as int, exclude, x) {
                                let c = choose|c: Seq<int>| in_block(c, cell0, axis as int, ctr, range as int) && #[trigger] self@.contains((c, x));
                                assert(c == cell0);
                                let m = choose|m: int| 0 <= m < bucket@.len() && bucket@[m] == x;
                                assert(0 <= m < bucket@.len() && bucket@[m] == x);
                            }
                            if exclude != Some(x) && exists|m: int| 0 <= m < bucket@.len() && bucket@[m] == x {
                                let m = choose|m: int| 0 <= m < bucket@.len() && bucket@[m] == x;
                                assert(bucket@.contains(x));
                                assert(in_block(cell0, cell0, axis as int, ctr, range as int));
                                assert(self@.contains((cell0, x)));
                            }
                        }
                    }
                },
                None => {
                    proof {
                        assert forall|x: usize| !block_has(self@, cell0, axis as int, ctr, range as int, exclude, x) by {
                            if block_has(self@, cell0, axis as int, ctr, range as int, exclude, x) {
                                let c = choose|c: Seq<int>| in_block(c, cell0, axis as int, ctr, range as int) && #[trigger] self@.contains((c, x));
                                assert(self.entries@.contains((c, x)));
                            }
                        }
                    }
                },
            }
        } else {
            let lo: i64 = center[axis] - range;
            let hi: i64 = center[axis] + range;
            let mut v: i64 = lo;
            proof {
                if self.ids_distinct() {
                    assert forall|x: usize, c: Seq<int>|
                        #[trigger] out@.contains(x) && exclude != Some(x) && in_block(
                            c,
                            cell0,
                            axis as int,
                            ctr,
                            range as int,
                        ) && c[axis as int] >= v implies !#[trigger] self@.contains((c, x)) by {
                        if self@.contains((c, x)) {
                            assert(block_has(self@, cell0, axis as int, ctr, range as int, exclude, x));
                        }
                    }
                }
            }
            while v <= hi
                invariant
                    self.wf(),
                    axis < D,
                    0 <= range <= 2 * CELL_LIMIT,
                    within(*center, CELL_LIMIT as int),
                    ctr == coords(*center),
                    lo == center[axis as int] - range,
                    hi == center[axis as int] + range,
                    lo <= v <= hi + 1,
                    forall|j: int| 0 <= j < axis ==> #[trigger] cell[j] == cell0[j],
                    forall|j: int|
                        0 <= j < axis ==> center[j] - range <= #[trigger] cell0[j] <= center[j] + range,
                    cell0.len() == D,
                    forall|x: usize|
                        #[trigger] out@.contains(x) <==> (out0.contains(x) || (exclude != Some(x)
                            && exists|c: Seq<int>|
                            in_block(c, cell0, axis as int, ctr, range as int) && c[axis as int] < v
                                && #[trigger] self@.contains((c, x)))),
                    self.ids_distinct() ==> out@.no_duplicates(),
                    self.ids_distinct() ==> forall|x: usize, c: Seq<int>|
                        #[trigger] out@.contains(x) && exclude != Some(x) && in_block(
                            c,
                            cell0,
                            axis as int,
                            ctr,
                            range as int,
                        ) && c[axis as int] >= v ==> !#[trigger] self@.contains((c, x)),
                decreases hi + 1 - v,
            {
                cell[axis] = v;
                let ghost cv = coords(*cell);
                let ghost out1 = out@;
                proof {
                    assert forall|c: Seq<int>| in_block(c, cv, axis + 1, ctr, range as int) implies (in_block(c, cell0, axis as int, ctr, range as int) && c[axis as int] == v) by {
                        assert(c[axis as int] == cv[axis as int]);
                    }
                    if self.ids_distinct() {
                        assert forall|x: usize| #[trigger] out1.contains(x) implies !block_has(self@, cv, axis + 1, ctr, range as int, exclude, x) by {
                            if block_has(self@, cv, axis + 1, ctr, range as int, exclude, x) {
                                let c = choose|c: Seq<int>| in_block(c, cv, axis + 1, ctr, range as int) && #[trigger] self@.contains((c, x));
                                assert(in_block(c, cell0, axis as int, ctr, range as int) && c[axis as int] == v);
                            }
                        }
                    }
                }
                self.collect_block(center, range, axis + 1, cell, exclude, out);
                proof {
                    assert forall|c: Seq<int>| in_block(c, cv, axis + 1, ctr, range as int) <==> (in_block(c, cell0, axis as int, ctr, range as int) && c[axis as int] == v) by {
                        if in_block(c, cv, axis + 1, ctr, range as int) {
                            assert(c[axis as int] == cv[axis as int]);
                        }
                        if in_block(c, cell0, axis as int, ctr, range as int) && c[axis as int] == v {
                            assert forall|j: int| 0 <= j < axis + 1 implies #[trigger] c[j] == cv[j] by {
                                if j < axis {
                                    assert(c[j] == cell0[j]);
                                }
                            }
                        }
                    }
                    assert forall|x: usize|
                        #[trigger] out@.contains(x) <==> (out0.contains(x) || (exclude != Some(x)
                            && exists|c: Seq<int>|
                            in_block(c, cell0, axis as int, ctr, range as int) && c[axis as int] < v + 1
                                && #[trigger] self@.contains((c, x)))) by {
                        if exists|c: Seq<int>| in_block(c, cell0, axis as int, ctr, range as int) && c[axis as int] < v + 1 && #[trigger] self@.contains((c, x)) {
                            let c = choose|c: Seq<int>| in_block(c, cell0, axis as int, ctr, range as int) && c[axis as int] < v + 1 && #[trigger] self@.contains((c, x));
                            if c[axis as int] == v {
                                assert(in_block(c, cv, axis + 1, ctr, range as int));
                            }
                        }
                        if block_has(self@, cv, axis + 1, ctr, range as int, exclude, x) {
                            let c = choose|c: Seq<int>| in_block(c, cv, axis + 1, ctr, range as int) && #[trigger] self@.contains((c, x));
                            assert(in_block(c, cell0, axis as int, ctr, range as int) && c[axis as int] < v + 1);
                        }
                    }
                    if self.ids_distinct() {
                        assert forall|x: usize, c: Seq<int>|
                            #[trigger] out@.contains(x) && exclude != Some(x) && in_block(
                                c,
                                cell0,
                                axis as int,
                                ctr,
                                range as int,
                            ) && c[axis as int] >= v + 1 implies !#[trigger] self@.contains((c, x)) by {
                            if self@.contains((c, x)) && !out1.contains(x) {
                                assert(block_has(self@, cv, axis + 1, ctr, range as int, exclude, x));
                                let c2 = choose|c2: Seq<int>| in_block(c2, cv, axis + 1, ctr, range as int) && #[trigger] self@.contains((c2, x));
                                assert(c2[axis as int] == cv[axis as int]);
                                assert(c2 == c);
                            }
                        }
                    }
                }
                v = v + 1;
            }
            proof {
                assert forall|x: usize| #[trigger] out@.contains(x) <==> (out0.contains(x) || block_has(self@, cell0, axis as int, ctr, range as int, exclude, x)) by {
                    if block_has(self@, cell0, axis as int, ctr, range as int, exclude, x) {
                        let c = choose|c: Seq<int>| in_block(c, cell0, axis as int, ctr, range as int) && #[trigger] self@.contains((c, x));
                        assert(c[axis as int] < v);
                    }
                }
            }
        }
    }

    /// The ids recorded in the block of cells around the one holding
    /// `position` (3 x 3 in two dimensions, 3 x 3 x 3 in three), without `id`.
    pub fn get_nearby_objects(&self, position: &[i64; D], id: usize) -> (r: Vec<usize>)
        requires
            self.wf(),
            within(*position, POSITION_LIMIT as int),
        ensures
            forall|x: usize|
                #[trigger] r@.contains(x) <==> is_nearby(
                    self@,
                    cell_of(*position, self.spec_cell_size()),
                    1,
                    Some(id),
                    x,
                ),
            self.ids_distinct() ==> r@.no_duplicates(),
    {
        self.nearby(position, 1, Some(id))
    }

    /// The ids recorded in the cells within `ceil(range / cell_size)` cells of
    /// the one holding `position`, on every axis.
    pub fn get_nearby_objects_in_range(&self, position: &[i64; D], range: i64) -> (r: Vec<usize>)
        requires
            self.wf(),
            within(*position, POSITION_LIMIT as int),
            0 <= range <= POSITION_LIMIT,
        ensures
            forall|x: usize|
                #[trigger] r@.contains(x) <==> is_nearby(
                    self@,
                    cell_of(*position, self.spec_cell_size()),
                    div_away(range as int, self.spec_cell_size()),
                    None,
                    x,
                ),
            self.ids_distinct() ==> r@.no_duplicates(),
    {
        let range_cells = (range + self.cell_size - 1) / self.cell_size;
        proof {
            vstd::arithmetic::div_mod::lemma_div_is_ordered_by_denominator(
                range + self.cell_size - 1,
                1,
                self.cell_size as int,
            );
            assert(range + self.cell_size - 1 <= 2 * POSITION_LIMIT);
        }
        self.nearby(position, range_cells, None)
    }

    fn nearby(&self, position: &[i64; D], range_cells: i64, exclude: Option<usize>) -> (r: Vec<usize>)
        requires
            self.wf(),
            within(*position, POSITION_LIMIT as int),
            0 <= range_cells <= 2 * POSITION_LIMIT,
        ensures
            forall|x: usize|
                #[trigger] r@.contains(x) <==> is_nearby(
                    self@,
                    cell_of(*position, self.spec_cell_size()),
                    range_cells as int,
                    exclude,
                    x,
                ),
            self.ids_distinct() ==> r@.no_duplicates(),
    {
        let center = self.to_cell_coords(position);
        let mut cell = center;
        let mut out: Vec<usize> = Vec::new();
        let range = if range_cells > 2 * CELL_LIMIT {
            2 * CELL_LIMIT
        } else {
            range_cells
        };
        assert(within(center, CELL_LIMIT as int)) by {
            assert forall|j: int| 0 <= j < D implies -CELL_LIMIT <= #[trigger] center[j] <= CELL_LIMIT by {
                assert(coords(center)[j] == center[j]);
            }
        }
        self.collect_block(&center, range, 0, &mut cell, exclude, &mut out);
        proof {
            let ctr = coords(center);
            assert forall|x: usize| #[trigger] out@.contains(x) <==> is_nearby(self@, ctr, range_cells as int, exclude, x) by {
                if is_nearby(self@, ctr, range_cells as int, exclude, x) {
                    let c = choose|c: Seq<int>| near_cell(c, ctr, range_cells as int) && #[trigger] self@.contains((c, x));
                    assert(self.entries@.contains((c, x)));
                    assert(valid_cell(c, D as int));
                    assert(in_block(c, ctr, 0, ctr, range as int));
                }
                if block_has(self@, ctr, 0, ctr, range as int, exclude, x) {
                    let c = choose|c: Seq<int>| in_block(c, ctr, 0, ctr, range as int) && #[trigger] self@.contains((c, x));
                    assert(near_cell(c, ctr, range_cells as int));
                }
            }
        }
        out
    }

    /// Forgets every inserted id.
    pub fn clear(&mut self)
        requires
            old(self).wf(),
        ensures
            final(self).wf(),
            final(self).spec_cell_size() == old(self).spec_cell_size(),
            final(self)@ == Set::<(Seq<int>, usize)>::empty(),
            forall|c: Seq<int>| #[trigger] final(self).bucket(c) == Seq::<usize>::empty(),
            final(self).ids_distinct(),
    {
        self.grid.clear();
        self.entries = Ghost(Set::empty());
    }

    /// The ids recorded in the cell that holds `position`, if any were.
    pub fn get_objects_in_cell(&self, position: &[i64; D]) -> (r: Option<&Vec<usize>>)
        requires
            self.wf(),
            within(*position, POSITION_LIMIT as int),
        ensures
            match r {
                Some(v) => v@.len() > 0 && v@ == self.bucket(
                    cell_of(*position, self.spec_cell_size()),
                ),
                None => self.bucket(cell_of(*position, self.spec_cell_size())) == Seq::<
                    usize,
                >::empty(),
            },
            forall|x: usize|
                self@.contains((cell_of(*position, self.spec_cell_size()), x)) <==> self.bucket(
                    cell_of(*position, self.spec_cell_size()),
                ).contains(x),
    {
        let cell = self.to_cell_coords(position);
        let key = Self::cell_key(&cell);
        proof {
            assert(coords(cell) == cell_of(*position, self.spec_cell_size()));
        }
        self.grid.get(&key)
    }
}

proof fn lemma_push_no_duplicates(s: Seq<usize>, x: usize)
    requires
        s.no_duplicates(),
        !s.contains(x),
    ensures
        s.push(x).no_duplicates(),
{
    let sq = s.push(x);
    assert forall|p: int, q: int| 0 <= p < sq.len() && 0 <= q < sq.len() && p != q implies sq[p]
        != sq[q] by {
        if p < s.len() && q < s.len() {
            assert(sq[p] == s[p] && sq[q] == s[q]);
        } else if p < s.len() {
            assert(s.contains(sq[p]));
        } else if q < s.len() {
            assert(s.contains(sq[q]));
        }
    }
}

proof fn lemma_push_contains(s: Seq<usize>, v: usize, x: usize)
    ensures
        s.push(v).contains(x) <==> (s.contains(x) || x == v),
{
    if s.contains(x) {
        let k = choose|k: int| 0 <= k < s.len() && s[k] == x;
        assert(s.push(v)[k] == x);
    }
    if x == v {
        assert(s.push(v)[s.len() as int] == x);
    }
    if s.push(v).contains(x) {
        let k = choose|k: int| 0 <= k < s.len() + 1 && s.push(v)[k] == x;
        if k < s.len() {
            assert(s[k] == x);
        }
    }
}

proof fn lemma_radix_pow_three()
    ensures
        radix_pow(3) < 0x1_0000_0000_0000_0000_0000_0000_0000_0000,
{
    reveal_with_fuel(radix_pow, 4);
    assert(radix_pow(1) == CELL_RADIX);
    assert(radix_pow(2) == 4_000_000_000_004_000_000_000_001);
    assert(radix_pow(3) == 8_000_000_000_012_000_000_000_006_000_000_000_001);
}

proof fn lemma_radix_pow_monotone(k: int, n: int)
    requires
        0 <= k <= n,
    ensures
        1 <= radix_pow(k) <= radix_pow(n),
    decreases n,
{
    if n > 0 {
        if k < n {
            lemma_radix_pow_monotone(k, n - 1);
        } else {
            lemma_radix_pow_monotone(0, n - 1);
        }
        assert(radix_pow(n - 1) <= radix_pow(n - 1) * CELL_RADIX) by (nonlinear_arith)
            requires
                radix_pow(n - 1) >= 1,
        ;
    }
}

} // verus!
