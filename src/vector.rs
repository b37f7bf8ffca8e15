//! Component-wise arithmetic on fixed-arity coordinate arrays.
use vstd::prelude::*;
use crate::arith::POSITION_LIMIT;

verus! {

/// Sum of `u[j] * v[j]` over the first `k` components.
pub open spec fn dot_prefix(u: Seq<int>, v: Seq<int>, k: int) -> int
    decreases k,
{
    if k <= 0 {
        0
    } else {
        dot_prefix(u, v, k - 1) + u[k - 1] * v[k - 1]
    }
}

/// Dot product of two vectors of equal length.
pub open spec fn dot(u: Seq<int>, v: Seq<int>) -> int {
    dot_prefix(u, v, u.len() as int)
}

/// Squared Euclidean length.
pub open spec fn norm_sq(u: Seq<int>) -> int {
    dot(u, u)
}

/// The components of a coordinate array as integers.
pub open spec fn coords<const D: usize>(p: [i64; D]) -> Seq<int> {
    Seq::new(D as nat, |j: int| p[j] as int)
}

/// The vector from `p` to `q`.
pub open spec fn offset<const D: usize>(p: [i64; D], q: [i64; D]) -> Seq<int> {
    Seq::new(D as nat, |j: int| q[j] - p[j])
}

/// Squared Euclidean distance between two points.
pub open spec fn dist_sq<const D: usize>(p: [i64; D], q: [i64; D]) -> int {
    norm_sq(offset(p, q))
}

/// Every component lies within `[-limit, limit]`.
pub open spec fn within<const D: usize>(p: [i64; D], limit: int) -> bool {
    forall|j: int| 0 <= j < D ==> -limit <= #[trigger] p[j] <= limit
}

pub proof fn lemma_norm_prefix_nonneg(u: Seq<int>, k: int)
    ensures
        dot_prefix(u, u, k) >= 0,
    decreases k,
{
    if k > 0 {
        lemma_norm_prefix_nonneg(u, k - 1);
        assert(u[k - 1] * u[k - 1] >= 0) by (nonlinear_arith);
    }
}

/// One squared component never exceeds the squared length.
pub proof fn lemma_component_sq_le_norm(u: Seq<int>, k: int, j: int)
    requires
        0 <= j < k,
    ensures
        u[j] * u[j] <= dot_prefix(u, u, k),
    decreases k,
{
    if j < k - 1 {
        lemma_component_sq_le_norm(u, k - 1, j);
        assert(u[k - 1] * u[k - 1] >= 0) by (nonlinear_arith);
    } else {
        lemma_norm_prefix_nonneg(u, k - 1);
    }
}

/// Growing every component in magnitude grows the squared length; growing one
/// strictly grows it strictly.
pub proof fn lemma_norm_prefix_monotone(u: Seq<int>, v: Seq<int>, k: int)
    requires
        forall|j: int| 0 <= j < k ==> u[j] * u[j] <= #[trigger] (v[j] * v[j]),
    ensures
        dot_prefix(u, u, k) <= dot_prefix(v, v, k),
        (exists|j: int| 0 <= j < k && u[j] * u[j] < #[trigger] (v[j] * v[j])) ==> dot_prefix(u, u, k)
            < dot_prefix(v, v, k),
    decreases k,
{
    if k > 0 {
        lemma_norm_prefix_monotone(u, v, k - 1);
        assert(u[k - 1] * u[k - 1] <= v[k - 1] * v[k - 1]);
        if exists|j: int| 0 <= j < k && u[j] * u[j] < #[trigger] (v[j] * v[j]) {
            let j = choose|j: int| 0 <= j < k && u[j] * u[j] < #[trigger] (v[j] * v[j]);
            if j < k - 1 {
                assert(exists|j: int| 0 <= j < k - 1 && u[j] * u[j] < #[trigger] (v[j] * v[j]));
            }
        }
    }
}

/// Raising every term `u[j] * v[j]` raises the sum.
pub proof fn lemma_dot_prefix_monotone(u: Seq<int>, u2: Seq<int>, v: Seq<int>, k: int)
    requires
        forall|j: int| 0 <= j < k ==> u[j] * v[j] <= #[trigger] (u2[j] * v[j]),
    ensures
        dot_prefix(u, v, k) <= dot_prefix(u2, v, k),
    decreases k,
{
    if k > 0 {
        lemma_dot_prefix_monotone(u, u2, v, k - 1);
        assert(u[k - 1] * v[k - 1] <= u2[k - 1] * v[k - 1]);
    }
}

/// A vector with a positive squared length has a non-zero component.
pub proof fn lemma_nonzero_component(u: Seq<int>, k: int)
    requires
        dot_prefix(u, u, k) != 0,
    ensures
        exists|j: int| 0 <= j < k && #[trigger] u[j] != 0,
    decreases k,
{
    if k > 0 {
        if u[k - 1] != 0 {
            assert(u[k - 1] != 0);
        } else {
            assert(u[k - 1] * u[k - 1] == 0);
            lemma_nonzero_component(u, k - 1);
            let j = choose|j: int| 0 <= j < k - 1 && #[trigger] u[j] != 0;
            assert(0 <= j < k && u[j] != 0);
        }
    }
}

/// Scaling bound on squared lengths: termwise `t^2 * a <= v^2 * b` gives the
/// same for the sums.
pub proof fn lemma_scaled_norm(t: Seq<int>, v: Seq<int>, k: int, a: int, b: int)
    requires
        forall|j: int| 0 <= j < k ==> #[trigger] (t[j] * t[j]) * a <= (v[j] * v[j]) * b,
    ensures
        dot_prefix(t, t, k) * a <= dot_prefix(v, v, k) * b,
    decreases k,
{
    if k > 0 {
        lemma_scaled_norm(t, v, k - 1, a, b);
        let pt = dot_prefix(t, t, k - 1);
        let pv = dot_prefix(v, v, k - 1);
        let x = t[k - 1] * t[k - 1];
        let y = v[k - 1] * v[k - 1];
        assert(x * a <= y * b);
        assert((pt + x) * a <= (pv + y) * b) by (nonlinear_arith)
            requires
                pt * a <= pv * b,
                x * a <= y * b,
        ;
    } else {
        assert(0 * a <= 0 * b) by (nonlinear_arith);
    }
}

/// Replacing component `m` by `x` changes the squared length by
/// `x^2 - u[m]^2`.
pub proof fn lemma_norm_update(u: Seq<int>, m: int, x: int, k: int)
    requires
        0 <= m < k <= u.len(),
    ensures
        dot_prefix(u.update(m, x), u.update(m, x), k) == dot_prefix(u, u, k) - u[m] * u[m] + x * x,
    decreases k,
{
    let w = u.update(m, x);
    if k - 1 > m {
        lemma_norm_update(u, m, x, k - 1);
        assert(w[k - 1] == u[k - 1]);
    } else {
        lemma_prefix_unchanged(u, w, m);
    }
}

proof fn lemma_prefix_unchanged(u: Seq<int>, w: Seq<int>, k: int)
    requires
        0 <= k,
        forall|j: int| 0 <= j < k ==> #[trigger] u[j] == w[j],
    ensures
        dot_prefix(u, u, k) == dot_prefix(w, w, k),
    decreases k,
{
    if k > 0 {
        lemma_prefix_unchanged(u, w, k - 1);
    }
}

/// Squared distance between two points, computed exactly.
pub fn distance_sq<const D: usize>(p: &[i64; D], q: &[i64; D]) -> (r: u128)
    requires
        D <= 3,
        within(*p, POSITION_LIMIT as int),
        within(*q, POSITION_LIMIT as int),
    ensures
        r == dist_sq(*p, *q),
        r <= 12_000_000_000_000_000_000_000_000,
{
    let mut acc: u128 = 0;
    let mut i: usize = 0;
    while i < D
        invariant
            i <= D <= 3,
            within(*p, POSITION_LIMIT as int),
            within(*q, POSITION_LIMIT as int),
            acc == dot_prefix(offset(*p, *q), offset(*p, *q), i as int),
            acc <= i * 4_000_000_000_000_000_000_000_000,
        decreases D - i,
    {
        let d: i128 = q[i] as i128 - p[i] as i128;
        assert(0 <= d * d <= 4_000_000_000_000_000_000_000_000) by (nonlinear_arith)
            requires
                -2_000_000_000_000 <= d <= 2_000_000_000_000,
        ;
        let sq: i128 = d * d;
        acc = acc + sq as u128;
        i = i + 1;
    }
    acc
}

} // verus!
