//! A moving average of the frame rate over a fixed window of samples.
use vstd::prelude::*;

verus! {

/// Number of frames the average spans.
pub const FPS_HISTORY_SIZE: usize = 60;

/// Sum of `s[a..b]`.
pub open spec fn sum_range(s: Seq<int>, a: int, b: int) -> int
    decreases b - a,
{
    if b <= a {
        0
    } else {
        sum_range(s, a, b - 1) + s[b - 1]
    }
}

/// The samples that the average spans: the last `FPS_HISTORY_SIZE` of
/// `samples`, or all of them while there are fewer.
pub open spec fn window_start(samples: Seq<int>) -> int {
    if samples.len() < FPS_HISTORY_SIZE {
        0
    } else {
        samples.len() - FPS_HISTORY_SIZE
    }
}

proof fn lemma_sum_range_front(s: Seq<int>, a: int, b: int)
    requires
        a < b,
    ensures
        sum_range(s, a, b) == s[a] + sum_range(s, a + 1, b),
    decreases b - a,
{
    if a + 1 < b {
        lemma_sum_range_front(s, a, b - 1);
        assert(sum_range(s, a + 1, b) == sum_range(s, a + 1, b - 1) + s[b - 1]);
    } else {
        assert(sum_range(s, a, a) == 0);
        assert(sum_range(s, a + 1, b) == 0);
    }
}

proof fn lemma_sum_range_bounds(s: Seq<int>, a: int, b: int, lo: int, hi: int)
    requires
        a <= b,
        forall|k: int| a <= k < b ==> lo <= #[trigger] s[k] <= hi,
    ensures
        (b - a) * lo <= sum_range(s, a, b) <= (b - a) * hi,
    decreases b - a,
{
    if a < b {
        lemma_sum_range_bounds(s, a, b - 1, lo, hi);
        assert(lo <= s[b - 1] <= hi);
        assert((b - a) * lo == (b - 1 - a) * lo + lo) by (nonlinear_arith);
        assert((b - a) * hi == (b - 1 - a) * hi + hi) by (nonlinear_arith);
    } else {
        assert((b - a) * lo == 0 && (b - a) * hi == 0) by (nonlinear_arith)
            requires
                a == b,
        ;
    }
}

proof fn lemma_sum_range_push(s: Seq<int>, x: int, a: int, b: int)
    requires
        0 <= a <= b <= s.len(),
    ensures
        sum_range(s.push(x), a, b) == sum_range(s, a, b),
    decreases b - a,
{
    if a < b {
        lemma_sum_range_push(s, x, a, b - 1);
    }
}

/// A moving average of the frame rate over the last `FPS_HISTORY_SIZE`
/// samples, kept in a ring buffer.
pub struct SmoothedFps {
    history: Vec<i32>,
    index: usize,
    sum: i64,
    count: usize,
    samples: Ghost<Seq<int>>,
}

impl View for SmoothedFps {
    type V = Seq<int>;

    /// Every sample recorded so far, oldest first.
    closed spec fn view(&self) -> Seq<int> {
        self.samples@
    }
}

impl SmoothedFps {
    pub closed spec fn wf(&self) -> bool {
        let n = self.samples@.len() as int;
        &&& self.history@.len() == FPS_HISTORY_SIZE
        &&& self.index == n % (FPS_HISTORY_SIZE as int)
        &&& self.count == n - window_start(self.samples@)
        &&& forall|m: int|
            window_start(self.samples@) <= m < n ==> #[trigger] self.samples@[m]
                == self.history@[m % (FPS_HISTORY_SIZE as int)] as int
        &&& forall|m: int| 0 <= m < n ==> i32::MIN <= #[trigger] self.samples@[m] <= i32::MAX
        &&& self.sum == sum_range(self.samples@, window_start(self.samples@), n)
    }

    /// Number of samples in the window.
    pub open spec fn spec_count(&self) -> int {
        self@.len() - window_start(self@)
    }

    /// Sum of the samples in the window.
    pub open spec fn spec_sum(&self) -> int {
        sum_range(self@, window_start(self@), self@.len() as int)
    }

    /// An average with no samples yet.
    pub fn new() -> (r: Self)
        ensures
            r.wf(),
            r@ == Seq::<int>::empty(),
    {
        let mut history: Vec<i32> = Vec::new();
        let mut i: usize = 0;
        while i < FPS_HISTORY_SIZE
            invariant
                i <= FPS_HISTORY_SIZE,
                history@.len() == i,
            decreases FPS_HISTORY_SIZE - i,
        {
            history.push(0);
            i = i + 1;
        }
        SmoothedFps { history, index: 0, sum: 0, count: 0, samples: Ghost(Seq::empty()) }
    }

    /// Records one frame-rate sample; the oldest one leaves the window once
    /// it is full.
    pub fn update(&mut self, fps: i32)
        requires
            old(self).wf(),
        ensures
            final(self).wf(),
            final(self)@ == old(self)@.push(fps as int),
    {
        let ghost s0 = self.samples@;
        let ghost n = s0.len() as int;
        let ghost s1 = s0.push(fps as int);
        proof {
            lemma_sum_range_push(s0, fps as int, window_start(s0), n);
            lemma_sum_range_bounds(s0, window_start(s0), n as int, i32::MIN as int, i32::MAX as int);
        }
        if self.count < FPS_HISTORY_SIZE {
            self.count = self.count + 1;
            assert(window_start(s1) == window_start(s0));
        } else {
            let old_sample = self.history[self.index];
            proof {
                let w = window_start(s0);
                assert(w == n - 60);
                assert(w % 60 == n % 60) by {
                    vstd::arithmetic::div_mod::lemma_mod_sub_multiples_vanish(n as int, 60);
                }
                assert(s0[w] == old_sample);
                lemma_sum_range_front(s1, w, n + 1);
                assert(window_start(s1) == w + 1);
            }
            self.sum = self.sum - old_sample as i64;
        }
        self.sum = self.sum + fps as i64;
        self.history.set(self.index, fps);
        self.index = (self.index + 1) % FPS_HISTORY_SIZE;
        self.samples = Ghost(s1);
        proof {
            assert((n + 1) % 60 == (n % 60 + 1) % 60) by {
                vstd::arithmetic::div_mod::lemma_add_mod_noop(n as int, 1, 60);
            }
            assert forall|m: int| window_start(s1) <= m < n + 1 implies #[trigger] s1[m]
                == self.history@[m % (FPS_HISTORY_SIZE as int)] as int by {
                if m < n {
                    lemma_mod_distinct_close(m, n as int);
                }
            }
        }
    }

    /// The average in hundredths, rounded down; zero before any sample.
    pub fn get_average(&self) -> (r: i64)
        requires
            self.wf(),
        ensures
            self.spec_count() == 0 ==> r == 0,
            self.spec_count() > 0 ==> r == (self.spec_sum() * 100) / self.spec_count(),
    {
        proof {
            lemma_sum_range_bounds(
                self.samples@,
                window_start(self.samples@),
                self.samples@.len() as int,
                i32::MIN as int,
                i32::MAX as int,
            );
        }
        if self.count == 0 {
            0
        } else {
            let scaled: i64 = self.sum * 100;
            let c = self.count as i64;
            if scaled >= 0 {
                scaled / c
            } else {
                let q = (-scaled + c - 1) / c;
                proof {
                    crate::arith::lemma_floor_of_negative(scaled as int, c as int);
                }
                -q
            }
        }
    }

    /// Whether the average lies below `target`; with no samples it counts as
    /// zero.
    pub fn is_below(&self, target: i32) -> (r: bool)
        requires
            self.wf(),
        ensures
            r == (if self.spec_count() == 0 {
                0 < target
            } else {
                self.spec_sum() < target * self.spec_count()
            }),
    {
        if self.count == 0 {
            0 < target
        } else {
            proof {
                lemma_sum_range_bounds(
                    self.samples@,
                    window_start(self.samples@),
                    self.samples@.len() as int,
                    i32::MIN as int,
                    i32::MAX as int,
                );
            }
            assert(0 < self.count <= 60);
            assert(i32::MIN * 60 <= (target as i64) * (self.count as i64) <= i32::MAX * 60)
                by (nonlinear_arith)
                requires
                    0 < self.count <= 60,
                    i32::MIN <= target <= i32::MAX,
            ;
            self.sum < (target as i64) * (self.count as i64)
        }
    }

    /// Whether the average lies above `bound`; with no samples it counts as
    /// zero.
    pub fn is_above(&self, bound: i64) -> (r: bool)
        requires
            self.wf(),
            2 * (i32::MIN as int) <= bound <= 2 * (i32::MAX as int),
        ensures
            r == (if self.spec_count() == 0 {
                0 > bound
            } else {
                self.spec_sum() > bound * self.spec_count()
            }),
    {
        if self.count == 0 {
            0 > bound
        } else {
            proof {
                lemma_sum_range_bounds(
                    self.samples@,
                    window_start(self.samples@),
                    self.samples@.len() as int,
                    i32::MIN as int,
                    i32::MAX as int,
                );
            }
            assert(0 < self.count <= 60);
            assert(2 * (i32::MIN as int) * 60 <= bound * (self.count as i64) <= 2 * (i32::MAX as int) * 60)
                by (nonlinear_arith)
                requires
                    0 < self.count <= 60,
                    2 * (i32::MIN as int) <= bound <= 2 * (i32::MAX as int),
            ;
            self.sum > bound * (self.count as i64)
        }
    }
}

/// Distinct indices less than a window apart fall in distinct ring slots.
proof fn lemma_mod_distinct_close(m: int, n: int)
    requires
        n - 60 < m < n,
        0 <= m,
    ensures
        m % 60 != n % 60,
{
    vstd::arithmetic::div_mod::lemma_fundamental_div_mod(m, 60);
    vstd::arithmetic::div_mod::lemma_fundamental_div_mod(n, 60);
    if m % 60 == n % 60 {
        assert(60 * (n / 60) - 60 * (m / 60) == n - m);
        assert(0 < n - m < 60);
        if n / 60 <= m / 60 {
        assert(60 * (n / 60) <= 60 * (m / 60)) by (nonlinear_arith)
            requires
                n / 60 <= m / 60,
        ;
    } else {
        assert(60 * (n / 60) >= 60 * (m / 60) + 60) by (nonlinear_arith)
            requires
                n / 60 >= m / 60 + 1,
        ;
        }
    }
}

} // verus!
