//! Incremental moving statistics over a circular track, plus whole-block
//! batch aggregates.

use vstd::prelude::*;
use crate::ring::{ring_seq, ring_cap, ring_new, ring_push, ring_get, ring_len};

verus! {

/// Largest block length (and so window length) the engine accepts; keeps
/// every numerator comfortably inside `i128`.
pub const MAX_INTERVAL: usize = 4096;

/// Largest magnitude, in sample units, a sample may carry.
pub const MAG_LIMIT: i128 = 16777216;

/// Largest numerator or denominator accepted for a threshold or weight ratio.
pub const RATIO_LIMIT: i128 = 32768;

/// What a failed operation reports.
#[derive(Clone, Copy, PartialEq, Eq, Structural, Debug)]
pub enum StatsError {
    /// The window length is below two or exceeds the buffer it slides over.
    InvalidConfiguration,
    /// A block's length differs from the configured processing interval.
    BlockSizeMismatch,
    /// A whole-block aggregate was asked of an empty block.
    NoData,
    /// A track entry was read before that many entries were computed.
    UninitializedAccess,
}

/// An exact fraction `num / den`; denominators are always positive.
#[derive(Clone, Copy, PartialEq, Eq, Structural, Debug)]
pub struct Ratio {
    pub num: i128,
    pub den: i128,
}

/// Whether one magnitude, in sample units, is in range.
pub open spec fn sample_ok(x: i128) -> bool {
    0 <= x <= MAG_LIMIT
}

/// Whether every magnitude of a block is in range.
pub open spec fn samples_ok(s: Seq<i128>) -> bool {
    forall|i: int| 0 <= i < s.len() ==> sample_ok(s[i])
}

/// Sum of the `w` elements of `s` ending at `end`, as a mathematical integer.
pub open spec fn win_sum(s: Seq<i128>, end: int, w: nat) -> int
    decreases w,
{
    if w == 0 {
        0
    } else {
        win_sum(s, end - 1, (w - 1) as nat) + s[end]
    }
}

/// Maximum of the `w` elements of `s` ending at `end` (`w` at least one).
pub open spec fn win_max(s: Seq<i128>, end: int, w: nat) -> int
    decreases w,
{
    if w <= 1 {
        s[end] as int
    } else {
        let m = win_max(s, end - 1, (w - 1) as nat);
        if s[end] > m { s[end] as int } else { m }
    }
}

/// Squared deviation of the sample `x` from the average with numerator `a`
/// over denominator `w`, as a numerator over `w * w`.
pub open spec fn dev_sq(a: int, x: int, w: nat) -> int {
    (a - w * x) * (a - w * x)
}

/// The value the average track holds at position `i` after seeding from
/// `data`: the sum (numerator over `w`) of the first window for the
/// positions that lack a full trailing window, then the trailing window sum.
pub open spec fn seed_avg(data: Seq<i128>, i: int, w: nat) -> int {
    if i < w {
        win_sum(data, w - 1, w)
    } else {
        win_sum(data, i, w)
    }
}

/// Sum of `cnt` squared deviations ending at position `end`, each taken
/// against the seeded average at its own position (numerator over `w * w`).
pub open spec fn seed_dev_sum(data: Seq<i128>, end: int, cnt: nat, w: nat) -> int
    decreases cnt,
{
    if cnt == 0 {
        0
    } else {
        seed_dev_sum(data, end - 1, (cnt - 1) as nat, w)
            + dev_sq(seed_avg(data, end, w), data[end] as int, w)
    }
}

/// The value the variance track holds at position `i` after seeding from
/// `data` (numerator over `w` cubed): a running sum of squared deviations
/// while the window fills, then — through the incremental update — the sum
/// over the trailing window.
pub open spec fn seed_var(data: Seq<i128>, i: int, w: nat) -> int {
    if i < w {
        seed_dev_sum(data, i, (i + 1) as nat, w)
    } else {
        seed_dev_sum(data, i, w, w)
    }
}

/// The value the maximum track holds at position `i` after seeding from
/// `data`: the first window's maximum replicated while the window fills,
/// then the trailing window maximum.
pub open spec fn seed_max(data: Seq<i128>, i: int, w: nat) -> int {
    if i < w {
        win_max(data, w - 1, w)
    } else {
        win_max(data, i, w)
    }
}

/// Sliding a window one step to the right changes its sum by the entering
/// element minus the leaving one: the incremental mean update is exact.
pub proof fn lemma_win_sum_shift(s: Seq<i128>, e: int, w: nat)
    requires
        w >= 1,
    ensures
        win_sum(s, e, w) == win_sum(s, e - 1, w) + s[e] - s[e - w],
    decreases w,
{
    if w == 1 {
        assert(win_sum(s, e, 1) == win_sum(s, e - 1, 0) + s[e]);
        assert(win_sum(s, e - 1, 1) == win_sum(s, e - 2, 0) + s[e - 1]);
    } else {
        lemma_win_sum_shift(s, e - 1, (w - 1) as nat);
        assert(win_sum(s, e, w) == win_sum(s, e - 1, (w - 1) as nat) + s[e]);
        assert(win_sum(s, e - 1, w) == win_sum(s, e - 2, (w - 1) as nat) + s[e - 1]);
    }
}

/// A window sum of in-range samples lies between zero and `w * MAG_LIMIT`.
pub proof fn lemma_win_sum_bounds(s: Seq<i128>, e: int, w: nat)
    requires
        samples_ok(s),
        w <= e + 1,
        e < s.len(),
    ensures
        0 <= win_sum(s, e, w) <= w * MAG_LIMIT,
    decreases w,
{
    if w > 0 {
        lemma_win_sum_bounds(s, e - 1, (w - 1) as nat);
    }
}

/// A window sum only reads the window: sequences that agree there agree on it.
pub proof fn lemma_win_sum_agree(s: Seq<i128>, t: Seq<i128>, e: int, w: nat)
    requires
        forall|j: int| e + 1 - w <= j <= e ==> s[j] == t[j],
    ensures
        win_sum(s, e, w) == win_sum(t, e, w),
    decreases w,
{
    if w > 0 {
        lemma_win_sum_agree(s, t, e - 1, (w - 1) as nat);
    }
}

/// Sum of `cnt` squared deviations from one fixed average numerator `s`
/// (denominator `n`), ending at position `end`: the batch-variance numerator.
pub open spec fn batch_dev_sum(data: Seq<i128>, s: int, end: int, cnt: nat, n: nat) -> int
    decreases cnt,
{
    if cnt == 0 {
        0
    } else {
        batch_dev_sum(data, s, end - 1, (cnt - 1) as nat, n) + dev_sq(s, data[end] as int, n)
    }
}

/// Largest squared deviation a window of width `w` can produce.
pub open spec fn dev_limit(w: nat) -> int {
    (w * MAG_LIMIT) * (w * MAG_LIMIT)
}

/// Largest variance numerator a window of width `w` can produce.
pub open spec fn var_limit(w: nat) -> int {
    w * dev_limit(w)
}

/// Squares are monotone on the non-negatives.
pub proof fn lemma_sq_mono(u: int, v: int)
    by (nonlinear_arith)
    requires
        0 <= u <= v,
    ensures
        u * u <= v * v,
{
}

/// The squared difference of two values of `[0, c]` lies in `[0, c * c]`.
pub proof fn lemma_sq_bound(a: int, b: int, c: int)
    by (nonlinear_arith)
    requires
        0 <= a <= c,
        0 <= b <= c,
    ensures
        0 <= (a - b) * (a - b) <= c * c,
{
}

/// A product of non-negative factors is bounded by the product of bounds.
pub proof fn lemma_mul_range(a: int, b: int, la: int, lb: int)
    by (nonlinear_arith)
    requires
        0 <= a <= la,
        0 <= b <= lb,
    ensures
        0 <= a * b <= la * lb,
{
}

/// Sliding the deviation window one step changes its sum by the entering
/// squared deviation minus the leaving one: the incremental variance update
/// is exact once the window has filled.
pub proof fn lemma_dev_sum_shift(data: Seq<i128>, e: int, cnt: nat, w: nat)
    requires
        cnt >= 1,
    ensures
        seed_dev_sum(data, e, cnt, w) == seed_dev_sum(data, e - 1, cnt, w)
            + dev_sq(seed_avg(data, e, w), data[e] as int, w)
            - dev_sq(seed_avg(data, e - cnt, w), data[e - cnt] as int, w),
    decreases cnt,
{
    if cnt == 1 {
        assert(seed_dev_sum(data, e, 1, w) == seed_dev_sum(data, e - 1, 0, w)
            + dev_sq(seed_avg(data, e, w), data[e] as int, w));
        assert(seed_dev_sum(data, e - 1, 1, w) == seed_dev_sum(data, e - 2, 0, w)
            + dev_sq(seed_avg(data, e - 1, w), data[e - 1] as int, w));
    } else {
        lemma_dev_sum_shift(data, e - 1, (cnt - 1) as nat, w);
        assert(seed_dev_sum(data, e, cnt, w) == seed_dev_sum(data, e - 1, (cnt - 1) as nat, w)
            + dev_sq(seed_avg(data, e, w), data[e] as int, w));
        assert(seed_dev_sum(data, e - 1, cnt, w) == seed_dev_sum(data, e - 2, (cnt - 1) as nat, w)
            + dev_sq(seed_avg(data, e - 1, w), data[e - 1] as int, w));
    }
}

/// A seeded deviation sum over in-range samples is non-negative and bounded.
pub proof fn lemma_dev_sum_bounds(data: Seq<i128>, e: int, cnt: nat, w: nat)
    requires
        samples_ok(data),
        1 <= w <= data.len(),
        cnt <= e + 1,
        e < data.len(),
    ensures
        0 <= seed_dev_sum(data, e, cnt, w) <= cnt * dev_limit(w),
    decreases cnt,
{
    if cnt > 0 {
        lemma_dev_sum_bounds(data, e - 1, (cnt - 1) as nat, w);
        if e < w {
            lemma_win_sum_bounds(data, w - 1, w);
        } else {
            lemma_win_sum_bounds(data, e, w);
        }
        lemma_mul_range(w as int, data[e] as int, w as int, MAG_LIMIT as int);
        lemma_sq_bound(seed_avg(data, e, w), w * (data[e] as int), w * MAG_LIMIT);
        assert(cnt * dev_limit(w) == (cnt - 1) * dev_limit(w) + dev_limit(w))
            by (nonlinear_arith);
    }
}

/// A window sum is position-independent: windows that hold the same
/// elements, wherever they sit, sum alike.
pub proof fn lemma_win_sum_translate(a: Seq<i128>, b: Seq<i128>, ea: int, eb: int, w: nat)
    requires
        forall|k: int| 0 <= k < w ==> #[trigger] a[ea - k] == b[eb - k],
    ensures
        win_sum(a, ea, w) == win_sum(b, eb, w),
    decreases w,
{
    if w > 0 {
        assert forall|k: int| 0 <= k < w - 1 implies #[trigger] a[ea - 1 - k] == b[eb - 1 - k] by {
            assert(a[ea - (k + 1)] == b[eb - (k + 1)]);
        }
        lemma_win_sum_translate(a, b, ea - 1, eb - 1, (w - 1) as nat);
        assert(a[ea - 0] == b[eb - 0]);
        assert(win_sum(a, ea, w) == win_sum(a, ea - 1, (w - 1) as nat) + a[ea]);
        assert(win_sum(b, eb, w) == win_sum(b, eb - 1, (w - 1) as nat) + b[eb]);
    }
}

/// A window maximum is position-independent in the same way.
pub proof fn lemma_win_max_translate(a: Seq<i128>, b: Seq<i128>, ea: int, eb: int, w: nat)
    requires
        w >= 1,
        forall|k: int| 0 <= k < w ==> #[trigger] a[ea - k] == b[eb - k],
    ensures
        win_max(a, ea, w) == win_max(b, eb, w),
    decreases w,
{
    if w <= 1 {
        assert(a[ea - 0] == b[eb - 0]);
    } else {
        assert forall|k: int| 0 <= k < w - 1 implies #[trigger] a[ea - 1 - k] == b[eb - 1 - k] by {
            assert(a[ea - (k + 1)] == b[eb - (k + 1)]);
        }
        lemma_win_max_translate(a, b, ea - 1, eb - 1, (w - 1) as nat);
        assert(a[ea - 0] == b[eb - 0]);
    }
}

/// The moving-average law: at every position with a full trailing window,
/// the seeded (and incrementally maintained) track value is exactly the
/// trailing window's sum, so the stored fraction over `w` is the direct
/// arithmetic mean of the `w` samples ending there.
pub proof fn lemma_moving_avg_is_window_mean(data: Seq<i128>, i: int, w: nat)
    requires
        2 <= w <= data.len(),
        w - 1 <= i < data.len(),
    ensures
        seed_avg(data, i, w) == win_sum(data, i, w),
{
}

/// A window maximum of in-range samples is itself in range.
pub proof fn lemma_win_max_bounds(s: Seq<i128>, e: int, w: nat)
    requires
        samples_ok(s),
        1 <= w <= e + 1,
        e < s.len(),
    ensures
        0 <= win_max(s, e, w) <= MAG_LIMIT,
    decreases w,
{
    if w > 1 {
        lemma_win_max_bounds(s, e - 1, (w - 1) as nat);
    }
}

/// The moving-statistics engine: one circular track per windowed statistic,
/// plus the whole-block scalar aggregates.
pub struct BufferStats {
    pub buffer_size: usize,
    pub window_size: usize,
    pub total_avg: Ratio,
    pub total_variance: Ratio,
    pub total_stdev: Ratio,
    pub moving_avg: ringbuffer::AllocRingBuffer<i128>,
    pub moving_variance: ringbuffer::AllocRingBuffer<i128>,
    pub moving_max: ringbuffer::AllocRingBuffer<i128>,
}

impl BufferStats {
    /// The average track: sums of trailing windows, numerators over `w`.
    pub open spec fn avgs(self) -> Seq<i128> {
        ring_seq(self.moving_avg)
    }

    /// The variance track: numerators over `w` cubed.
    pub open spec fn vars(self) -> Seq<i128> {
        ring_seq(self.moving_variance)
    }

    /// The maximum track, in sample units.
    pub open spec fn maxs(self) -> Seq<i128> {
        ring_seq(self.moving_max)
    }

    pub open spec fn w(self) -> nat {
        self.window_size as nat
    }

    /// Configuration well-formedness: a window of at least two that fits in
    /// the buffer, and tracks created with the buffer's capacity.
    pub open spec fn wf(self) -> bool {
        &&& 2 <= self.window_size
        &&& self.window_size <= self.buffer_size
        &&& self.buffer_size <= MAX_INTERVAL
        &&& ring_cap(self.moving_avg) == self.buffer_size
        &&& ring_cap(self.moving_variance) == self.buffer_size
        &&& ring_cap(self.moving_max) == self.buffer_size
    }

    /// Creates an engine for blocks of `buffer_len` samples and a window of
    /// `window_len`. A window below two or wider than the buffer is a
    /// configuration error, reported before anything is built.
    pub fn new(buffer_len: usize, window_len: usize) -> (r: Result<BufferStats, StatsError>)
        requires
            buffer_len <= MAX_INTERVAL,
        ensures
            r is Ok <==> 2 <= window_len <= buffer_len,
            r is Err ==> r == Result::<BufferStats, StatsError>::Err(StatsError::InvalidConfiguration),
            r is Ok ==> {
                let s = r.unwrap();
                &&& s.wf()
                &&& s.buffer_size == buffer_len
                &&& s.window_size == window_len
                &&& s.avgs().len() == 0
                &&& s.vars().len() == 0
                &&& s.maxs().len() == 0
                &&& s.total_avg == (Ratio { num: 0, den: 1 })
                &&& s.total_variance == (Ratio { num: 0, den: 1 })
                &&& s.total_stdev == (Ratio { num: 0, den: 1 })
            },
    {
        if window_len < 2 || window_len > buffer_len {
            return Err(StatsError::InvalidConfiguration);
        }
        Ok(BufferStats {
            buffer_size: buffer_len,
            window_size: window_len,
            total_avg: Ratio { num: 0, den: 1 },
            total_variance: Ratio { num: 0, den: 1 },
            total_stdev: Ratio { num: 0, den: 1 },
            moving_avg: ring_new(buffer_len),
            moving_variance: ring_new(buffer_len),
            moving_max: ring_new(buffer_len),
        })
    }

    /// Seeds the average track from the first block: the first window's mean
    /// for every position while the window fills, then the exact incremental
    /// update per position. Every entry ends up equal to the sum of the
    /// window ending at its position (`seed_avg`), which for positions from
    /// `window_size - 1` on is the direct trailing-window sum.
    pub fn init_moving_avg(&mut self, data: &Vec<i128>)
        requires
            old(self).wf(),
            old(self).avgs().len() == 0,
            data@.len() == old(self).buffer_size,
            samples_ok(data@),
        ensures
            final(self).wf(),
            final(self).buffer_size == old(self).buffer_size,
            final(self).window_size == old(self).window_size,
            final(self).total_avg == old(self).total_avg,
            final(self).total_variance == old(self).total_variance,
            final(self).total_stdev == old(self).total_stdev,
            final(self).vars() == old(self).vars(),
            final(self).maxs() == old(self).maxs(),
            final(self).avgs().len() == old(self).buffer_size,
            forall|i: int| 0 <= i < final(self).avgs().len()
                ==> final(self).avgs()[i] as int == seed_avg(data@, i, old(self).w()),
            forall|i: int| 0 <= i < final(self).avgs().len()
                ==> 0 <= #[trigger] final(self).avgs()[i] <= old(self).w() * MAG_LIMIT,
    {
        let w = self.window_size;
        let n = self.buffer_size;
        let mut acc: i128 = 0;
        let mut idx: usize = 0;
        while idx < w
            invariant
                idx <= w <= n == data@.len() <= MAX_INTERVAL,
                samples_ok(data@),
                acc == win_sum(data@, idx - 1, idx as nat),
                0 <= acc <= idx * MAG_LIMIT,
            decreases w - idx,
        {
            proof {
                lemma_win_sum_bounds(data@, idx as int, (idx + 1) as nat);
            }
            acc = acc + data[idx];
            idx = idx + 1;
        }
        let mut cur: i128 = acc;
        idx = 0;
        while idx < n
            invariant
                w == self.window_size,
                n == self.buffer_size,
                self.wf(),
                data@.len() == n,
                samples_ok(data@),
                self.vars() == old(self).vars(),
                self.maxs() == old(self).maxs(),
                self.total_avg == old(self).total_avg,
                self.total_variance == old(self).total_variance,
                self.total_stdev == old(self).total_stdev,
                self.avgs().len() == idx <= n,
                acc == win_sum(data@, w - 1, w as nat),
                cur == seed_avg(data@, idx - 1, w as nat) || idx == 0,
                idx == 0 ==> cur == acc,
                forall|i: int| 0 <= i < idx ==> self.avgs()[i] as int == seed_avg(data@, i, self.w()),
                forall|i: int| 0 <= i < idx ==> 0 <= #[trigger] self.avgs()[i] <= self.w() * MAG_LIMIT,
            decreases n - idx,
        {
            if idx < w {
                proof {
                    lemma_win_sum_bounds(data@, w - 1, w as nat);
                }
                cur = acc;
            } else {
                proof {
                    lemma_win_sum_shift(data@, idx as int, w as nat);
                    lemma_win_sum_bounds(data@, idx as int, w as nat);
                    lemma_win_sum_bounds(data@, idx - 1, w as nat);
                }
                cur = cur + data[idx] - data[idx - w];
            }
            ring_push(&mut self.moving_avg, cur);
            idx = idx + 1;
        }
    }

    /// Seeds the variance track from the first block, against the already
    /// seeded average track: a running sum of squared deviations while the
    /// window fills (these entries are approximate by design), then the
    /// incremental update per position, which equals the sum of the squared
    /// deviations over the trailing window.
    pub fn init_moving_variance(&mut self, data: &Vec<i128>)
        requires
            old(self).wf(),
            old(self).vars().len() == 0,
            data@.len() == old(self).buffer_size,
            samples_ok(data@),
            old(self).avgs().len() == old(self).buffer_size,
            forall|i: int| 0 <= i < old(self).avgs().len()
                ==> old(self).avgs()[i] as int == seed_avg(data@, i, old(self).w()),
        ensures
            final(self).wf(),
            final(self).buffer_size == old(self).buffer_size,
            final(self).window_size == old(self).window_size,
            final(self).total_avg == old(self).total_avg,
            final(self).total_variance == old(self).total_variance,
            final(self).total_stdev == old(self).total_stdev,
            final(self).avgs() == old(self).avgs(),
            final(self).maxs() == old(self).maxs(),
            final(self).vars().len() == old(self).buffer_size,
            forall|i: int| 0 <= i < final(self).vars().len()
                ==> final(self).vars()[i] as int == seed_var(data@, i, old(self).w()),
            forall|i: int| 0 <= i < final(self).vars().len()
                ==> 0 <= #[trigger] final(self).vars()[i] <= var_limit(old(self).w()),
    {
        let w = self.window_size;
        let n = self.buffer_size;
        let w128 = w as i128;
        let mut run: i128 = 0;
        let mut idx: usize = 0;
        while idx < n
            invariant
                w == self.window_size,
                n == self.buffer_size,
                self.wf(),
                data@.len() == n,
                samples_ok(data@),
                w128 == w as i128,
                self.avgs() == old(self).avgs(),
                self.maxs() == old(self).maxs(),
                self.total_avg == old(self).total_avg,
                self.total_variance == old(self).total_variance,
                self.total_stdev == old(self).total_stdev,
                self.avgs().len() == n,
                forall|i: int| 0 <= i < n
                    ==> self.avgs()[i] as int == seed_avg(data@, i, self.w()),
                self.vars().len() == idx <= n,
                forall|i: int| 0 <= i < idx
                    ==> self.vars()[i] as int == seed_var(data@, i, self.w()),
                forall|i: int| 0 <= i < idx
                    ==> 0 <= #[trigger] self.vars()[i] <= var_limit(self.w()),
                idx <= w ==> run == seed_dev_sum(data@, idx - 1, idx as nat, w as nat),
                idx <= w ==> 0 <= run <= idx * dev_limit(w as nat),
            decreases n - idx,
        {
            proof {
                lemma_win_sum_bounds(data@, if idx < w { w - 1 } else { idx as int }, w as nat);
                lemma_mul_range(w as int, data@[idx as int] as int, w as int, MAG_LIMIT as int);
                lemma_sq_bound(
                    seed_avg(data@, idx as int, w as nat),
                    w * (data@[idx as int] as int),
                    w * MAG_LIMIT,
                );
                lemma_sq_mono(w * MAG_LIMIT, MAX_INTERVAL * MAG_LIMIT);
                lemma_mul_range(w as int, dev_limit(w as nat), MAX_INTERVAL as int,
                    dev_limit(MAX_INTERVAL as nat));
            }
            if idx < w {
                let a = ring_get(&self.moving_avg, idx);
                proof {
                    assert(self.avgs()[idx as int] as int == seed_avg(data@, idx as int, self.w()));
                }
                proof {
                    lemma_dev_sum_bounds(data@, idx as int, (idx + 1) as nat, w as nat);
                    lemma_mul_range(idx as int, dev_limit(w as nat), MAX_INTERVAL as int,
                        dev_limit(MAX_INTERVAL as nat));
                    lemma_mul_range((idx + 1) as int, dev_limit(w as nat), w as int,
                        dev_limit(w as nat));
                }
                let d = a - w128 * data[idx];
                run = run + d * d;
                ring_push(&mut self.moving_variance, run);
            } else {
                let a_new = ring_get(&self.moving_avg, idx);
                let a_old = ring_get(&self.moving_avg, idx - w);
                let prev = ring_get(&self.moving_variance, idx - 1);
                proof {
                    assert(self.avgs()[idx as int] as int == seed_avg(data@, idx as int, self.w()));
                    assert(self.avgs()[idx - w] as int == seed_avg(data@, idx - w, self.w()));
                    assert(self.vars()[idx - 1] as int == seed_var(data@, idx - 1, self.w()));
                    lemma_win_sum_bounds(data@, if idx - w < w { w - 1 } else { (idx - w) as int },
                        w as nat);
                    lemma_mul_range(w as int, data@[idx - w] as int, w as int, MAG_LIMIT as int);
                    lemma_sq_bound(
                        seed_avg(data@, idx - w, w as nat),
                        w * (data@[idx - w] as int),
                        w * MAG_LIMIT,
                    );
                    lemma_dev_sum_shift(data@, idx as int, w as nat, w as nat);
                    lemma_dev_sum_bounds(data@, idx as int, w as nat, w as nat);
                }
                let dn = a_new - w128 * data[idx];
                let dold = a_old - w128 * data[idx - w];
                ring_push(&mut self.moving_variance, prev + dn * dn - dold * dold);
            }
            idx = idx + 1;
        }
    }

    /// Seeds the maximum track from the first block: the first window's
    /// maximum replicated while the window fills, then an exact re-scan of
    /// the trailing window per position.
    pub fn init_moving_max(&mut self, data: &Vec<i128>)
        requires
            old(self).wf(),
            old(self).maxs().len() == 0,
            data@.len() == old(self).buffer_size,
            samples_ok(data@),
        ensures
            final(self).wf(),
            final(self).buffer_size == old(self).buffer_size,
            final(self).window_size == old(self).window_size,
            final(self).total_avg == old(self).total_avg,
            final(self).total_variance == old(self).total_variance,
            final(self).total_stdev == old(self).total_stdev,
            final(self).avgs() == old(self).avgs(),
            final(self).vars() == old(self).vars(),
            final(self).maxs().len() == old(self).buffer_size,
            forall|i: int| 0 <= i < final(self).maxs().len()
                ==> final(self).maxs()[i] as int == seed_max(data@, i, old(self).w()),
            forall|i: int| 0 <= i < final(self).maxs().len()
                ==> 0 <= #[trigger] final(self).maxs()[i] <= MAG_LIMIT,
    {
        let w = self.window_size;
        let n = self.buffer_size;
        let mut m: i128 = data[0];
        let mut idx: usize = 1;
        while idx < w
            invariant
                1 <= idx <= w <= n == data@.len() <= MAX_INTERVAL,
                samples_ok(data@),
                m as int == win_max(data@, idx - 1, idx as nat),
                0 <= m <= MAG_LIMIT,
            decreases w - idx,
        {
            if data[idx] > m {
                m = data[idx];
            }
            idx = idx + 1;
        }
        let seedm = m;
        idx = 0;
        while idx < n
            invariant
                w == self.window_size,
                n == self.buffer_size,
                self.wf(),
                data@.len() == n,
                samples_ok(data@),
                self.avgs() == old(self).avgs(),
                self.vars() == old(self).vars(),
                self.total_avg == old(self).total_avg,
                self.total_variance == old(self).total_variance,
                self.total_stdev == old(self).total_stdev,
                seedm as int == win_max(data@, w - 1, w as nat),
                0 <= seedm <= MAG_LIMIT,
                self.maxs().len() == idx <= n,
                forall|i: int| 0 <= i < idx
                    ==> self.maxs()[i] as int == seed_max(data@, i, self.w()),
                forall|i: int| 0 <= i < idx
                    ==> 0 <= #[trigger] self.maxs()[i] <= MAG_LIMIT,
            decreases n - idx,
        {
            if idx < w {
                ring_push(&mut self.moving_max, seedm);
            } else {
                let start = idx + 1 - w;
                let mut mm: i128 = data[start];
                let mut j: usize = start + 1;
                while j <= idx
                    invariant
                        start + 1 <= j <= idx + 1,
                        start == idx + 1 - w,
                        w <= idx < n == data@.len() <= MAX_INTERVAL,
                        samples_ok(data@),
                        mm as int == win_max(data@, j - 1, (j - start) as nat),
                        0 <= mm <= MAG_LIMIT,
                    decreases idx + 1 - j,
                {
                    if data[j] > mm {
                        mm = data[j];
                    }
                    j = j + 1;
                }
                ring_push(&mut self.moving_max, mm);
            }
            idx = idx + 1;
        }
    }

    /// Advances the average track by one sample: the new entry is the last
    /// one plus the entering sample minus the leaving one — the exact
    /// sliding-sum mean update. `leaving` must be the sample that was fed
    /// `window_size` steps before `entering`, so that the new entry is again
    /// a window sum, which is what the range precondition expresses.
    pub fn update_moving_avg(&mut self, leaving: i128, entering: i128)
        requires
            old(self).wf(),
            old(self).avgs().len() == old(self).buffer_size,
            sample_ok(leaving),
            sample_ok(entering),
            0 <= old(self).avgs().last() <= old(self).w() * MAG_LIMIT,
            0 <= old(self).avgs().last() + entering - leaving <= old(self).w() * MAG_LIMIT,
        ensures
            final(self).wf(),
            final(self).buffer_size == old(self).buffer_size,
            final(self).window_size == old(self).window_size,
            final(self).total_avg == old(self).total_avg,
            final(self).total_variance == old(self).total_variance,
            final(self).total_stdev == old(self).total_stdev,
            final(self).vars() == old(self).vars(),
            final(self).maxs() == old(self).maxs(),
            final(self).avgs() == old(self).avgs().drop_first().push(
                (old(self).avgs().last() + entering - leaving) as i128,
            ),
    {
        let n = self.buffer_size;
        let b = ring_get(&self.moving_avg, n - 1);
        ring_push(&mut self.moving_avg, b + entering - leaving);
    }

    /// Advances the variance track by one sample, before the average track
    /// is advanced: the newest squared deviation is taken against the
    /// average the track is about to adopt, the oldest against the average
    /// as it stood `window_size` positions back, and the difference of the
    /// two, over the window, is added to the last entry.
    pub fn update_moving_variance(&mut self, leaving: i128, entering: i128)
        requires
            old(self).wf(),
            old(self).avgs().len() == old(self).buffer_size,
            old(self).vars().len() == old(self).buffer_size,
            sample_ok(leaving),
            sample_ok(entering),
            0 <= old(self).avgs().last() <= old(self).w() * MAG_LIMIT,
            0 <= old(self).avgs().last() + entering - leaving <= old(self).w() * MAG_LIMIT,
            0 <= old(self).avgs()[old(self).buffer_size - old(self).window_size]
                <= old(self).w() * MAG_LIMIT,
            0 <= old(self).vars().last() <= var_limit(old(self).w()),
        ensures
            final(self).wf(),
            final(self).buffer_size == old(self).buffer_size,
            final(self).window_size == old(self).window_size,
            final(self).total_avg == old(self).total_avg,
            final(self).total_variance == old(self).total_variance,
            final(self).total_stdev == old(self).total_stdev,
            final(self).avgs() == old(self).avgs(),
            final(self).maxs() == old(self).maxs(),
            final(self).vars() == old(self).vars().drop_first().push(
                (old(self).vars().last()
                    + dev_sq(old(self).avgs().last() + entering - leaving, entering as int,
                        old(self).w())
                    - dev_sq(old(self).avgs()[old(self).buffer_size - old(self).window_size] as int,
                        leaving as int, old(self).w())) as i128,
            ),
    {
        let n = self.buffer_size;
        let w = self.window_size;
        let w128 = w as i128;
        let a_prev = ring_get(&self.moving_avg, n - 1);
        let a_new = a_prev + entering - leaving;
        let a_old = ring_get(&self.moving_avg, n - w);
        let prev = ring_get(&self.moving_variance, n - 1);
        proof {
            lemma_mul_range(w as int, entering as int, w as int, MAG_LIMIT as int);
            lemma_mul_range(w as int, leaving as int, w as int, MAG_LIMIT as int);
            lemma_sq_bound(a_new as int, w * (entering as int), w * MAG_LIMIT);
            lemma_sq_bound(a_old as int, w * (leaving as int), w * MAG_LIMIT);
            lemma_sq_mono(w * MAG_LIMIT, MAX_INTERVAL * MAG_LIMIT);
            lemma_mul_range(w as int, dev_limit(w as nat), MAX_INTERVAL as int,
                dev_limit(MAX_INTERVAL as nat));
        }
        let dn = a_new - w128 * entering;
        let dold = a_old - w128 * leaving;
        ring_push(&mut self.moving_variance, prev + dn * dn - dold * dold);
    }

    /// Advances the maximum track by one sample: an exact re-scan of the
    /// current window, handed in by the caller.
    pub fn update_moving_max(&mut self, window: &Vec<i128>)
        requires
            old(self).wf(),
            old(self).maxs().len() == old(self).buffer_size,
            window@.len() == old(self).window_size,
            samples_ok(window@),
        ensures
            final(self).wf(),
            final(self).buffer_size == old(self).buffer_size,
            final(self).window_size == old(self).window_size,
            final(self).total_avg == old(self).total_avg,
            final(self).total_variance == old(self).total_variance,
            final(self).total_stdev == old(self).total_stdev,
            final(self).avgs() == old(self).avgs(),
            final(self).vars() == old(self).vars(),
            final(self).maxs() == old(self).maxs().drop_first().push(
                win_max(window@, old(self).window_size - 1, old(self).w()) as i128,
            ),
    {
        let w = self.window_size;
        let mut mm: i128 = window[0];
        let mut j: usize = 1;
        while j < w
            invariant
                1 <= j <= w == self.window_size == window@.len() <= MAX_INTERVAL,
                samples_ok(window@),
                mm as int == win_max(window@, j - 1, j as nat),
                0 <= mm <= MAG_LIMIT,
            decreases w - j,
        {
            if window[j] > mm {
                mm = window[j];
            }
            j = j + 1;
        }
        ring_push(&mut self.moving_max, mm);
    }

    /// Computes the whole-block aggregates of `data` as exact fractions:
    /// the batch mean `sum / n`, the batch variance as a numerator over `n`
    /// cubed, and the standard deviation `sqrt(variance) / n`, whose
    /// numerator over `n` cubed is the integer floor of `sqrt(variance * n)`.
    /// An empty block has no aggregates and is reported as such.
    pub fn batch_stats(&mut self, data: &Vec<i128>) -> (r: Result<(), StatsError>)
        requires
            samples_ok(data@),
            data@.len() <= MAX_INTERVAL,
        ensures
            r is Ok <==> data@.len() > 0,
            r is Err ==> r == Result::<(), StatsError>::Err(StatsError::NoData)
                && *final(self) == *old(self),
            final(self).buffer_size == old(self).buffer_size,
            final(self).window_size == old(self).window_size,
            final(self).avgs() == old(self).avgs(),
            final(self).vars() == old(self).vars(),
            final(self).maxs() == old(self).maxs(),
            r is Ok ==> {
                let n = data@.len() as int;
                let s = win_sum(data@, n - 1, n as nat);
                let v = batch_dev_sum(data@, s, n - 1, n as nat, n as nat);
                &&& final(self).total_avg == (Ratio { num: s as i128, den: n as i128 })
                &&& final(self).total_variance == (Ratio { num: v as i128, den: (n * n * n) as i128 })
                &&& final(self).total_stdev.den == (n * n * n) as i128
                &&& final(self).total_stdev.num >= 0
                &&& final(self).total_stdev.num * final(self).total_stdev.num <= v * n
                &&& v * n < (final(self).total_stdev.num + 1) * (final(self).total_stdev.num + 1)
            },
    {
        let n = data.len();
        if n == 0 {
            return Err(StatsError::NoData);
        }
        let n128 = n as i128;
        let mut s: i128 = 0;
        let mut idx: usize = 0;
        while idx < n
            invariant
                idx <= n == data@.len() <= MAX_INTERVAL,
                samples_ok(data@),
                s == win_sum(data@, idx - 1, idx as nat),
                0 <= s <= idx * MAG_LIMIT,
            decreases n - idx,
        {
            proof {
                lemma_win_sum_bounds(data@, idx as int, (idx + 1) as nat);
            }
            s = s + data[idx];
            idx = idx + 1;
        }
        let mut v: i128 = 0;
        idx = 0;
        while idx < n
            invariant
                idx <= n == data@.len() <= MAX_INTERVAL,
                samples_ok(data@),
                n128 == n as i128,
                s == win_sum(data@, n - 1, n as nat),
                0 <= s <= n * MAG_LIMIT,
                v == batch_dev_sum(data@, s as int, idx - 1, idx as nat, n as nat),
                0 <= v <= idx * dev_limit(n as nat),
            decreases n - idx,
        {
            proof {
                lemma_mul_range(n as int, data@[idx as int] as int, n as int, MAG_LIMIT as int);
                lemma_sq_bound(s as int, n * (data@[idx as int] as int), n * MAG_LIMIT);
                lemma_sq_mono(n * MAG_LIMIT, MAX_INTERVAL * MAG_LIMIT);
                lemma_mul_range(idx as int, dev_limit(n as nat), MAX_INTERVAL as int,
                    dev_limit(MAX_INTERVAL as nat));
                assert((idx + 1) * dev_limit(n as nat) == idx * dev_limit(n as nat)
                    + dev_limit(n as nat)) by (nonlinear_arith);
            }
            let d = s - n128 * data[idx];
            v = v + d * d;
            idx = idx + 1;
        }
        proof {
            lemma_sq_mono(n * MAG_LIMIT, MAX_INTERVAL * MAG_LIMIT);
            lemma_mul_range(n as int, dev_limit(n as nat), MAX_INTERVAL as int,
                dev_limit(MAX_INTERVAL as nat));
            lemma_mul_range(v as int, n as int, MAX_INTERVAL as int * dev_limit(MAX_INTERVAL as nat),
                MAX_INTERVAL as int);
            lemma_mul_range(n as int, n as int, MAX_INTERVAL as int, MAX_INTERVAL as int);
            lemma_mul_range((n * n) as int, n as int, (MAX_INTERVAL * MAX_INTERVAL) as int,
                MAX_INTERVAL as int);
        }
        let den = n128 * n128 * n128;
        let sd = isqrt128(v * n128);
        self.total_avg = Ratio { num: s, den: n128 };
        self.total_variance = Ratio { num: v, den };
        self.total_stdev = Ratio { num: sd, den };
        Ok(())
    }

    /// The moving average at track position `i`, as the exact fraction
    /// `window sum / window_size`; asking past the computed entries reports
    /// an uninitialized access.
    pub fn moving_avg_at(&self, i: usize) -> (r: Result<Ratio, StatsError>)
        ensures
            r is Ok <==> i < self.avgs().len(),
            r is Err ==> r == Result::<Ratio, StatsError>::Err(StatsError::UninitializedAccess),
            r is Ok ==> r.unwrap() == (Ratio {
                num: self.avgs()[i as int],
                den: self.window_size as i128,
            }),
    {
        if i < ring_len(&self.moving_avg) {
            Ok(Ratio { num: ring_get(&self.moving_avg, i), den: self.window_size as i128 })
        } else {
            Err(StatsError::UninitializedAccess)
        }
    }

    /// The moving variance at track position `i`, as the exact fraction
    /// `numerator / window_size^3`.
    pub fn moving_variance_at(&self, i: usize) -> (r: Result<Ratio, StatsError>)
        requires
            self.window_size <= MAX_INTERVAL,
        ensures
            r is Ok <==> i < self.vars().len(),
            r is Err ==> r == Result::<Ratio, StatsError>::Err(StatsError::UninitializedAccess),
            r is Ok ==> r.unwrap() == (Ratio {
                num: self.vars()[i as int],
                den: (self.window_size * self.window_size * self.window_size) as i128,
            }),
    {
        if i < ring_len(&self.moving_variance) {
            let w128 = self.window_size as i128;
            proof {
                lemma_mul_range(self.window_size as int, self.window_size as int,
                    MAX_INTERVAL as int, MAX_INTERVAL as int);
                lemma_mul_range((self.window_size * self.window_size) as int,
                    self.window_size as int, (MAX_INTERVAL * MAX_INTERVAL) as int,
                    MAX_INTERVAL as int);
            }
            Ok(Ratio { num: ring_get(&self.moving_variance, i), den: w128 * w128 * w128 })
        } else {
            Err(StatsError::UninitializedAccess)
        }
    }

    /// The moving maximum at track position `i`, in sample units.
    pub fn moving_max_at(&self, i: usize) -> (r: Result<i128, StatsError>)
        ensures
            r is Ok <==> i < self.maxs().len(),
            r is Err ==> r == Result::<i128, StatsError>::Err(StatsError::UninitializedAccess),
            r is Ok ==> r.unwrap() == self.maxs()[i as int],
    {
        if i < ring_len(&self.moving_max) {
            Ok(ring_get(&self.moving_max, i))
        } else {
            Err(StatsError::UninitializedAccess)
        }
    }
}

/// Floor of the square root of a non-negative value below `2^100`.
fn isqrt128(x: i128) -> (r: i128)
    requires
        0 <= x,
        x < 1125899906842624 * 1125899906842624,
    ensures
        r >= 0,
        r * r <= x,
        x < (r + 1) * (r + 1),
{
    let mut lo: i128 = 0;
    let mut hi: i128 = 1125899906842624;
    while lo + 1 < hi
        invariant
            0 <= lo < hi <= 1125899906842624,
            lo * lo <= x,
            x < hi * hi,
        decreases hi - lo,
    {
        let mid = lo + (hi - lo) / 2;
        proof {
            lemma_sq_mono(mid as int, 1125899906842624);
        }
        if mid * mid <= x {
            lo = mid;
        } else {
            hi = mid;
        }
    }
    lo
}

} // verus!
