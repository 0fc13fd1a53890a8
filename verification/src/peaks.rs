//! Peak segmentation and the streaming orchestrator: threshold triggering,
//! grouping of contiguous trigger indices into runs, and reduction of each
//! run to its representative peak.

use vstd::prelude::*;
use crate::ring::{ring_seq, ring_cap, ring_new, ring_push, ring_get, ring_set};
use crate::stats::{
    BufferStats, Ratio, StatsError, MAX_INTERVAL, MAG_LIMIT, RATIO_LIMIT, sample_ok, samples_ok,
    win_sum, win_max, dev_sq, seed_avg, seed_var, seed_max, seed_dev_sum, var_limit, dev_limit,
    lemma_win_sum_shift, lemma_win_sum_bounds, lemma_win_sum_agree, lemma_win_max_bounds,
    lemma_win_sum_translate, lemma_win_max_translate, lemma_sq_mono, lemma_sq_bound,
    lemma_mul_range,
};

verus! {

/// One detected peak: the inclusive bounds of its run of threshold-crossing
/// indices, the first index carrying the run's maximum magnitude, that
/// magnitude, and the run's width (`end_idx - start_idx`).
#[derive(Clone, Copy, PartialEq, Eq, Structural, Debug)]
pub struct Peak {
    pub start_idx: usize,
    pub end_idx: usize,
    pub peak_idx: usize,
    pub peak_magnitude: i128,
    pub peak_width: usize,
}

/// Length of the leading maximal run of consecutive integers in `idxs`.
pub open spec fn run_len(idxs: Seq<usize>) -> int
    decreases idxs.len(),
{
    if idxs.len() <= 1 {
        idxs.len() as int
    } else if idxs[1] == idxs[0] + 1 {
        1 + run_len(idxs.skip(1))
    } else {
        1
    }
}

/// The leading run of a non-empty sequence has between one element and all.
pub proof fn lemma_run_len_bounds(idxs: Seq<usize>)
    requires
        idxs.len() >= 1,
    ensures
        1 <= run_len(idxs) <= idxs.len(),
    decreases idxs.len(),
{
    if idxs.len() > 1 && idxs[1] == idxs[0] + 1 {
        lemma_run_len_bounds(idxs.skip(1));
    }
}

/// Partition of `idxs` into maximal runs of consecutive integers, each as
/// its inclusive `(start, end)` pair, in order.
pub open spec fn spec_runs(idxs: Seq<usize>) -> Seq<(usize, usize)>
    decreases idxs.len(),
    via spec_runs_decreases
{
    if idxs.len() == 0 {
        Seq::empty()
    } else {
        seq![(idxs[0], idxs[run_len(idxs) - 1])] + spec_runs(idxs.skip(run_len(idxs)))
    }
}

#[via_fn]
proof fn spec_runs_decreases(idxs: Seq<usize>) {
    if idxs.len() > 0 {
        lemma_run_len_bounds(idxs);
    }
}

/// A sequence whose first `k` elements are consecutive and which breaks (or
/// ends) right after them has leading-run length exactly `k`.
pub proof fn lemma_run_len_of(s: Seq<usize>, k: int)
    requires
        1 <= k <= s.len(),
        forall|j: int| 0 < j < k ==> #[trigger] s[j] == s[j - 1] + 1,
        k == s.len() || s[k] != s[k - 1] + 1,
    ensures
        run_len(s) == k,
    decreases k,
{
    if k == 1 {
        if s.len() > 1 {
            assert(s[1] != s[0] + 1);
        }
    } else {
        assert(s[1] == s[0] + 1);
        let t = s.skip(1);
        assert forall|j: int| 0 < j < k - 1 implies #[trigger] t[j] == t[j - 1] + 1 by {
            assert(t[j] == s[j + 1]);
            assert(t[j - 1] == s[j]);
        }
        if k - 1 < t.len() {
            assert(t[k - 1] == s[k]);
            assert(t[k - 2] == s[k - 1]);
        }
        lemma_run_len_of(t, k - 1);
    }
}

/// Index of the first maximum of `data` on the inclusive range `[s, e]`:
/// a later element replaces the running maximum only when strictly larger.
pub open spec fn spec_argmax(data: Seq<i128>, s: int, e: int) -> int
    decreases e - s,
{
    if e <= s {
        s
    } else {
        let m = spec_argmax(data, s, e - 1);
        if data[e] > data[m] { e } else { m }
    }
}

/// The first-maximum index is in range, carries the range's maximum, and
/// every strictly earlier index in the range carries strictly less: on a
/// tie, the lower index wins.
pub proof fn lemma_argmax_props(data: Seq<i128>, s: int, e: int)
    requires
        s <= e,
    ensures
        s <= spec_argmax(data, s, e) <= e,
        forall|j: int| s <= j <= e ==> #[trigger] data[j] <= data[spec_argmax(data, s, e)],
        forall|j: int| s <= j < spec_argmax(data, s, e)
            ==> #[trigger] data[j] < data[spec_argmax(data, s, e)],
    decreases e - s,
{
    if e > s {
        lemma_argmax_props(data, s, e - 1);
    }
}

/// The peak a run `[start, end]` reduces to, with magnitudes read from
/// `data`.
pub open spec fn spec_peak(data: Seq<i128>, start: usize, end: usize) -> Peak {
    let m = spec_argmax(data, start as int, end as int);
    Peak {
        start_idx: start,
        end_idx: end,
        peak_idx: m as usize,
        peak_magnitude: data[m],
        peak_width: (end - start) as usize,
    }
}

/// The peaks of a sequence of runs, in order.
pub open spec fn spec_peaks_of(data: Seq<i128>, runs: Seq<(usize, usize)>) -> Seq<Peak> {
    runs.map_values(|r: (usize, usize)| spec_peak(data, r.0, r.1))
}

/// Groups a sequence of trigger indices into maximal runs of consecutive
/// integers: a new run starts wherever the gap to the predecessor exceeds
/// one. The result is exactly the run partition `spec_runs`.
pub fn group_runs(idxs: &Vec<usize>) -> (runs: Vec<(usize, usize)>)
    ensures
        runs@ == spec_runs(idxs@),
{
    let n = idxs.len();
    let mut runs: Vec<(usize, usize)> = Vec::new();
    let mut start: usize = 0;
    proof {
        assert(idxs@.skip(0) =~= idxs@);
        assert(Seq::<(usize, usize)>::empty() + spec_runs(idxs@) =~= spec_runs(idxs@));
    }
    while start < n
        invariant
            start <= n == idxs@.len(),
            spec_runs(idxs@) == runs@ + spec_runs(idxs@.skip(start as int)),
        decreases n - start,
    {
        let mut end: usize = start;
        while end + 1 < n && idxs[end + 1] > idxs[end] && idxs[end + 1] - idxs[end] == 1
            invariant
                start <= end < n == idxs@.len(),
                forall|j: int| start < j <= end ==> #[trigger] idxs@[j] == idxs@[j - 1] + 1,
            decreases n - end,
        {
            end = end + 1;
        }
        let ghost runs0 = runs@;
        let ghost pair = (idxs@[start as int], idxs@[end as int]);
        runs.push((idxs[start], idxs[end]));
        proof {
            let suf = idxs@.skip(start as int);
            let k = end - start + 1;
            assert forall|j: int| 0 < j < k implies #[trigger] suf[j] == suf[j - 1] + 1 by {
                assert(suf[j] == idxs@[start + j]);
                assert(suf[j - 1] == idxs@[start + j - 1]);
            }
            if k < suf.len() {
                assert(suf[k] == idxs@[end + 1]);
                assert(suf[k - 1] == idxs@[end as int]);
            }
            lemma_run_len_of(suf, k);
            assert(suf[0] == idxs@[start as int]);
            assert(suf[k - 1] == idxs@[end as int]);
            assert(suf.skip(k) =~= idxs@.skip(end + 1));
            assert(spec_runs(suf) == seq![pair] + spec_runs(idxs@.skip(end + 1)));
            assert(runs@ =~= runs0 + seq![pair]);
            assert((runs0 + seq![pair]) + spec_runs(idxs@.skip(end + 1))
                =~= runs0 + (seq![pair] + spec_runs(idxs@.skip(end + 1))));
        }
        start = end + 1;
    }
    proof {
        assert(idxs@.skip(n as int) =~= Seq::<usize>::empty());
    }
    runs
}

/// Reduces one run to its peak: scans `data` on `[start, end]` for the
/// maximum magnitude, keeping the first index on ties, and records the
/// run's bounds and width.
pub fn reduce_run(data: &Vec<i128>, start: usize, end: usize) -> (p: Peak)
    requires
        start <= end < data@.len(),
    ensures
        p == spec_peak(data@, start, end),
{
    let nlen = data.len();
    let mut best: usize = start;
    let mut j: usize = start + 1;
    while j <= end
        invariant
            start + 1 <= j <= end + 1,
            end < nlen == data@.len(),
            start <= best < j,
            best as int == spec_argmax(data@, start as int, j - 1),
        decreases end + 1 - j,
    {
        if data[j] > data[best] {
            best = j;
        }
        j = j + 1;
    }
    Peak {
        start_idx: start,
        end_idx: end,
        peak_idx: best,
        peak_magnitude: data[best],
        peak_width: end - start,
    }
}

/// Which dispersion measure scales the threshold in the trigger test.
#[derive(Clone, Copy, PartialEq, Eq, Structural, Debug)]
pub enum DispersionMode {
    /// Compare against `moving_avg + threshold * moving_max`.
    MaxRelative,
    /// Compare against `moving_avg + threshold * moving_stdev`.
    StdevRelative,
}

/// The scan's fixed parameters: window and block lengths, the smoothing
/// weight `wn / wd`, the threshold `tn / td`, the dispersion mode, and
/// whether this is the first block (baselines then come from the freshly
/// seeded tracks by forward index, and the tracks are not advanced).
pub struct ScanParams {
    pub w: nat,
    pub cap: nat,
    pub wn: int,
    pub wd: int,
    pub tn: int,
    pub td: int,
    pub max_mode: bool,
    pub first: bool,
}

/// The scan's evolving state: the block being smoothed in place, the `w`
/// samples fed just before it, the three statistic tracks, and the trigger
/// indices collected so far.
pub struct ScanState {
    pub data: Seq<i128>,
    pub tail: Seq<i128>,
    pub avgs: Seq<i128>,
    pub vars: Seq<i128>,
    pub maxs: Seq<i128>,
    pub trigs: Seq<usize>,
}

/// The max-relative trigger: `x > a/w + (tn/td) * m`, cross-multiplied by
/// the positive `w * td` into exact integer arithmetic.
pub open spec fn trigger_max_rel(x: int, a: int, m: int, p: ScanParams) -> bool {
    p.td * p.w * x > p.td * a + p.tn * p.w * m
}

/// The stdev-relative trigger: `x > a/w + (tn/td) * sqrt(v / w^3)`, stated
/// algebraically so that no square root is needed. A negative variance
/// numerator (possible, since the incremental variance is approximate by
/// design) has no standard deviation and never triggers. Otherwise, with
/// `d = w*x - a` the comparison is squared on the side whose sign allows
/// it, which is exactly the real-valued condition.
pub open spec fn trigger_stdev_rel(x: int, a: int, v: int, p: ScanParams) -> bool {
    let d = p.w * x - a;
    v >= 0 && if p.tn >= 0 {
        d > 0 && p.td * p.td * p.w * (d * d) > p.tn * p.tn * v
    } else {
        d > 0 || (d == 0 && v > 0) || (d < 0 && p.td * p.td * p.w * (d * d) < p.tn * p.tn * v)
    }
}

/// One smoothing blend, on the integer sample grid: the exact value
/// `((wd - wn) * prev + wn * cur) / wd` rounded down to a whole sample unit.
pub open spec fn spec_smooth(prev: int, cur: int, wn: int, wd: int) -> int {
    ((wd - wn) * prev + wn * cur) / wd
}

/// One scan step at block index `i`: evaluate the trigger against the most
/// recently computed statistics (by forward index on the first block, at
/// the back of the tracks afterwards), blend a triggered sample toward its
/// predecessor, and — except on the first block, whose tracks were just
/// seeded whole — advance each track by one position.
pub open spec fn scan_hit(st: ScanState, i: int, p: ScanParams) -> bool {
    let x0 = st.data[i] as int;
    let a = if p.first { st.avgs[i - 1] as int } else { st.avgs.last() as int };
    if p.first && i == 0 {
        false
    } else if p.max_mode {
        let m = if p.first { st.maxs[i - 1] as int } else { st.maxs.last() as int };
        trigger_max_rel(x0, a, m, p)
    } else {
        let v = if p.first { st.vars[i - 1] as int } else { st.vars.last() as int };
        trigger_stdev_rel(x0, a, v, p)
    }
}

pub open spec fn scan_step(st: ScanState, i: int, p: ScanParams) -> ScanState {
    let x0 = st.data[i] as int;
    let hit = scan_hit(st, i, p);
    let data1 = if hit && i > 0 {
        st.data.update(i, spec_smooth(st.data[i - 1] as int, x0, p.wn, p.wd) as i128)
    } else {
        st.data
    };
    let trigs1 = if hit { st.trigs.push(i as usize) } else { st.trigs };
    if p.first {
        ScanState { data: data1, trigs: trigs1, ..st }
    } else {
        let comb = st.tail + data1;
        let x = comb[p.w + i] as int;
        let leaving = comb[i] as int;
        let a_new = st.avgs.last() + x - leaving;
        let a_old = st.avgs[st.avgs.len() - p.w] as int;
        let v_new = st.vars.last() + dev_sq(a_new, x, p.w) - dev_sq(a_old, leaving, p.w);
        let m_new = win_max(comb, p.w + i, p.w);
        ScanState {
            data: data1,
            tail: st.tail,
            avgs: st.avgs.drop_first().push(a_new as i128),
            vars: st.vars.drop_first().push(v_new as i128),
            maxs: st.maxs.drop_first().push(m_new as i128),
            trigs: trigs1,
        }
    }
}

/// The scan state after the first `i` steps.
pub open spec fn scan(st: ScanState, i: int, p: ScanParams) -> ScanState
    decreases i,
{
    if i <= 0 {
        st
    } else {
        scan_step(scan(st, i - 1, p), i - 1, p)
    }
}

/// Sum of the last `cnt` squared deviations when the scan stands at step
/// `i`: the track entry `cnt` from the end pairs with the fed sample `cnt`
/// from the end, which sits at position `w + i - cnt` of `tail + data`.
pub open spec fn dev_win(comb: Seq<i128>, avgs: Seq<i128>, i: int, cnt: nat, w: nat) -> int
    decreases cnt,
{
    if cnt == 0 {
        0
    } else {
        dev_sq(avgs[avgs.len() - cnt] as int, comb[w + i - cnt] as int, w)
            + dev_win(comb, avgs, i, (cnt - 1) as nat, w)
    }
}

/// `dev_win` only reads the `cnt` fed samples before step `i`.
pub proof fn lemma_dev_win_agree(ca: Seq<i128>, cb: Seq<i128>, avgs: Seq<i128>, i: int, cnt: nat, w: nat)
    requires
        forall|c: int| 1 <= c <= cnt ==> #[trigger] ca[w + i - c] == cb[w + i - c],
    ensures
        dev_win(ca, avgs, i, cnt, w) == dev_win(cb, avgs, i, cnt, w),
    decreases cnt,
{
    if cnt > 0 {
        assert(ca[w + i - cnt] == cb[w + i - cnt]);
        lemma_dev_win_agree(ca, cb, avgs, i, (cnt - 1) as nat, w);
    }
}

/// `dev_win` is position-independent: two scan positions whose trailing fed
/// samples agree pairwise give the same sum.
pub proof fn lemma_dev_win_translate(ca: Seq<i128>, cb: Seq<i128>, avgs: Seq<i128>, ia: int, ib: int, cnt: nat, w: nat)
    requires
        forall|c: int| 1 <= c <= cnt ==> #[trigger] ca[w + ia - c] == cb[w + ib - c],
    ensures
        dev_win(ca, avgs, ia, cnt, w) == dev_win(cb, avgs, ib, cnt, w),
    decreases cnt,
{
    if cnt > 0 {
        assert(ca[w + ia - cnt] == cb[w + ib - cnt]);
        lemma_dev_win_translate(ca, cb, avgs, ia, ib, (cnt - 1) as nat, w);
    }
}

/// With track entries in `[0, w * MAG_LIMIT]` and fed samples in range, a
/// deviation window sum lies in `[0, cnt * dev_limit(w)]`.
pub proof fn lemma_dev_win_bounds(comb: Seq<i128>, avgs: Seq<i128>, i: int, cnt: nat, w: nat)
    requires
        cnt <= avgs.len(),
        cnt <= w + i,
        w + i <= comb.len(),
        samples_ok(comb),
        forall|k: int| 0 <= k < avgs.len() ==> 0 <= #[trigger] avgs[k] <= w * MAG_LIMIT,
    ensures
        0 <= dev_win(comb, avgs, i, cnt, w) <= cnt * dev_limit(w),
    decreases cnt,
{
    if cnt > 0 {
        lemma_dev_win_bounds(comb, avgs, i, (cnt - 1) as nat, w);
        lemma_mul_range(w as int, comb[w + i - cnt] as int, w as int, MAG_LIMIT as int);
        lemma_sq_bound(avgs[avgs.len() - cnt] as int, w * (comb[w + i - cnt] as int),
            w * MAG_LIMIT);
        assert(cnt * dev_limit(w) == (cnt - 1) * dev_limit(w) + dev_limit(w))
            by (nonlinear_arith);
    }
}

/// Advancing the track by one entry shifts the deviation window: the new
/// sum is the old one at the previous step, minus nothing yet, plus the new
/// entry's squared deviation (the term alignment moves one step as a pair).
pub proof fn lemma_dev_win_step(comb: Seq<i128>, avgs: Seq<i128>, na: i128, i: int, cnt: nat, w: nat)
    requires
        1 <= cnt <= avgs.len(),
        avgs.len() >= 1,
    ensures
        dev_win(comb, avgs.drop_first().push(na), i + 1, cnt, w)
            == dev_win(comb, avgs, i, (cnt - 1) as nat, w)
                + dev_sq(na as int, comb[w + i] as int, w),
    decreases cnt,
{
    let avgs1 = avgs.drop_first().push(na);
    assert(avgs1.len() == avgs.len());
    if cnt == 1 {
        assert(avgs1[avgs1.len() - 1] == na);
        assert(dev_win(comb, avgs1, i + 1, 1, w)
            == dev_sq(avgs1[avgs1.len() - 1] as int, comb[w + (i + 1) - 1] as int, w)
                + dev_win(comb, avgs1, i + 1, 0, w));
        assert(w + (i + 1) - 1 == w + i);
    } else {
        lemma_dev_win_step(comb, avgs, na, i, (cnt - 1) as nat, w);
        assert(avgs1[avgs1.len() - cnt] == avgs[avgs.len() - cnt + 1]);
        assert(dev_win(comb, avgs1, i + 1, cnt, w)
            == dev_sq(avgs1[avgs1.len() - cnt] as int, comb[w + (i + 1) - cnt] as int, w)
                + dev_win(comb, avgs1, i + 1, (cnt - 1) as nat, w));
        assert(dev_win(comb, avgs, i, (cnt - 1) as nat, w)
            == dev_sq(avgs[avgs.len() - (cnt - 1)] as int, comb[w + i - (cnt - 1)] as int, w)
                + dev_win(comb, avgs, i, (cnt - 2) as nat, w));
        assert(w + (i + 1) - cnt == w + i - (cnt - 1));
        assert(avgs.len() - cnt + 1 == avgs.len() - (cnt - 1));
    }
}

/// Peels the earliest pair off a seeded deviation sum.
pub proof fn lemma_seed_dev_sum_peel(data: Seq<i128>, e: int, cnt: nat, w: nat)
    requires
        cnt >= 1,
    ensures
        seed_dev_sum(data, e, cnt, w)
            == dev_sq(seed_avg(data, e - cnt + 1, w), data[e - cnt + 1] as int, w)
                + seed_dev_sum(data, e, (cnt - 1) as nat, w),
    decreases cnt,
{
    if cnt == 1 {
        assert(seed_dev_sum(data, e, 1, w) == seed_dev_sum(data, e - 1, 0, w)
            + dev_sq(seed_avg(data, e, w), data[e] as int, w));
    } else {
        lemma_seed_dev_sum_peel(data, e - 1, (cnt - 1) as nat, w);
        assert(seed_dev_sum(data, e, cnt, w) == seed_dev_sum(data, e - 1, (cnt - 1) as nat, w)
            + dev_sq(seed_avg(data, e, w), data[e] as int, w));
        assert(seed_dev_sum(data, e, (cnt - 1) as nat, w)
            == seed_dev_sum(data, e - 1, (cnt - 2) as nat, w)
                + dev_sq(seed_avg(data, e, w), data[e] as int, w));
        assert((e - 1) - (cnt - 1) + 1 == e - cnt + 1);
    }
}

/// After seeding from a block, the deviation window over the block's last
/// `w` positions equals the seeded variance entry at the last position.
pub proof fn lemma_dev_win_from_seed(data: Seq<i128>, tail: Seq<i128>, avgs: Seq<i128>, cnt: nat, w: nat)
    requires
        w >= 1,
        cnt <= w,
        tail.len() == w,
        avgs.len() == data.len() >= w,
        forall|k: int| 0 <= k < w ==> #[trigger] tail[k] == data[data.len() - w + k],
        forall|k: int| 0 <= k < avgs.len() ==> #[trigger] avgs[k] as int == seed_avg(data, k, w),
    ensures
        dev_win(tail, avgs, 0, cnt, w) == seed_dev_sum(data, data.len() - 1, cnt, w),
    decreases cnt,
{
    if cnt > 0 {
        lemma_dev_win_from_seed(data, tail, avgs, (cnt - 1) as nat, w);
        lemma_seed_dev_sum_peel(data, data.len() - 1, cnt, w);
        assert(tail[w - cnt] == data[data.len() - cnt]);
        assert(avgs[avgs.len() - cnt] as int == seed_avg(data, data.len() - cnt, w));
    }
}

/// The streaming orchestrator: one statistics engine, the working sample
/// buffer, the samples fed just before the current block, and the running
/// lists of trigger indices and finalized peaks.
pub struct Peakfinder {
    pub peak_indices: Vec<usize>,
    pub peaks: Vec<Peak>,
    pub processing_interval: usize,
    pub window_size: usize,
    pub peak_weight: Ratio,
    pub dispersion_mode: DispersionMode,
    pub weighted_stats: BufferStats,
    pub weighted_data: ringbuffer::AllocRingBuffer<i128>,
    pub prev_tail: Vec<i128>,
    pub seeded: bool,
}

impl Peakfinder {
    pub open spec fn w(self) -> nat {
        self.window_size as nat
    }

    pub open spec fn cap(self) -> nat {
        self.processing_interval as nat
    }

    /// Before the first block: every track and buffer is empty.
    pub open spec fn fresh_wf(self) -> bool {
        &&& self.weighted_stats.avgs().len() == 0
        &&& self.weighted_stats.vars().len() == 0
        &&& self.weighted_stats.maxs().len() == 0
        &&& ring_seq(self.weighted_data).len() == 0
        &&& self.prev_tail@.len() == 0
    }

    /// After a block has been processed: the tracks and buffer are full,
    /// every entry is in range, `prev_tail` holds the last `w` samples fed
    /// to the statistics, the last average entry is that window's sum, and
    /// the last variance entry is that window's deviation sum — the facts
    /// the next incremental step needs to stay exact.
    pub open spec fn seeded_wf(self) -> bool {
        &&& self.weighted_stats.avgs().len() == self.cap()
        &&& self.weighted_stats.vars().len() == self.cap()
        &&& self.weighted_stats.maxs().len() == self.cap()
        &&& ring_seq(self.weighted_data).len() == self.cap()
        &&& samples_ok(ring_seq(self.weighted_data))
        &&& self.prev_tail@.len() == self.w()
        &&& samples_ok(self.prev_tail@)
        &&& forall|k: int| 0 <= k < self.cap()
            ==> 0 <= #[trigger] self.weighted_stats.avgs()[k] <= self.w() * MAG_LIMIT
        &&& forall|k: int| 0 <= k < self.cap()
            ==> 0 <= #[trigger] self.weighted_stats.vars()[k] <= var_limit(self.w())
        &&& forall|k: int| 0 <= k < self.cap()
            ==> 0 <= #[trigger] self.weighted_stats.maxs()[k] <= MAG_LIMIT
        &&& self.weighted_stats.avgs().last() as int
            == win_sum(self.prev_tail@, self.w() - 1, self.w())
        &&& self.weighted_stats.vars().last() as int
            == dev_win(self.prev_tail@, self.weighted_stats.avgs(), 0, self.w(), self.w())
    }

    /// Configuration and state well-formedness.
    pub open spec fn wf(self) -> bool {
        &&& self.weighted_stats.wf()
        &&& self.weighted_stats.buffer_size == self.processing_interval
        &&& self.weighted_stats.window_size == self.window_size
        &&& ring_cap(self.weighted_data) == self.processing_interval
        &&& 0 < self.peak_weight.num < self.peak_weight.den <= RATIO_LIMIT
        &&& if self.seeded {
            self.seeded_wf()
        } else {
            self.fresh_wf()
        }
    }

    /// Creates a peak finder for blocks of exactly `proc_int` samples, a
    /// statistics window of `window_len`, and a smoothing weight
    /// `weight.num / weight.den` in `(0, 1)`. A window below two or wider
    /// than the block, a block length of zero, or a weight outside `(0, 1)`
    /// is a configuration error, reported before anything is built.
    pub fn new(proc_int: usize, window_len: usize, weight: Ratio) -> (r: Result<Peakfinder, StatsError>)
        requires
            proc_int <= MAX_INTERVAL,
        ensures
            r is Ok <==> (2 <= window_len <= proc_int && 0 < weight.num < weight.den
                && weight.den <= RATIO_LIMIT),
            r is Err ==> r == Result::<Peakfinder, StatsError>::Err(StatsError::InvalidConfiguration),
            r is Ok ==> {
                let pf = r.unwrap();
                &&& pf.wf()
                &&& !pf.seeded
                &&& pf.processing_interval == proc_int
                &&& pf.window_size == window_len
                &&& pf.peak_weight == weight
                &&& pf.dispersion_mode == DispersionMode::MaxRelative
                &&& pf.peak_indices@.len() == 0
                &&& pf.peaks@.len() == 0
            },
    {
        if weight.num <= 0 || weight.num >= weight.den || weight.den > RATIO_LIMIT {
            return Err(StatsError::InvalidConfiguration);
        }
        let stats = match BufferStats::new(proc_int, window_len) {
            Ok(s) => s,
            Err(_) => {
                return Err(StatsError::InvalidConfiguration);
            },
        };
        Ok(Peakfinder {
            peak_indices: Vec::new(),
            peaks: Vec::new(),
            processing_interval: proc_int,
            window_size: window_len,
            peak_weight: weight,
            dispersion_mode: DispersionMode::MaxRelative,
            weighted_stats: stats,
            weighted_data: ring_new(proc_int),
            prev_tail: Vec::new(),
            seeded: false,
        })
    }

    /// Selects which dispersion measure scales the threshold.
    pub fn set_dispersion_mode(&mut self, mode: DispersionMode)
        ensures
            *final(self) == (Peakfinder { dispersion_mode: mode, ..*old(self) }),
    {
        self.dispersion_mode = mode;
    }

    /// The peaks found so far, in discovery order.
    pub fn peaks(&self) -> (r: &Vec<Peak>)
        ensures
            r@ == self.peaks@,
    {
        &self.peaks
    }

    /// The trigger indices recorded so far (block-local positions).
    pub fn peak_indices(&self) -> (r: &Vec<usize>)
        ensures
            r@ == self.peak_indices@,
    {
        &self.peak_indices
    }
}

/// Signed products are bounded by the product of the absolute bounds.
pub proof fn lemma_mul_abs(a: int, b: int, la: int, lb: int)
    by (nonlinear_arith)
    requires
        -la <= a <= la,
        -lb <= b <= lb,
        0 <= la,
        0 <= lb,
    ensures
        -(la * lb) <= a * b <= la * lb,
{
}

/// The per-window limits grow with the window.
pub proof fn lemma_limits_mono(w: nat)
    requires
        1 <= w <= MAX_INTERVAL,
    ensures
        0 <= dev_limit(w) <= dev_limit(MAX_INTERVAL as nat),
        0 <= var_limit(w) <= var_limit(MAX_INTERVAL as nat),
{
    lemma_sq_mono(w * MAG_LIMIT, MAX_INTERVAL * MAG_LIMIT);
    assert(dev_limit(w) >= 0) by (nonlinear_arith);
    lemma_mul_range(w as int, dev_limit(w), MAX_INTERVAL as int, dev_limit(MAX_INTERVAL as nat));
}

/// A variance numerator bounded by any window's limit fits comfortably.
pub proof fn lemma_var_limit_fits(v: int, w: nat)
    requires
        1 <= w <= MAX_INTERVAL,
        0 <= v <= var_limit(w),
    ensures
        0 <= v <= 0x1000000000000000000000000,
{
    lemma_limits_mono(w);
    assert(var_limit(MAX_INTERVAL as nat) <= 0x1000000000000000000000000) by (nonlinear_arith);
}

/// A smoothing blend of two in-range samples is again in range.
pub proof fn lemma_smooth_range(p: int, c: int, wn: int, wd: int)
    requires
        0 <= p <= MAG_LIMIT,
        0 <= c <= MAG_LIMIT,
        0 < wn < wd,
    ensures
        0 <= spec_smooth(p, c, wn, wd) <= MAG_LIMIT,
{
    let num = (wd - wn) * p + wn * c;
    lemma_blend_num_range(p, c, wn, wd);
    vstd::arithmetic::div_mod::lemma_fundamental_div_mod(num, wd);
    lemma_div_range(num, num / wd, num % wd, wd, MAG_LIMIT as int);
}

/// The numerator of a smoothing blend of values in `[0, MAG_LIMIT]` lies in
/// `[0, wd * MAG_LIMIT]`.
pub proof fn lemma_blend_num_range(p: int, c: int, wn: int, wd: int)
    by (nonlinear_arith)
    requires
        0 <= p <= MAG_LIMIT,
        0 <= c <= MAG_LIMIT,
        0 < wn < wd,
    ensures
        0 <= (wd - wn) * p + wn * c <= wd * MAG_LIMIT,
{
}

/// A quotient of a value of `[0, d * m]` by `d` lies in `[0, m]`.
pub proof fn lemma_div_range(num: int, q: int, r: int, d: int, m: int)
    by (nonlinear_arith)
    requires
        num == d * q + r,
        0 <= r < d,
        0 <= num <= d * m,
        0 <= m,
    ensures
        0 <= q <= m,
{
}

/// Within each run of the partition, the indices count up by one from the
/// run's start.
pub proof fn lemma_run_consecutive(s: Seq<usize>)
    requires
        s.len() >= 1,
    ensures
        forall|j: int| 0 <= j < run_len(s) ==> #[trigger] s[j] == s[0] + j,
    decreases s.len(),
{
    lemma_run_len_bounds(s);
    if s.len() > 1 && s[1] == s[0] + 1 {
        let t = s.skip(1);
        lemma_run_consecutive(t);
        assert forall|j: int| 0 <= j < run_len(s) implies #[trigger] s[j] == s[0] + j by {
            if j > 0 {
                assert(t[j - 1] == t[0] + (j - 1));
                assert(t[j - 1] == s[j]);
                assert(t[0] == s[1]);
            }
        }
    }
}

/// Runs of indices below a bound have ordered endpoints below the bound.
pub proof fn lemma_runs_bounds(idxs: Seq<usize>, bound: int)
    requires
        forall|k: int| 0 <= k < idxs.len() ==> #[trigger] idxs[k] < bound,
    ensures
        forall|k: int| 0 <= k < spec_runs(idxs).len()
            ==> (#[trigger] spec_runs(idxs)[k]).0 <= spec_runs(idxs)[k].1 < bound,
    decreases idxs.len(),
{
    if idxs.len() > 0 {
        lemma_run_len_bounds(idxs);
        lemma_run_consecutive(idxs);
        let l = run_len(idxs);
        let rest = idxs.skip(l);
        assert forall|k: int| 0 <= k < rest.len() implies #[trigger] rest[k] < bound by {
            assert(rest[k] == idxs[l + k]);
        }
        lemma_runs_bounds(rest, bound);
        assert(idxs[l - 1] == idxs[0] + (l - 1));
        assert forall|k: int| 0 <= k < spec_runs(idxs).len()
            implies (#[trigger] spec_runs(idxs)[k]).0 <= spec_runs(idxs)[k].1 < bound by {
            if k == 0 {
                assert(spec_runs(idxs)[0] == (idxs[0], idxs[l - 1]));
            } else {
                assert(spec_runs(idxs)[k] == spec_runs(rest)[k - 1]);
            }
        }
    }
}

/// Runs of strictly increasing indices are disjoint and ordered: each
/// run ends strictly before the next begins, so the peaks reduced from
/// them never overlap and come out in increasing start order.
pub proof fn lemma_runs_ordered(idxs: Seq<usize>)
    requires
        forall|k: int| 0 < k < idxs.len() ==> idxs[k - 1] < #[trigger] idxs[k],
    ensures
        forall|k: int| 0 <= k < spec_runs(idxs).len() - 1
            ==> (#[trigger] spec_runs(idxs)[k]).1 < spec_runs(idxs)[k + 1].0,
    decreases idxs.len(),
{
    if idxs.len() > 0 {
        lemma_run_len_bounds(idxs);
        let l = run_len(idxs);
        let rest = idxs.skip(l);
        assert forall|k: int| 0 < k < rest.len() implies rest[k - 1] < #[trigger] rest[k] by {
            assert(rest[k] == idxs[l + k]);
            assert(rest[k - 1] == idxs[l + k - 1]);
        }
        lemma_runs_ordered(rest);
        assert forall|k: int| 0 <= k < spec_runs(idxs).len() - 1
            implies (#[trigger] spec_runs(idxs)[k]).1 < spec_runs(idxs)[k + 1].0 by {
            if k == 0 {
                assert(spec_runs(idxs)[0] == (idxs[0], idxs[l - 1]));
                assert(spec_runs(idxs).len() == 1 + spec_runs(rest).len());
                if rest.len() == 0 {
                    assert(spec_runs(rest).len() == 0);
                }
                assert(rest.len() > 0);
                lemma_run_len_bounds(rest);
                assert(spec_runs(idxs)[1] == spec_runs(rest)[0]);
                assert(spec_runs(rest)[0] == (rest[0], rest[run_len(rest) - 1]));
                assert(rest[0] == idxs[l as int]);
                if l > 1 {
                    assert(idxs[l - 1] < idxs[l as int]);
                }
            } else {
                assert(spec_runs(idxs)[k] == spec_runs(rest)[k - 1]);
                assert(spec_runs(idxs)[k + 1] == spec_runs(rest)[k]);
            }
        }
    }
}

/// The scan's fixed parameters drawn from a peak finder and a threshold.
pub open spec fn scan_params(pf: Peakfinder, threshold: Ratio) -> ScanParams {
    ScanParams {
        w: pf.window_size as nat,
        cap: pf.processing_interval as nat,
        wn: pf.peak_weight.num as int,
        wd: pf.peak_weight.den as int,
        tn: threshold.num as int,
        td: threshold.den as int,
        max_mode: pf.dispersion_mode == DispersionMode::MaxRelative,
        first: !pf.seeded,
    }
}

/// The scan's starting state for one block: on the first block the tracks
/// as seeding will leave them and the block's own trailing samples as the
/// tail; afterwards the tracks and tail as the previous call left them.
pub open spec fn scan_start(pf: Peakfinder, data: Seq<i128>) -> ScanState {
    let w = pf.window_size as nat;
    let cap = pf.processing_interval as nat;
    if pf.seeded {
        ScanState {
            data,
            tail: pf.prev_tail@,
            avgs: pf.weighted_stats.avgs(),
            vars: pf.weighted_stats.vars(),
            maxs: pf.weighted_stats.maxs(),
            trigs: Seq::empty(),
        }
    } else {
        ScanState {
            data,
            tail: data.subrange(data.len() - w, data.len() as int),
            avgs: Seq::new(cap, |k: int| seed_avg(data, k, w) as i128),
            vars: Seq::new(cap, |k: int| seed_var(data, k, w) as i128),
            maxs: Seq::new(cap, |k: int| seed_max(data, k, w) as i128),
            trigs: Seq::empty(),
        }
    }
}

/// The state after scanning one whole block: what `index_peaks` leaves
/// behind, and the function every ensures clause below speaks through.
pub open spec fn scan_result(pf: Peakfinder, data: Seq<i128>, threshold: Ratio) -> ScanState {
    scan(scan_start(pf, data), pf.processing_interval as int, scan_params(pf, threshold))
}

/// Parameter sanity for the scan.
pub open spec fn params_ok(p: ScanParams) -> bool {
    &&& 2 <= p.w <= p.cap <= MAX_INTERVAL
    &&& 0 < p.wn < p.wd <= RATIO_LIMIT
    &&& 0 < p.td <= RATIO_LIMIT
    &&& -RATIO_LIMIT <= p.tn <= RATIO_LIMIT
}

/// Everything that holds of the scan state after `i` steps: shapes, sample
/// and track-entry ranges, strictly increasing trigger indices below `i`,
/// and — once past the first block — the two exactness facts the next
/// incremental update rests on: the last average entry is the sum of the
/// trailing window of fed samples, and the last variance entry is the
/// matching deviation-window sum.
pub open spec fn scan_ok(st: ScanState, i: int, p: ScanParams) -> bool {
    &&& st.data.len() == p.cap
    &&& st.tail.len() == p.w
    &&& st.avgs.len() == p.cap
    &&& st.vars.len() == p.cap
    &&& st.maxs.len() == p.cap
    &&& samples_ok(st.data)
    &&& samples_ok(st.tail)
    &&& forall|k: int| 0 <= k < st.trigs.len() ==> #[trigger] st.trigs[k] < i
    &&& forall|k: int| 0 < k < st.trigs.len() ==> st.trigs[k - 1] < #[trigger] st.trigs[k]
    &&& forall|k: int| 0 <= k < p.cap ==> 0 <= #[trigger] st.avgs[k] <= p.w * MAG_LIMIT
    &&& forall|k: int| 0 <= k < p.cap ==> 0 <= #[trigger] st.vars[k] <= var_limit(p.w)
    &&& forall|k: int| 0 <= k < p.cap ==> 0 <= #[trigger] st.maxs[k] <= MAG_LIMIT
    &&& (!p.first ==> st.avgs.last() as int == win_sum(st.tail + st.data, p.w + i - 1, p.w))
    &&& (!p.first ==> st.vars.last() as int == dev_win(st.tail + st.data, st.avgs, i, p.w, p.w))
}

/// One scan step preserves `scan_ok`: the shifted window sum and deviation
/// sum are exactly what the incremental updates push.
#[verifier::rlimit(60)]
pub proof fn lemma_scan_step_ok(st: ScanState, i: int, p: ScanParams)
    requires
        params_ok(p),
        0 <= i < p.cap,
        scan_ok(st, i, p),
    ensures
        scan_ok(scan_step(st, i, p), i + 1, p),
{
    let st1 = scan_step(st, i, p);
    let w = p.w;
    if st1.data != st.data {
        lemma_smooth_range(st.data[i - 1] as int, st.data[i] as int, p.wn, p.wd);
    }
    assert(samples_ok(st1.data));
    if !p.first {
        let comb0 = st.tail + st.data;
        let comb1 = st.tail + st1.data;
        assert forall|j: int| 0 <= j < w + i implies comb1[j] == comb0[j] by {
            if j >= w {
                assert(st1.data[j - w] == st.data[j - w]);
            }
        }
        let x = comb1[w + i] as int;
        let leaving = comb1[i] as int;
        let a_new = st.avgs.last() + x - leaving;
        let a_old = st.avgs[st.avgs.len() - w] as int;
        assert(sample_ok(comb1[w + i]));
        assert(sample_ok(comb1[i]));
        assert forall|j: int| 0 <= j < comb1.len() implies sample_ok(#[trigger] comb1[j]) by {
            if j < w {
                assert(comb1[j] == st.tail[j]);
            } else {
                assert(comb1[j] == st1.data[j - w]);
            }
        }
        lemma_win_sum_agree(comb1, comb0, w + i - 1, w);
        lemma_win_sum_shift(comb1, w + i, w);
        lemma_win_sum_bounds(comb1, w + i, w);
        assert(a_new == win_sum(comb1, w + i, w));
        assert(0 <= a_new <= w * MAG_LIMIT);
        assert(st1.avgs =~= st.avgs.drop_first().push((a_new as i128)));
        assert forall|k: int| 0 <= k < p.cap implies 0 <= #[trigger] st1.avgs[k] <= p.w * MAG_LIMIT by {
            if k < p.cap - 1 {
                assert(st1.avgs[k] == st.avgs[k + 1]);
            }
        }
        assert forall|c: int| 1 <= c <= w implies #[trigger] comb1[w + i - c] == comb0[w + i - c] by {}
        lemma_dev_win_agree(comb1, comb0, st.avgs, i, w, w);
        assert(st.vars.last() as int == dev_win(comb1, st.avgs, i, w, w));
        assert(dev_win(comb1, st.avgs, i, w, w)
            == dev_sq(a_old, leaving, w) + dev_win(comb1, st.avgs, i, (w - 1) as nat, w));
        lemma_dev_win_step(comb1, st.avgs, (a_new as i128), i, w, w);
        let avgs1 = st.avgs.drop_first().push((a_new as i128));
        assert((a_new as i128) as int == a_new);
        assert(dev_win(comb1, avgs1, i + 1, w, w)
            == dev_win(comb1, st.avgs, i, (w - 1) as nat, w)
                + dev_sq((a_new as i128) as int, comb1[w + i] as int, w));
        assert(st1.avgs == avgs1);
        let v_new = st.vars.last() + dev_sq(a_new, x, w) - dev_sq(a_old, leaving, w);
        assert(dev_win(comb1, st1.avgs, i + 1, w, w)
            == dev_win(comb1, st.avgs, i, (w - 1) as nat, w) + dev_sq(a_new, x, w));
        assert(v_new == dev_win(comb1, st1.avgs, i + 1, w, w));
        lemma_dev_win_bounds(comb1, st1.avgs, i + 1, w, w);
        assert(0 <= v_new <= var_limit(w));
        lemma_var_limit_fits(v_new, w);
        assert((v_new as i128) as int == v_new);
        assert(st1.vars =~= st.vars.drop_first().push((v_new as i128)));
        assert forall|k: int| 0 <= k < p.cap implies 0 <= #[trigger] st1.vars[k] <= var_limit(p.w) by {
            if k < p.cap - 1 {
                assert(st1.vars[k] == st.vars[k + 1]);
            } else {
                assert(st1.vars[k] == (v_new as i128));
            }
        }
        lemma_win_max_bounds(comb1, w + i, w);
        assert forall|k: int| 0 <= k < p.cap implies 0 <= #[trigger] st1.maxs[k] <= MAG_LIMIT by {
            if k < p.cap - 1 {
                assert(st1.maxs[k] == st.maxs[k + 1]);
            }
        }
        assert(st1.tail == st.tail);
        assert(st1.tail + st1.data == comb1);
        assert(st1.avgs.last() == (a_new as i128));
        assert(st1.avgs.last() as int == win_sum(st1.tail + st1.data, p.w + (i + 1) - 1, p.w));
        lemma_dev_win_agree(st1.tail + st1.data, comb1, st1.avgs, i + 1, w, w);
        assert(st1.vars.last() as int == dev_win(st1.tail + st1.data, st1.avgs, i + 1, w, w));
    }
}

/// The exec state mirrors the ghost scan state.
pub open spec fn matches_scan(pf: Peakfinder, trigs: Seq<usize>, st: ScanState) -> bool {
    &&& ring_seq(pf.weighted_data) == st.data
    &&& pf.weighted_stats.avgs() == st.avgs
    &&& pf.weighted_stats.vars() == st.vars
    &&& pf.weighted_stats.maxs() == st.maxs
    &&& trigs == st.trigs
}

/// What one `index_peaks` call never changes.
pub open spec fn call_frame(cur: Peakfinder, pre: Peakfinder) -> bool {
    &&& cur.processing_interval == pre.processing_interval
    &&& cur.window_size == pre.window_size
    &&& cur.peak_weight == pre.peak_weight
    &&& cur.dispersion_mode == pre.dispersion_mode
    &&& cur.weighted_stats.buffer_size == pre.processing_interval
    &&& cur.weighted_stats.window_size == pre.window_size
    &&& cur.weighted_stats.total_avg == pre.weighted_stats.total_avg
    &&& cur.weighted_stats.total_variance == pre.weighted_stats.total_variance
    &&& cur.weighted_stats.total_stdev == pre.weighted_stats.total_stdev
    &&& cur.weighted_stats.wf()
    &&& ring_cap(cur.weighted_data) == pre.processing_interval
}

/// Two equal peak finders fed the same block and threshold leave the same
/// scan state behind: the whole result of `index_peaks` is a function of
/// the prior state and the inputs, with nothing hidden.
pub proof fn lemma_index_peaks_deterministic(a: Peakfinder, b: Peakfinder, data: Seq<i128>, threshold: Ratio)
    requires
        a == b,
    ensures
        scan_result(a, data, threshold) == scan_result(b, data, threshold),
        spec_peaks_of(data, spec_runs(scan_result(a, data, threshold).trigs))
            == spec_peaks_of(data, spec_runs(scan_result(b, data, threshold).trigs)),
{
}

impl Peakfinder {
    /// Processes one block of exactly `processing_interval` samples: pushes
    /// it into the working buffer, seeds the statistics on the first call,
    /// scans it index by index — testing each sample against the most
    /// recently computed baseline, blending triggered samples toward their
    /// predecessor, and (after the first block) advancing the statistics by
    /// one exact incremental step per sample — then groups this block's
    /// trigger indices into runs and appends one reduced peak per run. A
    /// block of any other length is rejected before anything is touched.
    #[verifier::rlimit(100)]
    pub fn index_peaks(&mut self, data: &Vec<i128>, threshold: Ratio) -> (r: Result<(), StatsError>)
        requires
            old(self).wf(),
            samples_ok(data@),
            0 < threshold.den <= RATIO_LIMIT,
            -RATIO_LIMIT <= threshold.num <= RATIO_LIMIT,
        ensures
            r is Ok <==> data@.len() == old(self).processing_interval,
            r is Err ==> r == Result::<(), StatsError>::Err(StatsError::BlockSizeMismatch)
                && *final(self) == *old(self),
            final(self).wf(),
            call_frame(*final(self), *old(self)),
            final(self).seeded || r is Err,
            r is Ok ==> {
                let stn = scan_result(*old(self), data@, threshold);
                &&& final(self).peak_indices@ == old(self).peak_indices@ + stn.trigs
                &&& final(self).peaks@ == old(self).peaks@
                    + spec_peaks_of(data@, spec_runs(stn.trigs))
                &&& ring_seq(final(self).weighted_data) == stn.data
                &&& final(self).weighted_stats.avgs() == stn.avgs
                &&& final(self).weighted_stats.vars() == stn.vars
                &&& final(self).weighted_stats.maxs() == stn.maxs
                &&& final(self).prev_tail@ == (if old(self).seeded { stn.data } else { data@ })
                    .subrange(old(self).processing_interval - old(self).window_size,
                        old(self).processing_interval as int)
            },
    {
        let n = self.processing_interval;
        let w = self.window_size;
        if data.len() != n {
            return Err(StatsError::BlockSizeMismatch);
        }
        let is_first = !self.seeded;
        let ghost p = scan_params(*old(self), threshold);
        let ghost st0 = scan_start(*old(self), data@);
        proof {
            assert(params_ok(p));
        }

        let ghost r0 = ring_seq(self.weighted_data);
        let mut i: usize = 0;
        while i < n
            invariant
                i <= n == self.processing_interval == data@.len(),
                r0 == ring_seq(old(self).weighted_data),
                r0.len() == 0 || r0.len() == n,
                ring_cap(self.weighted_data) == n,
                ring_seq(self.weighted_data) == if r0.len() == 0 {
                    data@.take(i as int)
                } else {
                    r0.skip(i as int) + data@.take(i as int)
                },
                self.weighted_stats == old(self).weighted_stats,
                self.prev_tail == old(self).prev_tail,
                self.seeded == old(self).seeded,
                self.peaks == old(self).peaks,
                self.peak_indices == old(self).peak_indices,
                self.processing_interval == old(self).processing_interval,
                self.window_size == old(self).window_size,
                self.peak_weight == old(self).peak_weight,
                self.dispersion_mode == old(self).dispersion_mode,
            decreases n - i,
        {
            let ghost before = ring_seq(self.weighted_data);
            ring_push(&mut self.weighted_data, data[i]);
            proof {
                if r0.len() == 0 {
                    assert(before.len() == i < n);
                    assert(ring_seq(self.weighted_data) =~= data@.take(i + 1));
                } else {
                    assert(before.len() == n);
                    assert(ring_seq(self.weighted_data)
                        =~= r0.skip(i + 1) + data@.take(i + 1));
                }
            }
            i = i + 1;
        }
        proof {
            if r0.len() == 0 {
                assert(ring_seq(self.weighted_data) =~= data@);
            } else {
                assert(ring_seq(self.weighted_data) =~= data@);
            }
        }

        if is_first {
            self.weighted_stats.init_moving_avg(data);
            self.weighted_stats.init_moving_variance(data);
            self.weighted_stats.init_moving_max(data);
            let mut tl: Vec<i128> = Vec::new();
            let mut k: usize = 0;
            while k < w
                invariant
                    k <= w == self.window_size <= n == self.processing_interval == data@.len(),
                    tl@.len() == k,
                    forall|j: int| 0 <= j < k ==> #[trigger] tl@[j] == data@[n - w + j],
                decreases w - k,
            {
                tl.push(data[n - w + k]);
                k = k + 1;
            }
            self.prev_tail = tl;
            self.seeded = true;
            proof {
                assert(self.weighted_stats.avgs() =~= st0.avgs);
                assert(self.weighted_stats.vars() =~= st0.vars);
                assert(self.weighted_stats.maxs() =~= st0.maxs);
                assert(self.prev_tail@ =~= st0.tail);
                assert forall|k2: int| 0 <= k2 < p.cap
                    implies 0 <= #[trigger] st0.avgs[k2] <= p.w * MAG_LIMIT by {
                    assert(st0.avgs[k2] == self.weighted_stats.avgs()[k2]);
                }
                assert forall|k2: int| 0 <= k2 < p.cap
                    implies 0 <= #[trigger] st0.vars[k2] <= var_limit(p.w) by {
                    assert(st0.vars[k2] == self.weighted_stats.vars()[k2]);
                }
                assert forall|k2: int| 0 <= k2 < p.cap
                    implies 0 <= #[trigger] st0.maxs[k2] <= MAG_LIMIT by {
                    assert(st0.maxs[k2] == self.weighted_stats.maxs()[k2]);
                }
                assert(samples_ok(st0.tail));
                assert(scan_ok(st0, 0, p));
            }
        } else {
            proof {
                let comb = st0.tail + st0.data;
                assert forall|j: int| 0 <= j < p.w implies comb[j] == st0.tail[j] by {}
                lemma_win_sum_agree(comb, st0.tail, p.w - 1, p.w);
                assert forall|c: int| 1 <= c <= p.w
                    implies #[trigger] comb[p.w + 0 - c] == st0.tail[p.w + 0 - c] by {}
                lemma_dev_win_agree(comb, st0.tail, st0.avgs, 0, p.w, p.w);
                assert(scan_ok(st0, 0, p));
            }
        }
        proof {
            assert(scan(st0, 0, p) == st0);
            assert(matches_scan(*self, Seq::<usize>::empty(), st0));
        }

        let mut trigs: Vec<usize> = Vec::new();
        i = 0;
        while i < n
            invariant
                i <= n,
                n == self.processing_interval == data@.len(),
                w == self.window_size,
                p == scan_params(*old(self), threshold),
                st0 == scan_start(*old(self), data@),
                params_ok(p),
                is_first == p.first,
                0 < threshold.den <= RATIO_LIMIT,
                -RATIO_LIMIT <= threshold.num <= RATIO_LIMIT,
                threshold.num == p.tn && threshold.den == p.td,
                self.seeded,
                self.prev_tail@ == st0.tail,
                scan(st0, i as int, p).tail == st0.tail,
                call_frame(*self, *old(self)),
                self.peaks == old(self).peaks,
                self.peak_indices == old(self).peak_indices,
                matches_scan(*self, trigs@, scan(st0, i as int, p)),
                scan_ok(scan(st0, i as int, p), i as int, p),
                p.first ==> scan(st0, i as int, p).avgs == st0.avgs,
                p.first ==> scan(st0, i as int, p).vars == st0.vars,
                p.first ==> scan(st0, i as int, p).maxs == st0.maxs,
            decreases n - i,
        {
            let ghost sti = scan(st0, i as int, p);
            let ghost st1 = scan_step(sti, i as int, p);
            proof {
                lemma_scan_step_ok(sti, i as int, p);
                assert(scan(st0, i as int + 1, p) == st1);
            }
            let x0 = ring_get(&self.weighted_data, i);
            proof {
                assert(x0 == sti.data[i as int]);
                assert(sample_ok(x0));
            }
            let w128 = w as i128;
            let tdv = threshold.den;
            let tnv = threshold.num;
            let hit: bool;
            if is_first && i == 0 {
                hit = false;
            } else {
                let a = if is_first {
                    ring_get(&self.weighted_stats.moving_avg, i - 1)
                } else {
                    ring_get(&self.weighted_stats.moving_avg, n - 1)
                };
                proof {
                    assert(a as int
                        == if p.first { sti.avgs[i - 1] as int } else { sti.avgs.last() as int });
                    assert(0 <= a <= p.w * MAG_LIMIT);
                    lemma_mul_abs(tdv as int, w as int, RATIO_LIMIT as int, MAX_INTERVAL as int);
                    lemma_mul_abs((tdv * w128) as int, x0 as int,
                        RATIO_LIMIT * MAX_INTERVAL as int, MAG_LIMIT as int);
                    lemma_mul_abs(tdv as int, a as int, RATIO_LIMIT as int,
                        MAX_INTERVAL as int * MAG_LIMIT);
                    lemma_mul_abs(tnv as int, w as int, RATIO_LIMIT as int, MAX_INTERVAL as int);
                }
                match self.dispersion_mode {
                    DispersionMode::MaxRelative => {
                        let m = if is_first {
                            ring_get(&self.weighted_stats.moving_max, i - 1)
                        } else {
                            ring_get(&self.weighted_stats.moving_max, n - 1)
                        };
                        proof {
                            assert(m as int == if p.first {
                                sti.maxs[i - 1] as int
                            } else {
                                sti.maxs.last() as int
                            });
                            assert(0 <= m <= MAG_LIMIT);
                            lemma_mul_abs((tnv * w128) as int, m as int,
                                RATIO_LIMIT * MAX_INTERVAL as int, MAG_LIMIT as int);
                        }
                        hit = tdv * w128 * x0 > tdv * a + tnv * w128 * m;
                        proof {
                            assert(hit == trigger_max_rel(x0 as int, a as int, m as int, p));
                        }
                    },
                    DispersionMode::StdevRelative => {
                        let v = if is_first {
                            ring_get(&self.weighted_stats.moving_variance, i - 1)
                        } else {
                            ring_get(&self.weighted_stats.moving_variance, n - 1)
                        };
                        proof {
                            assert(v as int == if p.first {
                                sti.vars[i - 1] as int
                            } else {
                                sti.vars.last() as int
                            });
                            assert(0 <= v <= var_limit(p.w));
                            lemma_var_limit_fits(v as int, p.w);
                            lemma_mul_abs(w as int, x0 as int, MAX_INTERVAL as int,
                                MAG_LIMIT as int);
                            lemma_mul_abs(tdv as int, tdv as int, RATIO_LIMIT as int,
                                RATIO_LIMIT as int);
                            lemma_mul_abs((tdv * tdv) as int, w as int,
                                RATIO_LIMIT * RATIO_LIMIT, MAX_INTERVAL as int);
                            lemma_mul_abs(tnv as int, tnv as int, RATIO_LIMIT as int,
                                RATIO_LIMIT as int);
                        }
                        let d = w128 * x0 - a;
                        proof {
                            assert(-(137438953472 as int) <= d as int <= 137438953472) by {
                                assert(0 <= a as int <= MAX_INTERVAL as int * MAG_LIMIT);
                            }
                            lemma_mul_abs(d as int, d as int, 137438953472 as int,
                                137438953472 as int);
                            lemma_mul_abs((tdv * tdv * w128) as int, (d as int) * (d as int),
                                4398046511104 as int, (137438953472 as int) * (137438953472 as int));
                            lemma_mul_abs((tnv * tnv) as int, v as int,
                                RATIO_LIMIT * RATIO_LIMIT, 0x1000000000000000000000000);
                        }
                        let dd = d * d;
                        if v < 0 {
                            hit = false;
                        } else if tnv >= 0 {
                            hit = d > 0 && tdv * tdv * w128 * dd > tnv * tnv * v;
                        } else {
                            hit = d > 0 || (d == 0 && v > 0)
                                || (d < 0 && tdv * tdv * w128 * dd < tnv * tnv * v);
                        }
                        proof {
                            assert(dd as int == (d as int) * (d as int));
                            assert(hit == trigger_stdev_rel(x0 as int, a as int, v as int, p));
                        }
                    },
                }
            }
            proof {
                assert(hit == scan_hit(sti, i as int, p));
            }
            if hit {
                trigs.push(i);
                if i > 0 {
                    let prevv = ring_get(&self.weighted_data, i - 1);
                    let wnv = self.peak_weight.num;
                    let wdv = self.peak_weight.den;
                    proof {
                        assert(sample_ok(prevv));
                        lemma_mul_abs((wdv - wnv) as int, prevv as int, RATIO_LIMIT as int,
                            MAG_LIMIT as int);
                        lemma_mul_abs(wnv as int, x0 as int, RATIO_LIMIT as int, MAG_LIMIT as int);
                        lemma_blend_num_range(prevv as int, x0 as int, wnv as int, wdv as int);
                        lemma_smooth_range(prevv as int, x0 as int, wnv as int, wdv as int);
                    }
                    let num = (wdv - wnv) * prevv + wnv * x0;
                    let sm = ((num as u128) / (wdv as u128)) as i128;
                    proof {
                        assert(sm as int
                            == spec_smooth(prevv as int, x0 as int, p.wn, p.wd));
                        assert(sm == (spec_smooth(sti.data[i - 1] as int, sti.data[i as int] as int,
                            p.wn, p.wd) as i128));
                    }
                    ring_set(&mut self.weighted_data, i, sm);
                }
            }
            proof {
                assert(ring_seq(self.weighted_data) =~= st1.data);
                assert(trigs@ =~= st1.trigs);
            }
            if !is_first {
                let entering = ring_get(&self.weighted_data, i);
                let leaving = if i < w {
                    self.prev_tail[i]
                } else {
                    ring_get(&self.weighted_data, i - w)
                };
                let ghost comb1 = sti.tail + st1.data;
                proof {
                    assert(entering == comb1[p.w + i]);
                    if i < w {
                        assert(leaving == sti.tail[i as int]);
                        assert(leaving == comb1[i as int]);
                    } else {
                        assert(leaving == st1.data[i - w]);
                        assert(leaving == comb1[i as int]);
                    }
                    assert(sample_ok(entering));
                    assert(sample_ok(leaving));
                    assert forall|j: int| 0 <= j < comb1.len()
                        implies sample_ok(#[trigger] comb1[j]) by {
                        if j < p.w {
                            assert(comb1[j] == sti.tail[j]);
                        } else {
                            assert(comb1[j] == st1.data[j - p.w]);
                        }
                    }
                    assert forall|j: int| 0 <= j < p.w + i
                        implies comb1[j] == (sti.tail + sti.data)[j] by {
                        if j >= p.w {
                            assert(st1.data[j - p.w] == sti.data[j - p.w]);
                        }
                    }
                    lemma_win_sum_agree(comb1, sti.tail + sti.data, p.w + i - 1, p.w);
                    lemma_win_sum_shift(comb1, p.w + i, p.w);
                    lemma_win_sum_bounds(comb1, p.w + i, p.w);
                    assert(self.weighted_stats.avgs().last() as int + entering - leaving
                        == win_sum(comb1, p.w + i, p.w));
                }
                self.weighted_stats.update_moving_variance(leaving, entering);
                self.weighted_stats.update_moving_avg(leaving, entering);
                proof {
                    assert(self.weighted_stats.avgs() =~= st1.avgs);
                    assert(self.weighted_stats.vars() =~= st1.vars);
                }
                let mut win: Vec<i128> = Vec::new();
                let mut k: usize = 0;
                while k < w
                    invariant
                        k <= w == self.window_size,
                        i < n == self.processing_interval,
                        w <= n <= MAX_INTERVAL,
                        win@.len() == k,
                        comb1 == sti.tail + st1.data,
                        sti.tail.len() == w,
                        st1.data.len() == n,
                        self.prev_tail@ == sti.tail,
                        ring_seq(self.weighted_data) == st1.data,
                        forall|j: int| 0 <= j < k ==> #[trigger] win@[j] == comb1[i + 1 + j],
                    decreases w - k,
                {
                    let pos = i + 1 + k;
                    if pos < w {
                        win.push(self.prev_tail[pos]);
                    } else {
                        win.push(ring_get(&self.weighted_data, pos - w));
                    }
                    k = k + 1;
                }
                proof {
                    assert forall|j: int| 0 <= j < win@.len()
                        implies sample_ok(#[trigger] win@[j]) by {
                        assert(win@[j] == comb1[i + 1 + j]);
                    }
                    assert forall|c: int| 0 <= c < p.w
                        implies #[trigger] win@[w - 1 - c] == comb1[p.w + i - c] by {
                        assert(win@[w - 1 - c] == comb1[i + 1 + (w - 1 - c)]);
                    }
                    lemma_win_max_translate(win@, comb1, w - 1, p.w + i, p.w);
                }
                self.weighted_stats.update_moving_max(&win);
                proof {
                    assert(self.weighted_stats.maxs() =~= st1.maxs);
                }
            }
            i = i + 1;
            proof {
                assert(matches_scan(*self, trigs@, scan(st0, i as int, p)));
            }
        }

        let ghost stn = scan(st0, n as int, p);
        if !is_first {
            let mut tl: Vec<i128> = Vec::new();
            let mut k: usize = 0;
            while k < w
                invariant
                    k <= w == self.window_size <= n == self.processing_interval,
                    tl@.len() == k,
                    ring_seq(self.weighted_data) == stn.data,
                    stn.data.len() == n,
                    forall|j: int| 0 <= j < k ==> #[trigger] tl@[j] == stn.data[n - w + j],
                decreases w - k,
            {
                tl.push(ring_get(&self.weighted_data, n - w + k));
                k = k + 1;
            }
            self.prev_tail = tl;
            proof {
                assert(self.prev_tail@ =~= stn.data.subrange(n - w, n as int));
            }
        }
        proof {
            // the two exactness facts of `seeded_wf`, carried from the scan
            // to the freshly cut tail
            let combn = stn.tail + stn.data;
            if p.first {
                assert(self.prev_tail@ =~= data@.subrange(n - w, n as int));
                assert forall|k: int| 0 <= k < p.w
                    implies #[trigger] self.prev_tail@[k] == data@[data@.len() - p.w + k] by {}
                assert forall|k: int| 0 <= k < p.w
                    implies #[trigger] self.prev_tail@[w - 1 - k] == data@[n - 1 - k] by {
                    assert(self.prev_tail@[w - 1 - k] == data@[n - w + (w - 1 - k)]);
                }
                lemma_win_sum_translate(self.prev_tail@, data@, w - 1, n - 1, p.w);
                assert(seed_avg(data@, n - 1, p.w) == win_sum(data@, n - 1, p.w));
                assert(self.weighted_stats.avgs() == st0.avgs);
                assert forall|k: int| 0 <= k < self.weighted_stats.avgs().len()
                    implies #[trigger] self.weighted_stats.avgs()[k] as int
                        == seed_avg(data@, k, p.w) by {
                    assert(self.weighted_stats.avgs()[k] == st0.avgs[k]);
                }
                assert(self.weighted_stats.avgs()[n - 1] as int == seed_avg(data@, n - 1, p.w));
                assert(self.weighted_stats.avgs().last() as int
                    == win_sum(self.prev_tail@, p.w - 1, p.w));
                lemma_dev_win_from_seed(data@, self.prev_tail@, self.weighted_stats.avgs(),
                    p.w, p.w);
                assert(seed_var(data@, n - 1, p.w) == seed_dev_sum(data@, n - 1, p.w, p.w));
                assert(self.weighted_stats.vars().last() as int
                    == dev_win(self.prev_tail@, self.weighted_stats.avgs(), 0, p.w, p.w));
            } else {
                assert forall|c: int| 1 <= c <= p.w
                    implies #[trigger] self.prev_tail@[p.w + 0 - c] == combn[p.w + n - c] by {
                    assert(self.prev_tail@[w - c] == stn.data[n - w + (w - c)]);
                    assert(combn[p.w + n - c] == stn.data[n - c]);
                }
                assert forall|k: int| 0 <= k < p.w
                    implies #[trigger] self.prev_tail@[p.w - 1 - k] == combn[p.w + n - 1 - k] by {
                    assert(self.prev_tail@[p.w - 1 - k] == combn[p.w + n - (k + 1)]);
                }
                lemma_win_sum_translate(self.prev_tail@, combn, p.w - 1, p.w + n - 1, p.w);
                lemma_dev_win_translate(self.prev_tail@, combn, self.weighted_stats.avgs(),
                    0, n as int, p.w, p.w);
                assert(self.weighted_stats.avgs().last() as int
                    == win_sum(self.prev_tail@, p.w - 1, p.w));
                assert(self.weighted_stats.vars().last() as int
                    == dev_win(self.prev_tail@, self.weighted_stats.avgs(), 0, p.w, p.w));
            }
            assert(samples_ok(self.prev_tail@));
            assert(self.seeded_wf());
            assert(self.wf());
        }

        let runs = group_runs(&trigs);
        proof {
            lemma_runs_bounds(trigs@, n as int);
        }
        let ghost peaks0 = self.peaks@;
        let mut ri: usize = 0;
        while ri < runs.len()
            invariant
                ri <= runs@.len(),
                runs@ == spec_runs(trigs@),
                n == self.processing_interval == data@.len(),
                forall|k: int| 0 <= k < runs@.len()
                    ==> (#[trigger] runs@[k]).0 <= runs@[k].1 < n,
                self.peaks@ == peaks0 + spec_peaks_of(data@, runs@.take(ri as int)),
                self.peak_indices == old(self).peak_indices,
                self.wf(),
                self.seeded,
                call_frame(*self, *old(self)),
                trigs@ == stn.trigs,
                ring_seq(self.weighted_data) == stn.data,
                self.weighted_stats.avgs() == stn.avgs,
                self.weighted_stats.vars() == stn.vars,
                self.weighted_stats.maxs() == stn.maxs,
                w == self.window_size,
                self.prev_tail@ == (if p.first { data@ } else { stn.data })
                    .subrange(n - w, n as int),
            decreases runs@.len() - ri,
        {
            let run = runs[ri];
            let pk = reduce_run(data, run.0, run.1);
            self.peaks.push(pk);
            proof {
                assert(spec_peaks_of(data@, runs@.take(ri + 1))
                    =~= spec_peaks_of(data@, runs@.take(ri as int)).push(
                        spec_peak(data@, runs@[ri as int].0, runs@[ri as int].1)));
            }
            ri = ri + 1;
        }
        proof {
            assert(runs@.take(runs@.len() as int) =~= runs@);
        }

        let mut k: usize = 0;
        let ghost pidx0 = self.peak_indices@;
        let ghost peaks_done = self.peaks@;
        while k < trigs.len()
            invariant
                k <= trigs@.len(),
                self.peak_indices@ == pidx0 + trigs@.take(k as int),
                self.peaks@ == peaks_done,
                self.wf(),
                self.seeded,
                call_frame(*self, *old(self)),
                trigs@ == stn.trigs,
                ring_seq(self.weighted_data) == stn.data,
                self.weighted_stats.avgs() == stn.avgs,
                self.weighted_stats.vars() == stn.vars,
                self.weighted_stats.maxs() == stn.maxs,
                n == self.processing_interval,
                w == self.window_size,
                self.prev_tail@ == (if p.first { data@ } else { stn.data })
                    .subrange(n - w, n as int),
            decreases trigs@.len() - k,
        {
            self.peak_indices.push(trigs[k]);
            proof {
                assert(pidx0 + trigs@.take(k as int + 1)
                    =~= (pidx0 + trigs@.take(k as int)).push(trigs@[k as int]));
            }
            k = k + 1;
        }
        proof {
            assert(trigs@.take(trigs@.len() as int) =~= trigs@);
        }
        Ok(())
    }
}

} // verus!
