//! Bookkeeping of the concurrent HTTP load test: per-worker counters and
//! series, and the aggregation of all workers into one result with
//! throughput and latency percentiles.

use crate::percentile::{p1_index, p50_index, p99_index, sorted_i64};
use crate::sorting::sorted_u64;
use vstd::prelude::*;

verus! {

/// What one worker hands back at join: its counters, per-request latencies
/// in microseconds, per-second success deltas, and its elapsed wall time in
/// milliseconds.
pub struct ThreadResult {
    pub success_count: i32,
    pub fail_count: i32,
    pub rps_per_second: Vec<i32>,
    pub latency_us: Vec<u64>,
    pub total_time: u64,
}

/// The merged outcome of one load-test run. `total_time` is in
/// milliseconds, the latencies in microseconds; `rps_p99` is the worst
/// near-minimum second of the summed series, not a top-tail percentile.
#[derive(Debug, PartialEq, Eq)]
pub struct HttpLoadResult {
    pub success_count: i32,
    pub fail_count: i32,
    pub total_time: u64,
    pub rps_median: i32,
    pub rps_p99: i32,
    pub latency_median: u64,
    pub latency_p99: u64,
}

/// Why a load-test run is refused: no request at all succeeded, or failures
/// occurred while the caller treats any failure as fatal.
#[derive(Debug, Clone, PartialEq, Eq)]
pub enum LoadTestError {
    NoSuccessfulRequests,
    RequestsFailed,
}

pub open spec fn sum_success(rs: Seq<ThreadResult>) -> int
    decreases rs.len(),
{
    if rs.len() == 0 {
        0
    } else {
        sum_success(rs.drop_last()) + rs.last().success_count
    }
}

pub open spec fn sum_fail(rs: Seq<ThreadResult>) -> int
    decreases rs.len(),
{
    if rs.len() == 0 {
        0
    } else {
        sum_fail(rs.drop_last()) + rs.last().fail_count
    }
}

/// All attempts the workers recorded: every success and every failure.
pub open spec fn sum_attempts(rs: Seq<ThreadResult>) -> int {
    sum_success(rs) + sum_fail(rs)
}

/// The longest elapsed time over all workers.
pub open spec fn max_total_time(rs: Seq<ThreadResult>) -> int
    decreases rs.len(),
{
    if rs.len() == 0 {
        0
    } else {
        let rest = max_total_time(rs.drop_last());
        if rs.last().total_time > rest {
            rs.last().total_time as int
        } else {
            rest
        }
    }
}

/// Seconds covered by the summed series: what the first worker recorded.
pub open spec fn series_len(rs: Seq<ThreadResult>) -> int {
    if rs.len() == 0 {
        0
    } else {
        rs[0].rps_per_second@.len() as int
    }
}

/// The summed throughput of second `i` over all workers.
pub open spec fn rps_sum_at(rs: Seq<ThreadResult>, i: int) -> int
    decreases rs.len(),
{
    if rs.len() == 0 {
        0
    } else {
        rps_sum_at(rs.drop_last(), i) + rs.last().rps_per_second@[i]
    }
}

/// Every worker's latencies, pooled.
pub open spec fn all_latencies(rs: Seq<ThreadResult>) -> Seq<u64>
    decreases rs.len(),
{
    if rs.len() == 0 {
        Seq::empty()
    } else {
        all_latencies(rs.drop_last()) + rs.last().latency_us@
    }
}

/// The per-worker results are well formed: no negative counter, no negative
/// per-second delta, and every worker covers at least the seconds the first
/// one recorded, so the series can be summed index-wise.
pub open spec fn results_wf(rs: Seq<ThreadResult>) -> bool {
    forall|k: int|
        0 <= k < rs.len() ==> (#[trigger] rs[k]).success_count >= 0 && rs[k].fail_count >= 0
            && rs[k].rps_per_second@.len() >= series_len(rs) && (forall|j: int|
            0 <= j < rs[k].rps_per_second@.len() ==> (#[trigger] rs[k].rps_per_second@[j]) >= 0)
}

proof fn lemma_sums_nonneg(rs: Seq<ThreadResult>, i: int)
    requires
        forall|k: int|
            0 <= k < rs.len() ==> (#[trigger] rs[k]).success_count >= 0 && rs[k].fail_count >= 0
                && (0 <= i < rs[k].rps_per_second@.len() ==> rs[k].rps_per_second@[i] >= 0),
    ensures
        sum_success(rs) >= 0,
        sum_fail(rs) >= 0,
        (forall|k: int|
            0 <= k < rs.len() ==> 0 <= i < (#[trigger] rs[k]).rps_per_second@.len()) ==> rps_sum_at(
            rs,
            i,
        ) >= 0,
    decreases rs.len(),
{
    if rs.len() > 0 {
        assert(rs.last() == rs[rs.len() - 1]);
        assert(forall|k: int| 0 <= k < rs.len() - 1 ==> #[trigger] rs.drop_last()[k] == rs[k]);
        lemma_sums_nonneg(rs.drop_last(), i);
    }
}

/// Merges all worker results. The total time is the slowest worker's, the
/// counters are summed, the per-second series is summed index-wise and
/// sorted for its median and worst-case low tail, and the pooled latencies
/// are sorted for their median and 99th percentile. A run without a single
/// success is refused, as is one with failures when failures are fatal.
#[verifier::rlimit(60)]
pub fn aggregate_load_results(results: &Vec<ThreadResult>, fail_is_fatal: bool) -> (r: Result<
    HttpLoadResult,
    LoadTestError,
>)
    requires
        results_wf(results@),
        results@.len() <= 0x1000_0000,
        sum_success(results@) <= i32::MAX,
        sum_fail(results@) <= i32::MAX,
        forall|i: int| 0 <= i < series_len(results@) ==> rps_sum_at(results@, i) <= i32::MAX,
        (sum_success(results@) > 0 && !(fail_is_fatal && sum_fail(results@) > 0)) ==> series_len(
            results@,
        ) > 0 && all_latencies(results@).len() > 0,
    ensures
        match r {
            Err(LoadTestError::NoSuccessfulRequests) => sum_success(results@) == 0,
            Err(LoadTestError::RequestsFailed) => sum_success(results@) > 0 && fail_is_fatal
                && sum_fail(results@) > 0,
            Ok(res) => sum_success(results@) > 0 && !(fail_is_fatal && sum_fail(results@) > 0)
                && res.success_count == sum_success(results@) && res.fail_count == sum_fail(
                results@,
            ) && res.success_count + res.fail_count == sum_attempts(results@) && res.total_time
                == max_total_time(results@) && (exists|sorted_rps: Seq<i64>|
                #![trigger sorted_rps.to_multiset()]
                sorted_rps.to_multiset() == rps_series(results@).to_multiset() && sorted_i64(
                    sorted_rps,
                ) && res.rps_median == sorted_rps[p50_index(series_len(results@))] && res.rps_p99
                    == sorted_rps[p1_index(series_len(results@))]) && (exists|sorted_lat: Seq<u64>|
                #![trigger sorted_lat.to_multiset()]
                sorted_lat.to_multiset() == all_latencies(results@).to_multiset() && sorted_u64(
                    sorted_lat,
                ) && res.latency_median == sorted_lat[p50_index(all_latencies(results@).len() as int)]
                    && res.latency_p99 == sorted_lat[p99_index(
                    all_latencies(results@).len() as int,
                )]) && ((series_len(results@) == 1 || series_len(results@) >= 4) ==> res.rps_p99
                <= res.rps_median),
        },
{
    let n = results.len();
    let mut success: i64 = 0;
    let mut fail: i64 = 0;
    let mut max_time: u64 = 0;
    let mut k: usize = 0;
    while k < n
        invariant
            k <= n,
            n == results@.len(),
            results_wf(results@),
            n <= 0x1000_0000,
            success == sum_success(results@.take(k as int)),
            fail == sum_fail(results@.take(k as int)),
            max_time == max_total_time(results@.take(k as int)),
            0 <= success <= k * 0x7fff_ffff,
            0 <= fail <= k * 0x7fff_ffff,
        decreases n - k,
    {
        proof {
            assert(results@.take(k + 1).drop_last() =~= results@.take(k as int));
            assert(results@.take(k + 1).last() == results@[k as int]);
            lemma_sums_nonneg(results@.take(k as int), 0);
            assert((k + 1) * 0x7fff_ffff == k * 0x7fff_ffff + 0x7fff_ffff) by (nonlinear_arith);
        }
        let tr = &results[k];
        success = success + (tr.success_count as i64);
        fail = fail + (tr.fail_count as i64);
        if tr.total_time > max_time {
            max_time = tr.total_time;
        }
        k += 1;
    }
    proof {
        assert(results@.take(n as int) =~= results@);
    }
    if success == 0 {
        return Err(LoadTestError::NoSuccessfulRequests);
    }
    if fail_is_fatal && fail > 0 {
        return Err(LoadTestError::RequestsFailed);
    }
    let slen: usize = results[0].rps_per_second.len();
    let mut sums: Vec<i64> = Vec::new();
    let mut i: usize = 0;
    while i < slen
        invariant
            i <= slen,
            n == results@.len(),
            n > 0,
            results_wf(results@),
            n <= 0x1000_0000,
            slen == series_len(results@),
            forall|j: int| 0 <= j < slen ==> rps_sum_at(results@, j) <= i32::MAX,
            sums@.len() == i,
            forall|j: int| 0 <= j < i ==> #[trigger] sums@[j] == rps_sum_at(results@, j),
            forall|j: int| 0 <= j < i ==> 0 <= #[trigger] sums@[j] <= i32::MAX,
        decreases slen - i,
    {
        let mut acc: i64 = 0;
        let mut k2: usize = 0;
        while k2 < n
            invariant
                k2 <= n,
                n == results@.len(),
                results_wf(results@),
                n <= 0x1000_0000,
                slen == series_len(results@),
                i < slen,
                acc == rps_sum_at(results@.take(k2 as int), i as int),
                0 <= acc <= k2 * 0x7fff_ffff,
            decreases n - k2,
        {
            proof {
                assert(results@.take(k2 + 1).drop_last() =~= results@.take(k2 as int));
                assert(results@.take(k2 + 1).last() == results@[k2 as int]);
                assert((k2 + 1) * 0x7fff_ffff == k2 * 0x7fff_ffff + 0x7fff_ffff)
                    by (nonlinear_arith);
            }
            acc = acc + (results[k2].rps_per_second[i] as i64);
            k2 += 1;
        }
        proof {
            assert(results@.take(n as int) =~= results@);
            lemma_sums_nonneg(results@, i as int);
        }
        sums.push(acc);
        i += 1;
    }
    proof {
        assert(sums@ =~= rps_series(results@));
    }
    let sorted_rps = crate::sorting::sort_i64(sums);
    let mut pooled: Vec<u64> = Vec::new();
    let mut k3: usize = 0;
    while k3 < n
        invariant
            k3 <= n,
            n == results@.len(),
            pooled@ == all_latencies(results@.take(k3 as int)),
        decreases n - k3,
    {
        proof {
            assert(results@.take(k3 + 1).drop_last() =~= results@.take(k3 as int));
            assert(results@.take(k3 + 1).last() == results@[k3 as int]);
        }
        let mut chunk = results[k3].latency_us.clone();
        proof {
            assert(chunk@ =~= results@[k3 as int].latency_us@);
        }
        pooled.append(&mut chunk);
        k3 += 1;
    }
    proof {
        assert(results@.take(n as int) =~= results@);
    }
    let lat_len = pooled.len();
    let sorted_lat = crate::sorting::sort_u64(pooled);
    let rps_median_64 = crate::percentile::p50(&sorted_rps);
    let rps_p99_64 = crate::percentile::p1(&sorted_rps);
    proof {
        crate::percentile::lemma_lower_index_in_bounds(sorted_rps@.len() as int, 1, 2);
        crate::percentile::lemma_higher_index_in_bounds(sorted_rps@.len() as int, 1, 100);
        if series_len(results@) == 1 || series_len(results@) >= 4 {
            crate::percentile::lemma_low_tail_at_most_median(sorted_rps@);
        }
    }
    let res = HttpLoadResult {
        success_count: success as i32,
        fail_count: fail as i32,
        total_time: max_time,
        rps_median: rps_median_64 as i32,
        rps_p99: rps_p99_64 as i32,
        latency_median: crate::percentile::p50(&sorted_lat),
        latency_p99: crate::percentile::p99(&sorted_lat),
    };
    Ok(res)
}

/// The summed per-second series, as the signed 64-bit values the merge
/// computes.
pub open spec fn rps_series(rs: Seq<ThreadResult>) -> Seq<i64> {
    Seq::new(series_len(rs) as nat, |i: int| rps_sum_at(rs, i) as i64)
}

/// One worker's bookkeeping while it replays requests: counters, the
/// success count at the last second boundary, the next second to cross, and
/// the gathered series.
pub struct WorkerState {
    pub success_count: i32,
    pub fail_count: i32,
    pub success_count_temp: i32,
    pub second: u64,
    pub latency_us: Vec<u64>,
    pub rps_per_second: Vec<i32>,
}

/// The worker's counters are consistent: the last boundary snapshot never
/// exceeds the current success count.
pub open spec fn worker_wf(w: WorkerState) -> bool {
    0 <= w.success_count_temp <= w.success_count && w.fail_count >= 0 && w.second >= 1
}

impl WorkerState {
    /// A worker that has not sent anything yet, waiting for its first
    /// second to pass.
    pub fn new() -> (r: WorkerState)
        ensures
            worker_wf(r),
            r.success_count == 0,
            r.fail_count == 0,
            r.success_count_temp == 0,
            r.second == 1,
            r.latency_us@.len() == 0,
            r.rps_per_second@.len() == 0,
    {
        WorkerState {
            success_count: 0,
            fail_count: 0,
            success_count_temp: 0,
            second: 1,
            latency_us: Vec::new(),
            rps_per_second: Vec::new(),
        }
    }

    /// One request came back with status 200: count it and keep its latency.
    pub fn record_success(&mut self, latency_us: u64)
        requires
            worker_wf(*old(self)),
            old(self).success_count < i32::MAX,
        ensures
            worker_wf(*final(self)),
            final(self).success_count == old(self).success_count + 1,
            final(self).fail_count == old(self).fail_count,
            final(self).success_count_temp == old(self).success_count_temp,
            final(self).second == old(self).second,
            final(self).latency_us@ == old(self).latency_us@.push(latency_us),
            final(self).rps_per_second == old(self).rps_per_second,
    {
        self.success_count = self.success_count + 1;
        self.latency_us.push(latency_us);
    }

    /// One request failed in transport or came back with another status.
    pub fn record_failure(&mut self)
        requires
            worker_wf(*old(self)),
            old(self).fail_count < i32::MAX,
        ensures
            worker_wf(*final(self)),
            final(self).fail_count == old(self).fail_count + 1,
            final(self).success_count == old(self).success_count,
            final(self).success_count_temp == old(self).success_count_temp,
            final(self).second == old(self).second,
            final(self).latency_us == old(self).latency_us,
            final(self).rps_per_second == old(self).rps_per_second,
    {
        self.fail_count = self.fail_count + 1;
    }

    /// A stored response failed validation after the run: the request moves
    /// from the successes to the failures.
    pub fn validation_failed(&mut self)
        requires
            worker_wf(*old(self)),
            old(self).success_count > 0,
            old(self).fail_count < i32::MAX,
        ensures
            worker_wf(*final(self)),
            final(self).success_count == old(self).success_count - 1,
            final(self).fail_count == old(self).fail_count + 1,
            final(self).success_count + final(self).fail_count == old(self).success_count + old(
                self,
            ).fail_count,
            final(self).latency_us == old(self).latency_us,
            final(self).rps_per_second == old(self).rps_per_second,
    {
        self.success_count = self.success_count - 1;
        self.fail_count = self.fail_count + 1;
        if self.success_count_temp > self.success_count {
            self.success_count_temp = self.success_count;
        }
    }

    /// Crossing a wall-clock second: when the worker's elapsed seconds have
    /// reached the next boundary, either the run is over (the boundary is
    /// the configured duration) or the success delta since the previous
    /// boundary is appended to the series. Returns whether the worker must
    /// stop after its current pass.
    pub fn second_boundary(&mut self, elapsed_secs: u64, duration_secs: u64) -> (stop: bool)
        requires
            worker_wf(*old(self)),
            old(self).second < u64::MAX,
        ensures
            worker_wf(*final(self)),
            final(self).success_count == old(self).success_count,
            final(self).fail_count == old(self).fail_count,
            final(self).latency_us == old(self).latency_us,
            elapsed_secs < old(self).second ==> !stop && *final(self) == *old(self),
            elapsed_secs >= old(self).second && old(self).second == duration_secs ==> stop
                && *final(self) == *old(self),
            elapsed_secs >= old(self).second && old(self).second != duration_secs ==> !stop
                && final(self).rps_per_second@ == old(self).rps_per_second@.push(
                (old(self).success_count - old(self).success_count_temp) as i32,
            ) && final(self).success_count_temp == old(self).success_count && final(self).second
                == old(self).second + 1,
    {
        if elapsed_secs >= self.second {
            if self.second == duration_secs {
                return true;
            }
            self.rps_per_second.push(self.success_count - self.success_count_temp);
            self.success_count_temp = self.success_count;
            self.second = self.second + 1;
        }
        false
    }

    /// The worker's final contribution, with its elapsed wall time in
    /// milliseconds.
    pub fn into_result(self, total_time: u64) -> (r: ThreadResult)
        ensures
            r.success_count == self.success_count,
            r.fail_count == self.fail_count,
            r.latency_us == self.latency_us,
            r.rps_per_second == self.rps_per_second,
            r.total_time == total_time,
    {
        ThreadResult {
            success_count: self.success_count,
            fail_count: self.fail_count,
            rps_per_second: self.rps_per_second,
            latency_us: self.latency_us,
            total_time,
        }
    }
}

} // verus!
