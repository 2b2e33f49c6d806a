//! The round-based benchmark controller's decisions and reductions: the
//! Dockerfile version swap, the warmup/measure/retry bookkeeping of one run,
//! the statistical reduction of the measured rounds, and the conflict
//! resolvers the result table is written with.

use crate::memory::MemoryUsage;
use crate::percentile::{p50_index, p99_index, sorted_i64};
use crate::text::{char_join, i32_str_value, replace_first};
use vstd::prelude::*;

verus! {

/// The version swap applied to a target's Dockerfile for one run.
pub struct DockerFileManipulation {
    pub initial_from_version: String,
    pub new_from_version: String,
}

pub open spec fn is_from_line(l: Seq<char>) -> bool {
    l.len() >= 5 && l.take(5) == "FROM "@
}

/// Every `FROM` line with its first occurrence of the current version
/// replaced by the new one, all other lines kept, joined with newlines and
/// ended by one.
pub open spec fn updated_docker_file(content: Seq<char>, from: Seq<char>, to: Seq<char>) -> Seq<
    char,
> {
    char_join(
        crate::result_table::lines_view(content).map_values(
            |l: Seq<char>|
                if is_from_line(l) {
                    replace_first(l, from, to)
                } else {
                    l
                },
        ),
        "\n"@,
    ) + seq!['\n']
}

/// Swaps the base image version in a Dockerfile: on every line starting
/// with `FROM `, the first occurrence of `current_version` becomes
/// `new_version`; the lines are rejoined with a trailing newline.
pub fn update_docker_file_with_version(
    docker_file_content: &str,
    current_version: &str,
    new_version: &str,
) -> (r: String)
    ensures
        r@ == updated_docker_file(docker_file_content@, current_version@, new_version@),
{
    let lines = crate::result_table::lines_of(docker_file_content);
    let ghost line_views = lines@.map_values(|l: String| l@);
    let ghost f = |l: Seq<char>|
        if is_from_line(l) {
            replace_first(l, current_version@, new_version@)
        } else {
            l
        };
    let mut out_lines: Vec<String> = Vec::new();
    let mut i: usize = 0;
    while i < lines.len()
        invariant
            i <= lines@.len(),
            line_views == lines@.map_values(|l: String| l@),
            f == (|l: Seq<char>|
                if is_from_line(l) {
                    replace_first(l, current_version@, new_version@)
                } else {
                    l
                }),
            out_lines@.len() == i,
            forall|j: int| 0 <= j < i ==> (#[trigger] out_lines@[j])@ == f(line_views[j]),
        decreases lines.len() - i,
    {
        let line = &lines[i];
        let llen = line.as_str().unicode_len();
        let replaced: String = if llen >= 5 && crate::text::str_eq_str(
            line.as_str().substring_char(0, 5),
            "FROM ",
        ) {
            proof {
                assert(line@.take(5) =~= line@.subrange(0, 5));
            }
            crate::text::replace_first_str(line.as_str(), current_version, new_version)
        } else {
            proof {
                if line@.len() >= 5 {
                    assert(line@.take(5) =~= line@.subrange(0, 5));
                }
            }
            line.clone()
        };
        out_lines.push(replaced);
        i += 1;
    }
    let mut out = crate::text::join_strs(&out_lines, "\n");
    out.append("\n");
    proof {
        reveal_strlit("\n");
        assert(out_lines@.map_values(|l: String| l@) =~~= line_views.map_values(f));
        assert(out@ =~= updated_docker_file(docker_file_content@, current_version@, new_version@));
    }
    out
}

/// The reduced outcome of one benchmark run: medians of the measured
/// rounds, and the median of every named metric the rounds reported.
pub struct BenchmarkResult {
    pub time_median: i64,
    pub memory_median: i64,
    pub memory_p99: i64,
    pub additional_data: Vec<(String, i64)>,
}

/// The metric keys of the rounds, in order of first appearance, continuing
/// from `acc`.
pub open spec fn add_keys(acc: Seq<Seq<char>>, round: Seq<(String, i64)>) -> Seq<Seq<char>>
    decreases round.len(),
{
    if round.len() == 0 {
        acc
    } else {
        let acc2 = if acc.contains(round[0].0@) {
            acc
        } else {
            acc.push(round[0].0@)
        };
        add_keys(acc2, round.drop_first())
    }
}

/// The metric keys of all rounds, in order of first appearance.
pub open spec fn all_keys(rounds: Seq<Vec<(String, i64)>>) -> Seq<Seq<char>>
    decreases rounds.len(),
{
    if rounds.len() == 0 {
        Seq::empty()
    } else {
        add_keys(all_keys(rounds.drop_last()), rounds.last()@)
    }
}

/// The first value a round reports under `key`, if any.
pub open spec fn round_value(round: Seq<(String, i64)>, key: Seq<char>) -> Option<i64>
    decreases round.len(),
{
    if round.len() == 0 {
        None
    } else if round[0].0@ == key {
        Some(round[0].1)
    } else {
        round_value(round.drop_first(), key)
    }
}

/// The values reported under `key`, one per round that carries it.
pub open spec fn gathered(rounds: Seq<Vec<(String, i64)>>, key: Seq<char>) -> Seq<i64>
    decreases rounds.len(),
{
    if rounds.len() == 0 {
        Seq::empty()
    } else {
        let rest = gathered(rounds.drop_last(), key);
        match round_value(rounds.last()@, key) {
            Some(v) => rest.push(v),
            None => rest,
        }
    }
}

fn round_lookup(round: &Vec<(String, i64)>, key: &str) -> (r: Option<i64>)
    ensures
        r == round_value(round@, key@),
{
    let ghost rv = round@;
    let mut i: usize = 0;
    proof {
        assert(rv.skip(0) =~= rv);
    }
    loop
        invariant
            i <= round@.len(),
            rv == round@,
            round_value(rv, key@) == round_value(rv.skip(i as int), key@),
        decreases round@.len() - i,
    {
        if i == round.len() {
            return None;
        }
        proof {
            assert(rv.skip(i as int)[0] == rv[i as int]);
            assert(rv.skip(i as int).drop_first() =~= rv.skip(i + 1));
        }
        if crate::text::str_eq_str(round[i].0.as_str(), key) {
            return Some(round[i].1);
        }
        i += 1;
    }
}

fn contains_str(keys: &Vec<String>, key: &str) -> (r: bool)
    ensures
        r == keys@.map_values(|k: String| k@).contains(key@),
{
    let ghost kv = keys@.map_values(|k: String| k@);
    let mut i: usize = 0;
    while i < keys.len()
        invariant
            i <= keys@.len(),
            kv == keys@.map_values(|k: String| k@),
            forall|j: int| 0 <= j < i ==> kv[j] != key@,
        decreases keys.len() - i,
    {
        if crate::text::str_eq_str(keys[i].as_str(), key) {
            proof {
                assert(kv[i as int] == key@);
            }
            return true;
        }
        i += 1;
    }
    proof {
        if kv.contains(key@) {
            let j = choose|j: int| 0 <= j < kv.len() && kv[j] == key@;
        }
    }
    false
}

/// The per-round metric maps reduced to one median per key: for each key in
/// order of first appearance, the values of the rounds that report it are
/// sorted and the middle one is kept.
pub open spec fn metrics_reduced(
    rounds: Seq<Vec<(String, i64)>>,
    out: Seq<(String, i64)>,
) -> bool {
    out.len() == all_keys(rounds).len() && forall|k: int|
        0 <= k < out.len() ==> (#[trigger] out[k]).0@ == all_keys(rounds)[k] && (exists|
            sorted: Seq<i64>,
        |
            #![trigger sorted.to_multiset()]
            sorted.to_multiset() == gathered(rounds, all_keys(rounds)[k]).to_multiset()
                && sorted_i64(sorted) && sorted.len() > 0 && out[k].1 == sorted[(
            sorted.len() / 2) as int])
}

/// A key appearing among `all_keys` is reported by at least one round.
proof fn lemma_key_gathered(rounds: Seq<Vec<(String, i64)>>, key: Seq<char>)
    requires
        all_keys(rounds).contains(key),
    ensures
        gathered(rounds, key).len() > 0,
    decreases rounds.len(),
{
    if rounds.len() > 0 {
        if all_keys(rounds.drop_last()).contains(key) {
            lemma_key_gathered(rounds.drop_last(), key);
        } else {
            lemma_added_key_in_round(all_keys(rounds.drop_last()), rounds.last()@, key);
        }
    }
}

/// A key that `add_keys` adds is reported by the round it was added from.
proof fn lemma_added_key_in_round(acc: Seq<Seq<char>>, round: Seq<(String, i64)>, key: Seq<char>)
    requires
        add_keys(acc, round).contains(key),
        !acc.contains(key),
    ensures
        round_value(round, key) is Some,
    decreases round.len(),
{
    if round.len() > 0 {
        let acc2 = if acc.contains(round[0].0@) {
            acc
        } else {
            acc.push(round[0].0@)
        };
        if round[0].0@ == key {
        } else {
            assert(!acc2.contains(key)) by {
                if acc2.contains(key) {
                    let j = choose|j: int| 0 <= j < acc2.len() && acc2[j] == key;
                    if j < acc.len() {
                        assert(acc[j] == key);
                    }
                }
            }
            lemma_added_key_in_round(acc2, round.drop_first(), key);
        }
    }
}

proof fn lemma_add_keys_grows(acc: Seq<Seq<char>>, round: Seq<(String, i64)>, key: Seq<char>)
    requires
        acc.contains(key),
    ensures
        add_keys(acc, round).contains(key),
    decreases round.len(),
{
    if round.len() > 0 {
        let acc2 = if acc.contains(round[0].0@) {
            acc
        } else {
            acc.push(round[0].0@)
        };
        assert(acc2.contains(key)) by {
            let j = choose|j: int| 0 <= j < acc.len() && acc[j] == key;
            assert(acc2[j] == key);
        }
        lemma_add_keys_grows(acc2, round.drop_first(), key);
    }
}

/// Reduces the rounds' metric maps to one median per key.
fn reduce_metrics(rounds: &Vec<Vec<(String, i64)>>) -> (r: Vec<(String, i64)>)
    ensures
        metrics_reduced(rounds@, r@),
{
    let mut keys: Vec<String> = Vec::new();
    let mut i: usize = 0;
    proof {
        assert(keys@.map_values(|k: String| k@) =~~= all_keys(rounds@.take(0)));
    }
    while i < rounds.len()
        invariant
            i <= rounds@.len(),
            keys@.map_values(|k: String| k@) == all_keys(rounds@.take(i as int)),
        decreases rounds.len() - i,
    {
        let round = &rounds[i];
        let ghost acc0 = all_keys(rounds@.take(i as int));
        let mut j: usize = 0;
        proof {
            assert(rounds@.take(i + 1).drop_last() =~= rounds@.take(i as int));
            assert(rounds@.take(i + 1).last() == rounds@[i as int]);
            assert(round@.skip(0) =~= round@);
        }
        while j < round.len()
            invariant
                j <= round@.len(),
                round@ == rounds@[i as int]@,
                add_keys(acc0, rounds@[i as int]@) == add_keys(
                    keys@.map_values(|k: String| k@),
                    round@.skip(j as int),
                ),
            decreases round.len() - j,
        {
            proof {
                assert(round@.skip(j as int)[0] == round@[j as int]);
                assert(round@.skip(j as int).drop_first() =~= round@.skip(j + 1));
            }
            if !contains_str(&keys, round[j].0.as_str()) {
                let ghost kv0 = keys@.map_values(|k: String| k@);
                keys.push(round[j].0.clone());
                proof {
                    assert(keys@.map_values(|k: String| k@) =~~= kv0.push(round@[j as int].0@));
                }
            }
            j += 1;
        }
        proof {
            assert(round@.skip(round@.len() as int) =~= Seq::<(String, i64)>::empty());
            assert(add_keys(keys@.map_values(|k: String| k@), round@.skip(round@.len() as int))
                == keys@.map_values(|k: String| k@));
        }
        i += 1;
    }
    proof {
        assert(rounds@.take(rounds@.len() as int) =~= rounds@);
    }
    let ghost final_keys = all_keys(rounds@);
    let mut out: Vec<(String, i64)> = Vec::new();
    let mut k: usize = 0;
    while k < keys.len()
        invariant
            k <= keys@.len(),
            keys@.map_values(|q: String| q@) == final_keys,
            final_keys == all_keys(rounds@),
            out@.len() == k,
            forall|m: int|
                0 <= m < k ==> (#[trigger] out@[m]).0@ == final_keys[m] && (exists|
                    sorted: Seq<i64>,
                |
                    #![trigger sorted.to_multiset()]
                    sorted.to_multiset() == gathered(rounds@, final_keys[m]).to_multiset()
                        && sorted_i64(sorted) && sorted.len() > 0 && out@[m].1 == sorted[(
                    sorted.len() / 2) as int]),
        decreases keys.len() - k,
    {
        let key = &keys[k];
        let mut values: Vec<i64> = Vec::new();
        let mut m: usize = 0;
        proof {
            assert(key@ == final_keys[k as int]);
        }
        while m < rounds.len()
            invariant
                m <= rounds@.len(),
                values@ == gathered(rounds@.take(m as int), key@),
            decreases rounds.len() - m,
        {
            proof {
                assert(rounds@.take(m + 1).drop_last() =~= rounds@.take(m as int));
                assert(rounds@.take(m + 1).last() == rounds@[m as int]);
            }
            match round_lookup(&rounds[m], key.as_str()) {
                Some(v) => {
                    values.push(v);
                },
                None => {},
            }
            m += 1;
        }
        proof {
            assert(rounds@.take(rounds@.len() as int) =~= rounds@);
            assert(final_keys.contains(key@)) by {
                assert(final_keys[k as int] == key@);
            }
            lemma_key_gathered(rounds@, key@);
        }
        let sorted = crate::sorting::sort_i64(values);
        let median = sorted[sorted.len() / 2];
        out.push((key.clone(), median));
        k += 1;
    }
    proof {
        assert(out@.len() == all_keys(rounds@).len());
        assert forall|m: int| 0 <= m < out@.len() implies (#[trigger] out@[m]).0@ == all_keys(
            rounds@,
        )[m] && (exists|sorted: Seq<i64>|
            #![trigger sorted.to_multiset()]
            sorted.to_multiset() == gathered(rounds@, all_keys(rounds@)[m]).to_multiset()
                && sorted_i64(sorted) && sorted.len() > 0 && out@[m].1 == sorted[(
            sorted.len() / 2) as int]) by {
            assert((#[trigger] out@[m]).0@ == final_keys[m]);
        }
    }
    out
}

/// The collections one run gathers across its measured rounds, and the
/// retry and warmup counters that steer it.
pub struct ControllerState {
    pub warmup_counter: usize,
    pub fail_count: u32,
    pub execution_times: Vec<i64>,
    pub memory_median: Vec<i64>,
    pub memory_p99: Vec<i64>,
    pub additional_data: Vec<Vec<(String, i64)>>,
}

/// What the controller does after an iteration outcome: go on with the next
/// slot, retry the same slot after a short delay, or give the target up.
#[derive(Debug, Clone, Copy, PartialEq, Eq, Structural)]
pub enum ControllerAction {
    Proceed,
    Retry,
    Abort,
}

/// Retries beyond this many failed iterations abort the whole run.
pub const MAX_ITERATION_FAILURES: u32 = 10;

impl ControllerState {
    /// A run that has not measured anything yet.
    pub fn new() -> (r: ControllerState)
        ensures
            r.warmup_counter == 0,
            r.fail_count == 0,
            r.execution_times@.len() == 0,
            r.memory_median@.len() == 0,
            r.memory_p99@.len() == 0,
            r.additional_data@.len() == 0,
    {
        ControllerState {
            warmup_counter: 0,
            fail_count: 0,
            execution_times: Vec::new(),
            memory_median: Vec::new(),
            memory_p99: Vec::new(),
            additional_data: Vec::new(),
        }
    }

    /// Whether another measured round is owed.
    pub fn needs_more_rounds(&self, rounds: usize) -> (r: bool)
        ensures
            r == (self.execution_times@.len() < rounds),
    {
        self.execution_times.len() < rounds
    }

    /// One iteration failed: the same slot is retried after a short delay,
    /// up to the failure ceiling; beyond it the target is presumed broken
    /// and the run aborts.
    pub fn record_failure(&mut self) -> (r: ControllerAction)
        requires
            old(self).fail_count <= MAX_ITERATION_FAILURES,
        ensures
            final(self).fail_count == old(self).fail_count + 1,
            final(self).warmup_counter == old(self).warmup_counter,
            final(self).execution_times == old(self).execution_times,
            final(self).memory_median == old(self).memory_median,
            final(self).memory_p99 == old(self).memory_p99,
            final(self).additional_data == old(self).additional_data,
            r == (if old(self).fail_count + 1 > MAX_ITERATION_FAILURES {
                ControllerAction::Abort
            } else {
                ControllerAction::Retry
            }),
    {
        self.fail_count = self.fail_count + 1;
        if self.fail_count > MAX_ITERATION_FAILURES {
            ControllerAction::Abort
        } else {
            ControllerAction::Retry
        }
    }

    /// One iteration succeeded: a warmup slot only consumes the warmup
    /// budget, a measured slot appends its elapsed time, memory reduction
    /// and metrics to the run's collections.
    pub fn record_iteration(
        &mut self,
        warmup_rounds: usize,
        elapsed_ms: i64,
        memory: MemoryUsage,
        additional: Vec<(String, i64)>,
    ) -> (was_warmup: bool)
        requires
            old(self).warmup_counter <= warmup_rounds,
        ensures
            final(self).fail_count == old(self).fail_count,
            was_warmup == (old(self).warmup_counter < warmup_rounds),
            was_warmup ==> final(self).warmup_counter == old(self).warmup_counter + 1
                && final(self).execution_times == old(self).execution_times
                && final(self).memory_median == old(self).memory_median
                && final(self).memory_p99 == old(self).memory_p99
                && final(self).additional_data == old(self).additional_data,
            !was_warmup ==> final(self).warmup_counter == old(self).warmup_counter
                && final(self).execution_times@ == old(self).execution_times@.push(elapsed_ms)
                && final(self).memory_median@ == old(self).memory_median@.push(memory.median)
                && final(self).memory_p99@ == old(self).memory_p99@.push(memory.p99)
                && final(self).additional_data@ == old(self).additional_data@.push(additional),
    {
        if self.warmup_counter < warmup_rounds {
            self.warmup_counter = self.warmup_counter + 1;
            return true;
        }
        self.execution_times.push(elapsed_ms);
        self.memory_median.push(memory.median);
        self.memory_p99.push(memory.p99);
        self.additional_data.push(additional);
        false
    }

    /// Reduces the measured rounds: the middle element of the sorted
    /// elapsed times, the median and 99th percentile of the memory
    /// reductions, and the per-key metric medians.
    pub fn reduce(&self) -> (r: BenchmarkResult)
        requires
            self.execution_times@.len() > 0,
            self.memory_median@.len() == self.execution_times@.len(),
            self.memory_p99@.len() == self.execution_times@.len(),
        ensures
            (exists|sorted: Seq<i64>|
                #![trigger sorted.to_multiset()]
                sorted.to_multiset() == self.execution_times@.to_multiset() && sorted_i64(sorted)
                    && sorted.len() == self.execution_times@.len() && r.time_median == sorted[(
                sorted.len() / 2) as int]),
            (exists|sorted: Seq<i64>|
                #![trigger sorted.to_multiset()]
                sorted.to_multiset() == self.memory_median@.to_multiset() && sorted_i64(sorted)
                    && sorted.len() == self.memory_median@.len() && r.memory_median == sorted[
                p50_index(sorted.len() as int)]),
            (exists|sorted: Seq<i64>|
                #![trigger sorted.to_multiset()]
                sorted.to_multiset() == self.memory_p99@.to_multiset() && sorted_i64(sorted)
                    && sorted.len() == self.memory_p99@.len() && r.memory_p99 == sorted[p99_index(
                sorted.len() as int)]),
            metrics_reduced(self.additional_data@, r.additional_data@),
    {
        let times_copy = self.execution_times.clone();
        let mem_med_copy = self.memory_median.clone();
        let mem_p99_copy = self.memory_p99.clone();
        proof {
            assert(times_copy@ =~= self.execution_times@);
            assert(mem_med_copy@ =~= self.memory_median@);
            assert(mem_p99_copy@ =~= self.memory_p99@);
        }
        let times = crate::sorting::sort_i64(times_copy);
        let mem_med = crate::sorting::sort_i64(mem_med_copy);
        let mem_p99 = crate::sorting::sort_i64(mem_p99_copy);
        let time_median = times[times.len() / 2];
        let memory_median = crate::percentile::p50(&mem_med);
        let memory_p99 = crate::percentile::p99(&mem_p99);
        let additional_data = reduce_metrics(&self.additional_data);
        BenchmarkResult { time_median, memory_median, memory_p99, additional_data }
    }
}

/// First value columns compared as numbers, larger wins: the resolver for
/// throughput results. An entry that does not parse as a number, or an
/// empty row, concedes to the new values.
pub fn take_bigger_rps(old_values: &Vec<String>, new_values: &Vec<String>) -> (r: Vec<String>)
    ensures
        r@ == (if keep_old_bigger(
            old_values@.map_values(|v: String| v@),
            new_values@.map_values(|v: String| v@),
        ) {
            old_values@
        } else {
            new_values@
        }),
{
    if old_values.len() > 0 && new_values.len() > 0 {
        let a = crate::text::parse_i32_str(old_values[0].as_str());
        let b = crate::text::parse_i32_str(new_values[0].as_str());
        if let (Some(a), Some(b)) = (a, b) {
            if a > b {
                let r = old_values.clone();
                proof {
                    assert(r@ =~= old_values@);
                }
                return r;
            }
        }
    }
    let r = new_values.clone();
    proof {
        assert(r@ =~= new_values@);
    }
    r
}

/// The old row wins when both first entries parse and the old one is
/// strictly larger.
pub open spec fn keep_old_bigger(old: Seq<Seq<char>>, new: Seq<Seq<char>>) -> bool {
    old.len() > 0 && new.len() > 0 && (match (i32_str_value(old[0]), i32_str_value(new[0])) {
        (Some(a), Some(b)) => a > b,
        _ => false,
    })
}

/// The old row wins when both first entries parse and the old one is
/// strictly smaller.
pub open spec fn keep_old_smaller(old: Seq<Seq<char>>, new: Seq<Seq<char>>) -> bool {
    old.len() > 0 && new.len() > 0 && (match (i32_str_value(old[0]), i32_str_value(new[0])) {
        (Some(a), Some(b)) => a < b,
        _ => false,
    })
}

/// First value columns compared as numbers, smaller wins: the resolver for
/// elapsed-time results. An entry that does not parse as a number, or an
/// empty row, concedes to the new values.
pub fn take_lower_time_median(old_values: &Vec<String>, new_values: &Vec<String>) -> (r: Vec<
    String,
>)
    ensures
        r@ == (if keep_old_smaller(
            old_values@.map_values(|v: String| v@),
            new_values@.map_values(|v: String| v@),
        ) {
            old_values@
        } else {
            new_values@
        }),
{
    if old_values.len() > 0 && new_values.len() > 0 {
        let a = crate::text::parse_i32_str(old_values[0].as_str());
        let b = crate::text::parse_i32_str(new_values[0].as_str());
        if let (Some(a), Some(b)) = (a, b) {
            if a < b {
                let r = old_values.clone();
                proof {
                    assert(r@ =~= old_values@);
                }
                return r;
            }
        }
    }
    let r = new_values.clone();
    proof {
        assert(r@ =~= new_values@);
    }
    r
}

/// The web result file after one run's row: the table merge with
/// throughput conflicts resolved toward the larger median.
pub fn merge_web_result(
    old_contents: &str,
    descriptors: &Vec<(String, String)>,
    values: &Vec<(String, String)>,
) -> (r: String)
    requires
        forall|i: int|
            0 <= i < crate::result_table::parse_data_rows(old_contents@).len() ==> (
            #[trigger] crate::result_table::parse_data_rows(old_contents@)[i]).len()
                == descriptors@.len() + values@.len(),
        descriptors@.len() + values@.len() <= usize::MAX,
    ensures
        exists|desc_vals: Vec<String>, val_vals: Vec<String>, lines: Vec<String>|
            desc_vals@ == descriptors@.map_values(|p: (String, String)| p.1) && val_vals@
                == values@.map_values(|p: (String, String)| p.1)
                && #[trigger] crate::result_table::updated_contents_ok(
                take_bigger_rps,
                old_contents@,
                &desc_vals,
                &val_vals,
                lines@,
            ) && r@ == crate::text::char_join(
                crate::result_table::pair_keys(descriptors@) + crate::result_table::pair_keys(
                    values@,
                ),
                ","@,
            ) + seq!['\n'] + crate::result_table::lines_blob(
                lines@.map_values(|l: String| l@),
            ),
{
    proof {
        assert forall|a: &Vec<String>, b: &Vec<String>| #[trigger] call_requires(
            take_bigger_rps,
            (a, b),
        ) by {}
        assert forall|a: &Vec<String>, b: &Vec<String>, k: Vec<String>| #[trigger] call_ensures(
            take_bigger_rps,
            (a, b),
            k,
        ) implies (a@.len() == b@.len() ==> k@.len() == b@.len()) by {}
    }
    crate::result_table::write_result_contents(old_contents, descriptors, values, take_bigger_rps)
}

/// The computation result file after one run's row: the table merge with
/// elapsed-time conflicts resolved toward the smaller median.
pub fn merge_computation_result(
    old_contents: &str,
    descriptors: &Vec<(String, String)>,
    values: &Vec<(String, String)>,
) -> (r: String)
    requires
        forall|i: int|
            0 <= i < crate::result_table::parse_data_rows(old_contents@).len() ==> (
            #[trigger] crate::result_table::parse_data_rows(old_contents@)[i]).len()
                == descriptors@.len() + values@.len(),
        descriptors@.len() + values@.len() <= usize::MAX,
    ensures
        exists|desc_vals: Vec<String>, val_vals: Vec<String>, lines: Vec<String>|
            desc_vals@ == descriptors@.map_values(|p: (String, String)| p.1) && val_vals@
                == values@.map_values(|p: (String, String)| p.1)
                && #[trigger] crate::result_table::updated_contents_ok(
                take_lower_time_median,
                old_contents@,
                &desc_vals,
                &val_vals,
                lines@,
            ) && r@ == crate::text::char_join(
                crate::result_table::pair_keys(descriptors@) + crate::result_table::pair_keys(
                    values@,
                ),
                ","@,
            ) + seq!['\n'] + crate::result_table::lines_blob(
                lines@.map_values(|l: String| l@),
            ),
{
    proof {
        assert forall|a: &Vec<String>, b: &Vec<String>| #[trigger] call_requires(
            take_lower_time_median,
            (a, b),
        ) by {}
        assert forall|a: &Vec<String>, b: &Vec<String>, k: Vec<String>| #[trigger] call_ensures(
            take_lower_time_median,
            (a, b),
            k,
        ) implies (a@.len() == b@.len() ==> k@.len() == b@.len()) by {}
    }
    crate::result_table::write_result_contents(
        old_contents,
        descriptors,
        values,
        take_lower_time_median,
    )
}


} // verus!
