//! The polling completion watcher: bounded-time sampling of an external
//! condition, and the cleanup decision taken on success.
//!
//! The sleeps and the probe itself are outside; a driver samples the
//! condition on the configured schedule, asking `poll_step` what to do after
//! each sample, or hands a whole run of sample results to `simulate_poll`.
//! Succeeding and timing out are both ordinary outcomes, never faults: the
//! user may simply not have completed the external action.

use vstd::prelude::*;
use crate::invoke::{first_present, lemma_first_present_at, lemma_first_present_found};

verus! {

/// The watcher's injectable schedule: an initial grace period to let the
/// externally-triggered action begin, the pause between samples, and the
/// wall-clock budget after which waiting stops. All in milliseconds.
#[derive(Debug, Clone, PartialEq, Eq)]
pub struct PollConfig {
    pub initial_delay_ms: u64,
    pub interval_ms: u64,
    pub budget_ms: u64,
}

impl PollConfig {
    /// A usable schedule: samples make progress, the first sample falls
    /// within the budget, and the clock arithmetic cannot wrap.
    pub open spec fn wf(&self) -> bool {
        &&& self.interval_ms >= 1
        &&& self.initial_delay_ms <= self.budget_ms
        &&& self.budget_ms + self.interval_ms <= u64::MAX
    }

    /// The moment of the `k`-th sample: the grace period, then one interval
    /// between consecutive samples.
    pub open spec fn sample_time(&self, k: int) -> int {
        self.initial_delay_ms + k * self.interval_ms
    }
}

/// What the watcher does after one sample.
#[derive(Debug, Clone, PartialEq, Eq)]
pub enum PollDecision {
    /// The condition held: perform the designated cleanup and finish.
    Succeeded,
    /// The budget is spent: finish without the condition.
    TimedOut,
    /// Sleep one interval and sample again.
    SleepRetry,
}

/// How a finished watch ended. Both are ordinary outcomes.
#[derive(Debug, Clone, PartialEq, Eq)]
pub enum PollOutcome {
    Succeeded,
    TimedOut,
}

/// Decide after one checkpoint: time out once the budget is spent, succeed
/// on a true sample, otherwise sleep and retry.
pub fn poll_step(cfg: &PollConfig, elapsed_ms: u64, sample: bool) -> (d: PollDecision)
    ensures
        elapsed_ms >= cfg.budget_ms ==> d is TimedOut,
        elapsed_ms < cfg.budget_ms && sample ==> d is Succeeded,
        elapsed_ms < cfg.budget_ms && !sample ==> d is SleepRetry,
{
    if elapsed_ms >= cfg.budget_ms {
        PollDecision::TimedOut
    } else if sample {
        PollDecision::Succeeded
    } else {
        PollDecision::SleepRetry
    }
}

/// What a finished watch reports.
#[derive(Debug, Clone, PartialEq, Eq)]
pub struct PollRun {
    pub outcome: PollOutcome,
    /// The elapsed time, in milliseconds, at which the watcher returned.
    pub finish_ms: u64,
    /// How many samples were taken.
    pub samples_taken: u64,
}

/// Run a whole watch over a given run of sample results: `samples[k]` is
/// what the probe would report at the `k`-th sample; past the end it stays
/// false. Success comes exactly at the first true sample — never earlier,
/// and no later than its own checkpoint; with no true sample within the
/// budget the watch times out within one interval of the budget, after a
/// bounded number of samples — it never loops on.
pub fn simulate_poll(cfg: &PollConfig, samples: &Vec<bool>) -> (r: PollRun)
    requires
        cfg.wf(),
    ensures
        ({
            let hit = first_present(samples@);
            if hit matches Some(k) && cfg.sample_time(k) < cfg.budget_ms {
                &&& r.outcome is Succeeded
                &&& r.finish_ms == cfg.sample_time(hit->Some_0)
                &&& r.samples_taken == hit->Some_0 + 1
            } else {
                &&& r.outcome is TimedOut
                &&& cfg.budget_ms <= r.finish_ms < cfg.budget_ms + cfg.interval_ms
            }
        }),
        r.samples_taken <= (cfg.budget_ms - cfg.initial_delay_ms) / (cfg.interval_ms as int) + 1,
{
    let mut t: u64 = cfg.initial_delay_ms;
    let mut k: u64 = 0;
    while t < cfg.budget_ms
        invariant
            cfg.wf(),
            t == cfg.sample_time(k as int),
            t < cfg.budget_ms + cfg.interval_ms,
            k <= t,
            forall|j: int| 0 <= j < k && j < samples@.len() ==> !samples@[j],
        decreases cfg.budget_ms + cfg.interval_ms - t,
    {
        let sample = if k < samples.len() as u64 {
            samples[k as usize]
        } else {
            false
        };
        if sample {
            proof {
                lemma_first_present_at(samples@, k as int);
                lemma_sample_count_bound(cfg, k as int, t as int);
            }
            return PollRun { outcome: PollOutcome::Succeeded, finish_ms: t, samples_taken: k + 1 };
        }
        proof {
            assert(k + 1 <= t + cfg.interval_ms) by {
                assert(cfg.interval_ms >= 1);
            }
            assert(cfg.sample_time(k as int + 1) == t + cfg.interval_ms) by {
                assert((k as int + 1) * cfg.interval_ms == k as int * cfg.interval_ms
                    + cfg.interval_ms) by (nonlinear_arith);
            }
        }
        t = t + cfg.interval_ms;
        k = k + 1;
    }
    proof {
        match first_present(samples@) {
            Some(k0) => {
                lemma_first_present_found(samples@);
                if k0 < k {
                    assert(!samples@[k0]);
                } else {
                    assert(cfg.sample_time(k0) >= cfg.sample_time(k as int)) by {
                        vstd::arithmetic::mul::lemma_mul_inequality(
                            k as int,
                            k0,
                            cfg.interval_ms as int,
                        );
                    }
                }
            },
            None => {},
        }
    }
    proof {
        if k >= 1 {
            assert(cfg.sample_time(k as int - 1) == t - cfg.interval_ms) by {
                assert((k as int - 1) * cfg.interval_ms == k as int * cfg.interval_ms
                    - cfg.interval_ms) by (nonlinear_arith);
            }
            lemma_sample_count_bound(cfg, k as int - 1, t - cfg.interval_ms as int);
        }
    }
    PollRun { outcome: PollOutcome::TimedOut, finish_ms: t, samples_taken: k }
}

/// A sample taken before the budget ran out has a bounded index: the
/// elapsed intervals fit the budget.
proof fn lemma_sample_count_bound(cfg: &PollConfig, k: int, t: int)
    requires
        cfg.wf(),
        0 <= k,
        t == cfg.sample_time(k),
        t < cfg.budget_ms,
    ensures
        k <= (cfg.budget_ms - cfg.initial_delay_ms) / (cfg.interval_ms as int),
{
    let itv = cfg.interval_ms as int;
    let room = cfg.budget_ms - cfg.initial_delay_ms;
    assert(k * itv <= room - 1);
    vstd::arithmetic::div_mod::lemma_div_multiples_vanish(k, itv);
    assert((itv * k) / itv == k);
    assert(itv * k == k * itv) by (nonlinear_arith);
    vstd::arithmetic::div_mod::lemma_div_is_ordered(k * itv, room - 1, itv);
    vstd::arithmetic::div_mod::lemma_div_is_ordered(room - 1, room, itv);
}

/// Pick the newest artifact: the index of the greatest creation time,
/// earliest such index on ties.
pub fn newest_index(created: &Vec<u64>) -> (r: Option<usize>)
    ensures
        r is Some <==> created@.len() > 0,
        r matches Some(i) ==> {
            &&& 0 <= i < created@.len()
            &&& forall|j: int| 0 <= j < created@.len() ==> created@[j] <= created@[i as int]
            &&& forall|j: int| 0 <= j < i ==> created@[j] < created@[i as int]
        },
{
    if created.len() == 0 {
        return None;
    }
    let n = created.len();
    let mut best: usize = 0;
    let mut i: usize = 1;
    while i < n
        invariant
            n == created@.len(),
            0 <= best < i <= n,
            forall|j: int| 0 <= j < i ==> created@[j] <= created@[best as int],
            forall|j: int| 0 <= j < best ==> created@[j] < created@[best as int],
        decreases n - i,
    {
        if created[i] > created[best] {
            best = i;
        }
        i = i + 1;
    }
    Some(best)
}

/// The cleanup decision taken on success: remove the newest artifact, but
/// only when it appeared within the given age limit — an older file was not
/// written by the action just completed. With no target, nothing is removed.
pub fn cleanup_target(created: &Vec<u64>, now: u64, age_limit_secs: u64) -> (r: Option<usize>)
    ensures
        r matches Some(i) ==> {
            &&& 0 <= i < created@.len()
            &&& forall|j: int| 0 <= j < created@.len() ==> created@[j] <= created@[i as int]
            &&& forall|j: int| 0 <= j < i ==> created@[j] < created@[i as int]
            &&& created@[i as int] + age_limit_secs > now
        },
        r is None ==> forall|j: int| 0 <= j < created@.len() ==> created@[j] + age_limit_secs
            <= now,
{
    match newest_index(created) {
        None => None,
        Some(i) => {
            if created[i] as u128 + age_limit_secs as u128 > now as u128 {
                Some(i)
            } else {
                None
            }
        },
    }
}

} // verus!
