use vstd::prelude::*;

use crate::configuration::LoadBalancingAlgorithm;
use crate::proxy::proxy::Proxy;

verus! {

/// The average response time, in nanoseconds, above which the least loaded
/// backend is preferred to round robin: 150 milliseconds.
pub const SLOW_RESPONSE_NANOS: u128 = 150_000_000;

/// The response time, in nanoseconds, recorded for a backend whose health
/// check failed: 9999 seconds.
pub const FAILED_CHECK_NANOS: u128 = 9_999_000_000_000;

/// The sum of the response times.
pub open spec fn total(times: Seq<u128>) -> int
    decreases times.len(),
{
    if times.len() == 0 {
        0
    } else {
        total(times.drop_last()) + times.last()
    }
}

/// The divisor of the average: the number of response times, as a `u32`
/// (its low 32 bits).
pub open spec fn divisor(times: Seq<u128>) -> int {
    (times.len() as u32) as int
}

/// The policy that the response times call for: least connection where
/// their average is above `SLOW_RESPONSE_NANOS`, round robin otherwise.
pub open spec fn policy_for(times: Seq<u128>) -> LoadBalancingAlgorithm {
    if total(times) / divisor(times) > SLOW_RESPONSE_NANOS {
        LoadBalancingAlgorithm::LeastConnection
    } else {
        LoadBalancingAlgorithm::RoundRobin
    }
}

/// The response time recorded for one backend: how long its health check
/// took where it passed, `FAILED_CHECK_NANOS` where it failed.
pub open spec fn recorded_time(check: (bool, u128)) -> u128 {
    if check.0 {
        check.1
    } else {
        FAILED_CHECK_NANOS
    }
}

/// A passed health check is recorded as the time it took, and a failed one
/// as 9999 seconds, whatever time it took.
pub proof fn lemma_recorded_time(check: (bool, u128))
    ensures
        check.0 ==> recorded_time(check) == check.1,
        !check.0 ==> recorded_time(check) == 9_999_000_000_000u128,
        FAILED_CHECK_NANOS == 9_999u128 * 1_000_000_000u128,
{
}

proof fn lemma_total_monotone(times: Seq<u128>, k: int)
    requires
        0 <= k <= times.len(),
    ensures
        total(times.take(k)) <= total(times),
        total(times.take(k)) >= 0,
    decreases times.len() - k,
{
    if k < times.len() {
        lemma_total_monotone(times, k + 1);
        assert(times.take(k + 1).drop_last() == times.take(k));
    } else {
        assert(times.take(k) == times);
    }
    lemma_total_nonnegative(times.take(k));
}

proof fn lemma_total_nonnegative(times: Seq<u128>)
    ensures
        total(times) >= 0,
    decreases times.len(),
{
    if times.len() > 0 {
        lemma_total_nonnegative(times.drop_last());
    }
}

/// The response times of the backends, in their order, from the outcome of
/// each one's health check and how long it took in nanoseconds.
pub fn collect_metrics(checks: &[(bool, u128)]) -> (times: Vec<u128>)
    ensures
        times@.len() == checks@.len(),
        forall|i: int| 0 <= i < checks@.len() ==> #[trigger] times@[i] == recorded_time(checks@[i]),
        forall|i: int| 0 <= i < checks@.len() && checks@[i].0 ==> #[trigger] times@[i] == checks@[i].1,
        forall|i: int|
            0 <= i < checks@.len() && !checks@[i].0 ==> #[trigger] times@[i] == 9_999_000_000_000u128,
{
    let mut times: Vec<u128> = Vec::new();
    for i in 0..checks.len()
        invariant
            times@.len() == i,
            forall|j: int| 0 <= j < i ==> #[trigger] times@[j] == recorded_time(checks@[j]),
    {
        let (passed, elapsed) = checks[i];
        if passed {
            times.push(elapsed);
        } else {
            times.push(FAILED_CHECK_NANOS);
        }
    }
    proof {
        assert forall|i: int| 0 <= i < checks@.len() implies #[trigger] times@[i] == (if checks@[i].0 {
            checks@[i].1
        } else {
            9_999_000_000_000u128
        }) by {
            lemma_recorded_time(checks@[i]);
        }
    }
    times
}

/// Switches the proxy's policy by the average of the response times: to
/// least connection where it is above `SLOW_RESPONSE_NANOS`, to round robin
/// otherwise. The average is the sum over the number of times taken as a
/// `u32`, rounded down.
pub fn check_conditions_and_update(proxy: &mut Proxy, response_times: &[u128])
    requires
        divisor(response_times@) != 0,
        total(response_times@) <= u128::MAX,
    ensures
        final(proxy).selector == policy_for(response_times@),
        final(proxy).backends == old(proxy).backends,
        final(proxy).healthy_backends == old(proxy).healthy_backends,
        final(proxy).current_index == old(proxy).current_index,
        final(proxy).connection_counts == old(proxy).connection_counts,
{
    let mut sum: u128 = 0;
    let n = response_times.len();
    for i in 0..n
        invariant
            n == response_times@.len(),
            total(response_times@) <= u128::MAX,
            sum == total(response_times@.take(i as int)),
    {
        proof {
            lemma_total_monotone(response_times@, i + 1);
            assert(response_times@.take(i + 1).drop_last() == response_times@.take(i as int));
        }
        sum = sum + response_times[i];
    }
    proof {
        assert(response_times@.take(n as int) == response_times@);
    }
    let count = n as u32;
    let average = sum / (count as u128);
    if average > SLOW_RESPONSE_NANOS {
        proxy.selector = LoadBalancingAlgorithm::LeastConnection;
    } else {
        proxy.selector = LoadBalancingAlgorithm::RoundRobin;
    }
}

/// How long to wait before the next round, in nanoseconds, after a round
/// that took `elapsed`: the rest of `interval`, or nothing where the round
/// took the whole interval or longer.
pub fn time_left(interval: u128, elapsed: u128) -> (wait: Option<u128>)
    ensures
        wait == (if elapsed < interval {
            Some((interval - elapsed) as u128)
        } else {
            None::<u128>
        }),
{
    if elapsed < interval {
        Some(interval - elapsed)
    } else {
        None
    }
}

} // verus!
