use balancer::common::address::SocketAddress;
use balancer::configuration::LoadBalancingAlgorithm;
use balancer::proxy::backend::Backend;
use balancer::proxy::load_balancer::{
    check_conditions_and_update, collect_metrics, time_left, FAILED_CHECK_NANOS, SLOW_RESPONSE_NANOS,
};
use balancer::proxy::proxy::Proxy;

fn proxy(selector: LoadBalancingAlgorithm) -> Proxy {
    Proxy::new(
        vec![Backend::new("a".to_string(), SocketAddress::V4 { ip: 1, port: 1 })],
        selector,
    )
}

#[test]
fn failed_checks_are_recorded_as_very_slow() {
    let times = collect_metrics(&[(true, 1_000), (false, 5), (true, 2_000_000)]);
    assert_eq!(times, vec![1_000, 9_999_000_000_000, 2_000_000]);
    assert_eq!(FAILED_CHECK_NANOS, 9_999 * 1_000_000_000);
    assert!(collect_metrics(&[]).is_empty());
}

#[test]
fn slow_average_switches_to_least_connection() {
    let mut p = proxy(LoadBalancingAlgorithm::RoundRobin);
    check_conditions_and_update(&mut p, &[100_000_000, 200_000_002]);
    assert_eq!(p.selector, LoadBalancingAlgorithm::LeastConnection);
}

#[test]
fn average_exactly_at_the_threshold_keeps_round_robin() {
    let mut p = proxy(LoadBalancingAlgorithm::LeastConnection);
    check_conditions_and_update(&mut p, &[100_000_000, 200_000_000]);
    assert_eq!(p.selector, LoadBalancingAlgorithm::RoundRobin);
    check_conditions_and_update(&mut p, &[SLOW_RESPONSE_NANOS + 1]);
    assert_eq!(p.selector, LoadBalancingAlgorithm::LeastConnection);
}

#[test]
fn average_rounds_down() {
    let mut p = proxy(LoadBalancingAlgorithm::LeastConnection);
    // (150_000_000 * 3 + 2) / 3 rounds down to 150_000_000
    check_conditions_and_update(&mut p, &[150_000_000, 150_000_000, 150_000_002]);
    assert_eq!(p.selector, LoadBalancingAlgorithm::RoundRobin);
}

#[test]
fn a_failed_check_makes_the_average_slow() {
    let mut p = proxy(LoadBalancingAlgorithm::Random);
    let times = collect_metrics(&[(true, 1_000_000), (false, 1_000_000)]);
    check_conditions_and_update(&mut p, &times);
    assert_eq!(p.selector, LoadBalancingAlgorithm::LeastConnection);
}

#[test]
fn policy_switch_leaves_the_rest_alone() {
    let mut p = proxy(LoadBalancingAlgorithm::RoundRobin);
    p.update_connection_count(SocketAddress::V4 { ip: 1, port: 1 }, 3);
    check_conditions_and_update(&mut p, &[500_000_000]);
    assert_eq!(p.backends.len(), 1);
    assert_eq!(p.connection_counts.get(&SocketAddress::V4 { ip: 1, port: 1 }), Some(3));
    assert_eq!(p.current_index, 0);
}

#[test]
fn time_left_in_the_interval() {
    assert_eq!(time_left(1_000, 300), Some(700));
    assert_eq!(time_left(1_000, 1_000), None);
    assert_eq!(time_left(1_000, 5_000), None);
    assert_eq!(time_left(1, 0), Some(1));
}
