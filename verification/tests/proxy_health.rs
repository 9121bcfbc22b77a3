use std::sync::Arc;

use balancer::common::address::SocketAddress;
use balancer::configuration::{LoadBalancingAlgorithm, Settings};
use balancer::proxy::backend::Backend;
use balancer::proxy::proxy::Proxy;

fn addr(last: u32, port: u16) -> SocketAddress {
    SocketAddress::V4 { ip: 0x7f00_0000 + last, port }
}

fn backend(name: &str, last: u32) -> Backend {
    Backend::new(name.to_string(), addr(last, 8000 + last as u16))
}

fn three_backends() -> Vec<Backend> {
    vec![backend("a", 1), backend("b", 2), backend("c", 3)]
}

#[test]
fn new_proxy_counts_every_backend_at_zero() {
    let p = Proxy::new(three_backends(), LoadBalancingAlgorithm::RoundRobin);
    assert_eq!(p.backends.len(), 3);
    assert_eq!(p.backends[1].name, "b");
    assert!(p.healthy_backends.is_empty());
    assert_eq!(p.current_index, 0);
    assert_eq!(p.selector, LoadBalancingAlgorithm::RoundRobin);
    for i in 1..4 {
        assert_eq!(p.connection_counts.get(&addr(i, 8000 + i as u16)), Some(0));
    }
    assert_eq!(p.connection_counts.get(&addr(9, 8009)), None);
}

#[test]
fn new_proxy_with_repeated_address_has_one_count() {
    let p = Proxy::new(vec![backend("a", 1), backend("again", 1)], LoadBalancingAlgorithm::Random);
    assert_eq!(p.backends.len(), 2);
    assert_eq!(p.connection_counts.get(&addr(1, 8001)), Some(0));
}

#[test]
fn healthy_backends_keep_only_passing_in_order() {
    let mut p = Proxy::new(three_backends(), LoadBalancingAlgorithm::RoundRobin);
    p.update_healthy_backends(&[true, false, true]);
    let names: Vec<&str> = p.healthy_backends.iter().map(|b| b.name.as_str()).collect();
    assert_eq!(names, vec!["a", "c"]);
    assert_eq!(p.healthy_backends[1].listen_addr, addr(3, 8003));
}

#[test]
fn all_checks_passing_makes_every_backend_healthy() {
    let mut p = Proxy::new(three_backends(), LoadBalancingAlgorithm::RoundRobin);
    p.update_healthy_backends(&[true, true, true]);
    assert_eq!(p.healthy_backends.len(), 3);
    for i in 0..3 {
        assert_eq!(p.healthy_backends[i].listen_addr, p.backends[i].listen_addr);
    }
    p.update_healthy_backends(&[false, false, false]);
    assert!(p.healthy_backends.is_empty());
}

#[test]
fn health_update_leaves_the_rest_alone() {
    let mut p = Proxy::new(three_backends(), LoadBalancingAlgorithm::LeastConnection);
    p.update_connection_count(addr(2, 8002), 4);
    p.current_index = 2;
    p.update_healthy_backends(&[false, true, false]);
    assert_eq!(p.current_index, 2);
    assert_eq!(p.selector, LoadBalancingAlgorithm::LeastConnection);
    assert_eq!(p.connection_counts.get(&addr(2, 8002)), Some(4));
    assert_eq!(p.backends.len(), 3);
}

#[test]
fn round_robin_walks_the_healthy_backends_in_turn() {
    let mut p = Proxy::new(three_backends(), LoadBalancingAlgorithm::RoundRobin);
    p.update_healthy_backends(&[true, true, true]);
    let picks: Vec<SocketAddress> = (0..7).map(|_| p.get_next()).collect();
    let expected: Vec<SocketAddress> = [1, 2, 3, 1, 2, 3, 1].iter().map(|&i| addr(i, 8000 + i as u16)).collect();
    assert_eq!(picks, expected);
    assert_eq!(p.current_index, 1);
}

#[test]
fn round_robin_takes_each_healthy_backend_once_per_round() {
    let mut p = Proxy::new(three_backends(), LoadBalancingAlgorithm::RoundRobin);
    p.update_healthy_backends(&[true, true, true]);
    p.current_index = 2;
    let mut picks: Vec<SocketAddress> = (0..3).map(|_| p.get_next()).collect();
    assert_eq!(p.current_index, 2);
    picks.sort_by_key(|a| match a {
        SocketAddress::V4 { ip, .. } => *ip,
        SocketAddress::V6 { .. } => 0,
    });
    assert_eq!(picks, vec![addr(1, 8001), addr(2, 8002), addr(3, 8003)]);
}

#[test]
fn round_robin_skips_unhealthy_backends() {
    let mut p = Proxy::new(three_backends(), LoadBalancingAlgorithm::RoundRobin);
    p.update_healthy_backends(&[false, true, true]);
    assert_eq!(p.get_next(), addr(2, 8002));
    assert_eq!(p.get_next(), addr(3, 8003));
    assert_eq!(p.get_next(), addr(2, 8002));
}

#[test]
fn random_picks_a_healthy_backend() {
    let mut p = Proxy::new(three_backends(), LoadBalancingAlgorithm::Random);
    p.update_healthy_backends(&[false, true, false]);
    for _ in 0..20 {
        assert_eq!(p.get_next(), addr(2, 8002));
    }
    p.update_healthy_backends(&[true, false, true]);
    for _ in 0..50 {
        let a = p.get_next();
        assert!(a == addr(1, 8001) || a == addr(3, 8003));
    }
    assert_eq!(p.current_index, 0);
}

#[test]
fn random_pick_with_given_index() {
    let mut p = Proxy::new(three_backends(), LoadBalancingAlgorithm::Random);
    p.update_healthy_backends(&[true, false, true]);
    assert_eq!(p.pick_random_with(0), addr(1, 8001));
    assert_eq!(p.pick_random_with(1), addr(3, 8003));
}

#[test]
fn least_connection_takes_the_least_loaded_over_all_backends() {
    let mut p = Proxy::new(three_backends(), LoadBalancingAlgorithm::LeastConnection);
    p.update_connection_count(addr(1, 8001), 3);
    p.update_connection_count(addr(2, 8002), 1);
    p.update_connection_count(addr(3, 8003), 2);
    // health does not matter to least connection
    p.update_healthy_backends(&[true, false, true]);
    assert_eq!(p.get_next(), addr(2, 8002));
    assert_eq!(p.connection_counts.get(&addr(2, 8002)), Some(1));
}

#[test]
fn least_connection_takes_the_first_on_a_tie() {
    let mut p = Proxy::new(three_backends(), LoadBalancingAlgorithm::LeastConnection);
    p.update_connection_count(addr(1, 8001), 2);
    assert_eq!(p.get_next(), addr(2, 8002));
    p.update_connection_count(addr(2, 8002), 2);
    assert_eq!(p.get_next(), addr(3, 8003));
    p.update_connection_count(addr(3, 8003), 2);
    assert_eq!(p.get_next(), addr(1, 8001));
}

#[test]
fn least_connection_ranks_an_uncounted_backend_last() {
    let mut p = Proxy::new(vec![backend("a", 1)], LoadBalancingAlgorithm::LeastConnection);
    p.update_connection_count(addr(1, 8001), 1000);
    let settings = Settings {
        listen_addr: addr(100, 80),
        backends: vec![backend("new", 5), backend("a", 1)],
        algorithm: LoadBalancingAlgorithm::LeastConnection,
        monitoring_interval: 1,
        health_check_interval: 1,
    };
    p.update(settings);
    assert_eq!(p.connection_counts.get(&addr(5, 8005)), None);
    assert_eq!(p.get_next(), addr(1, 8001));
}

#[test]
fn opening_then_closing_restores_the_count() {
    let mut p = Proxy::new(three_backends(), LoadBalancingAlgorithm::RoundRobin);
    p.update_connection_count(addr(1, 8001), 5);
    p.update_connection_count(addr(1, 8001), 1);
    assert_eq!(p.connection_counts.get(&addr(1, 8001)), Some(6));
    p.update_connection_count(addr(1, 8001), -1);
    assert_eq!(p.connection_counts.get(&addr(1, 8001)), Some(5));
}

#[test]
fn counting_an_unknown_address_starts_from_zero() {
    let mut p = Proxy::new(three_backends(), LoadBalancingAlgorithm::RoundRobin);
    let other = SocketAddress::V6 { ip: 1, port: 443, flowinfo: 0, scope_id: 0 };
    p.update_connection_count(other, 1);
    assert_eq!(p.connection_counts.get(&other), Some(1));
    p.update_connection_count(other, -1);
    assert_eq!(p.connection_counts.get(&other), Some(0));
}

#[test]
fn closing_below_zero_wraps_around() {
    let mut p = Proxy::new(three_backends(), LoadBalancingAlgorithm::RoundRobin);
    p.update_connection_count(addr(1, 8001), -1);
    assert_eq!(p.connection_counts.get(&addr(1, 8001)), Some(usize::MAX));
    p.update_connection_count(addr(1, 8001), 1);
    assert_eq!(p.connection_counts.get(&addr(1, 8001)), Some(0));
}

#[test]
fn count_change_by_a_large_delta() {
    let mut p = Proxy::new(three_backends(), LoadBalancingAlgorithm::RoundRobin);
    p.update_connection_count(addr(1, 8001), isize::MAX);
    assert_eq!(p.connection_counts.get(&addr(1, 8001)), Some(isize::MAX as usize));
    p.update_connection_count(addr(1, 8001), -isize::MAX);
    assert_eq!(p.connection_counts.get(&addr(1, 8001)), Some(0));
}

#[test]
fn update_takes_backends_and_policy_only() {
    let mut p = Proxy::new(three_backends(), LoadBalancingAlgorithm::RoundRobin);
    p.update_healthy_backends(&[true, true, true]);
    p.get_next();
    p.update_connection_count(addr(3, 8003), 2);
    let settings = Settings {
        listen_addr: addr(100, 80),
        backends: vec![backend("z", 9)],
        algorithm: LoadBalancingAlgorithm::Random,
        monitoring_interval: 5,
        health_check_interval: 6,
    };
    p.update(settings);
    assert_eq!(p.backends.len(), 1);
    assert_eq!(p.backends[0].name, "z");
    assert_eq!(p.selector, LoadBalancingAlgorithm::Random);
    assert_eq!(p.healthy_backends.len(), 3);
    assert_eq!(p.current_index, 1);
    assert_eq!(p.connection_counts.get(&addr(3, 8003)), Some(2));
    assert_eq!(p.connection_counts.get(&addr(9, 8009)), None);
}

#[test]
fn backends_are_shared_between_pools() {
    let mut p = Proxy::new(three_backends(), LoadBalancingAlgorithm::RoundRobin);
    p.update_healthy_backends(&[true, true, false]);
    assert!(Arc::ptr_eq(&p.backends[0], &p.healthy_backends[0]));
    assert!(Arc::ptr_eq(&p.backends[1], &p.healthy_backends[1]));
}
