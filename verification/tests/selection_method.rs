use balancer::common::address::SocketAddress;
use balancer::common::types::Backend;
use balancer::selection_method::round_robin::{RoundRobin, RoundRobinSelector};
use balancer::selection_method::{BackendSelection, SelectionAlgorithm};

fn backend(i: u32) -> Backend {
    Backend { name: format!("b{}", i), addr: SocketAddress::V4 { ip: i, port: 80 } }
}

#[test]
fn counter_hands_out_consecutive_numbers() {
    let mut rr = RoundRobin::new();
    let got: Vec<u64> = (0..5).map(|_| rr.next(b"key")).collect();
    assert_eq!(got, vec![0, 1, 2, 3, 4]);
}

#[test]
fn counter_ignores_the_key() {
    let mut rr = RoundRobin::new();
    assert_eq!(rr.next(b"a"), 0);
    assert_eq!(rr.next(b""), 1);
    assert_eq!(rr.next(b"a"), 2);
}

#[test]
fn selector_cycles_through_backends() {
    let mut s = RoundRobinSelector::build(vec![backend(1), backend(2), backend(3)]);
    let got: Vec<SocketAddress> = (0..7).map(|_| s.get_next()).collect();
    let want: Vec<SocketAddress> = [1, 2, 3, 1, 2, 3, 1].iter().map(|&i| backend(i).addr).collect();
    assert_eq!(got, want);
}

#[test]
fn selector_with_one_backend() {
    let mut s = RoundRobinSelector::build(vec![backend(9)]);
    for _ in 0..3 {
        assert_eq!(s.get_next(), SocketAddress::V4 { ip: 9, port: 80 });
    }
}
