use vstd::prelude::*;

use crate::proxy::backend::Backend;
use crate::common::address::SocketAddress;

verus! {

/// The settings as they are read from a configuration source, before the
/// addresses are parsed.
#[derive(Debug)]
pub struct RawSettings {
    pub listen_addr: String,
    pub backends: Vec<RawBackend>,
    pub algorithm: LoadBalancingAlgorithm,
    pub monitoring_interval: u64,
    pub health_check_interval: u64,
}

/// The policy by which the next backend is chosen for a new connection.
#[derive(Debug, Clone, Copy, PartialEq, Eq, Structural)]
pub enum LoadBalancingAlgorithm {
    RoundRobin,
    Random,
    LeastConnection,
}

/// A backend as it is read from a configuration source.
#[derive(Debug)]
pub struct RawBackend {
    pub name: String,
    pub addr: String,
}

/// The load balancer's settings: where it listens, its backends, its
/// initial policy, and its monitoring and health check intervals in seconds.
#[derive(Debug, Clone)]
pub struct Settings {
    pub listen_addr: SocketAddress,
    pub backends: Vec<Backend>,
    pub algorithm: LoadBalancingAlgorithm,
    pub monitoring_interval: u64,
    pub health_check_interval: u64,
}

} // verus!
