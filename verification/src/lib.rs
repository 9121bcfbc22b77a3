//! A TCP load balancer's decision logic: backend pools, selection policies
//! (round robin, random, least connection), per-backend connection counting,
//! health filtering and the monitoring rule that switches policies.

pub mod common;
pub mod configuration;
pub mod proxy;
pub mod selection_method;
