pub mod backend;
pub mod load_balancer;
pub mod proxy;
pub mod selection;

use std::sync::Arc;

use vstd::prelude::*;

use crate::common::address::SocketAddress;
use crate::common::connection_counts::ConnectionCounts;
use crate::configuration::{LoadBalancingAlgorithm, Settings};
use crate::proxy::backend::Backend;
use crate::proxy::selection::{
    count_or_zero, is_first_least_loaded, least_loaded_index, lemma_least_loaded_has_fewest_connections, listen_addrs, random_index,
    share_all, zero_counts,
};

verus! {

/// The connections' dispatcher over one pool of backends: the backends, the
/// selection policy, the round-robin position, and each backend's
/// connection count.
pub struct Proxy {
    pub backends: Vec<Arc<Backend>>,
    pub selector: LoadBalancingAlgorithm,
    pub current_index: usize,
    pub connection_counts: ConnectionCounts,
}

impl Proxy {
    /// Whether `get_next` can choose a backend: random selection and least
    /// connection need a backend, round robin a position inside the
    /// backends.
    pub open spec fn can_select(&self) -> bool {
        match self.selector {
            LoadBalancingAlgorithm::RoundRobin => self.current_index < self.backends@.len(),
            _ => self.backends@.len() > 0,
        }
    }

    /// A proxy over `backends` with the policy `selector`: each backend's
    /// address counted at 0 connections, round robin at its first position.
    pub fn new(backends: Vec<Backend>, selector: LoadBalancingAlgorithm) -> (p: Proxy)
        ensures
            p.backends@.len() == backends@.len(),
            forall|i: int| 0 <= i < backends@.len() ==> *#[trigger] p.backends@[i] == backends@[i],
            p.selector == selector,
            p.current_index == 0,
            p.connection_counts@ == Map::new(
                |a: SocketAddress| listen_addrs(p.backends@).contains(a),
                |a: SocketAddress| 0usize,
            ),
            forall|i: int|
                0 <= i < backends@.len() ==> p.connection_counts@.dom().contains(
                    #[trigger] backends@[i].listen_addr,
                ) && p.connection_counts@[backends@[i].listen_addr] == 0,
            forall|a: SocketAddress|
                #[trigger] p.connection_counts@.dom().contains(a) ==> exists|i: int|
                    0 <= i < backends@.len() && #[trigger] backends@[i].listen_addr == a,
    {
        let backend_servers = share_all(backends);
        let connection_counts = zero_counts(&backend_servers);
        proof {
            assert forall|i: int| 0 <= i < backends@.len() implies connection_counts@.dom().contains(
                #[trigger] backends@[i].listen_addr,
            ) && connection_counts@[backends@[i].listen_addr] == 0 by {
                assert(backend_servers@[i].listen_addr == backends@[i].listen_addr);
            }
            assert forall|a: SocketAddress| #[trigger] connection_counts@.dom().contains(a) implies exists|i: int|
                0 <= i < backends@.len() && #[trigger] backends@[i].listen_addr == a by {
                let i = choose|i: int| 0 <= i < backend_servers@.len() && #[trigger] backend_servers@[i].listen_addr == a;
                assert(backend_servers@[i].listen_addr == backends@[i].listen_addr);
            }
        }
        Proxy { backends: backend_servers, current_index: 0, selector, connection_counts }
    }

    /// The address of the backend at `random_index`: what random selection
    /// hands out once the index is drawn.
    pub fn pick_random_with(&self, random_index: usize) -> (addr: SocketAddress)
        requires
            random_index < self.backends@.len(),
        ensures
            addr == self.backends@[random_index as int].listen_addr,
    {
        self.backends[random_index].listen_addr
    }

    /// The address of the backend for the next connection, by the current
    /// policy: a random backend; or the backend at the round robin position,
    /// which then moves on by one, back to the start after the last; or the
    /// first of the backends whose connection count is the least (an
    /// address without a count ranks as `usize::MAX`). Only the round robin
    /// position ever changes.
    pub fn get_next(&mut self) -> (addr: SocketAddress)
        requires
            old(self).can_select(),
        ensures
            final(self).backends == old(self).backends,
            final(self).selector == old(self).selector,
            final(self).connection_counts == old(self).connection_counts,
            match old(self).selector {
                LoadBalancingAlgorithm::Random => {
                    &&& final(self).current_index == old(self).current_index
                    &&& exists|i: int|
                        0 <= i < old(self).backends@.len() && addr
                            == #[trigger] old(self).backends@[i].listen_addr
                },
                LoadBalancingAlgorithm::RoundRobin => {
                    &&& addr == old(self).backends@[old(self).current_index as int].listen_addr
                    &&& final(self).current_index == (old(self).current_index + 1)
                        % (old(self).backends@.len() as int)
                },
                LoadBalancingAlgorithm::LeastConnection => {
                    &&& final(self).current_index == old(self).current_index
                    &&& exists|i: int|
                        is_first_least_loaded(old(self).backends@, old(self).connection_counts@, i)
                            && addr == #[trigger] old(self).backends@[i].listen_addr
                    &&& forall|j: int|
                        0 <= j < old(self).backends@.len() && old(self).connection_counts@.dom().contains(
                            #[trigger] old(self).backends@[j].listen_addr,
                        ) ==> (old(self).connection_counts@.dom().contains(addr)
                            && old(self).connection_counts@[addr]
                            <= old(self).connection_counts@[old(self).backends@[j].listen_addr])
                            || old(self).connection_counts@[old(self).backends@[j].listen_addr] == usize::MAX
                },
            },
    {
        match self.selector {
            LoadBalancingAlgorithm::Random => {
                let random_index = random_index(self.backends.len());
                self.pick_random_with(random_index)
            },
            LoadBalancingAlgorithm::RoundRobin => {
                let index = self.current_index;
                let len = self.backends.len();
                let addr = self.backends[index].listen_addr;
                self.current_index = (index + 1) % len;
                addr
            },
            LoadBalancingAlgorithm::LeastConnection => self.select_least_connection_backend(),
        }
    }

    /// The address of the first of the backends whose connection count is
    /// the least.
    fn select_least_connection_backend(&self) -> (addr: SocketAddress)
        requires
            self.backends@.len() > 0,
        ensures
            exists|i: int|
                is_first_least_loaded(self.backends@, self.connection_counts@, i)
                    && addr == #[trigger] self.backends@[i].listen_addr,
        forall|j: int|
            0 <= j < self.backends@.len() && self.connection_counts@.dom().contains(
                #[trigger] self.backends@[j].listen_addr,
            ) ==> (self.connection_counts@.dom().contains(addr) && self.connection_counts@[addr]
                <= self.connection_counts@[self.backends@[j].listen_addr])
                || self.connection_counts@[self.backends@[j].listen_addr] == usize::MAX,
    {
        let i = least_loaded_index(&self.backends, &self.connection_counts);
        proof {
            lemma_least_loaded_has_fewest_connections(self.backends@, self.connection_counts@, i as int);
        }
        self.backends[i].listen_addr
    }

    /// Adds `delta` to the connection count of `addr`, counting from 0 where
    /// it has no count.
    pub fn update_connection_count(&mut self, addr: SocketAddress, delta: usize)
        requires
            count_or_zero(old(self).connection_counts@, addr) + delta <= usize::MAX,
        ensures
            final(self).connection_counts@ == old(self).connection_counts@.insert(
                addr,
                (count_or_zero(old(self).connection_counts@, addr) + delta) as usize,
            ),
            final(self).backends == old(self).backends,
            final(self).selector == old(self).selector,
            final(self).current_index == old(self).current_index,
    {
        let count: usize = match self.connection_counts.get(&addr) {
            Some(c) => c,
            None => 0,
        };
        self.connection_counts.insert(addr, count + delta);
    }

    /// Takes the backends and the policy of `settings`; the round robin
    /// position and the connection counts stay.
    pub fn update(&mut self, settings: Settings)
        ensures
            final(self).backends@.len() == settings.backends@.len(),
            forall|i: int|
                0 <= i < settings.backends@.len() ==> *#[trigger] final(self).backends@[i]
                    == settings.backends@[i],
            final(self).selector == settings.algorithm,
            final(self).current_index == old(self).current_index,
            final(self).connection_counts == old(self).connection_counts,
    {
        self.backends = share_all(settings.backends);
        self.selector = settings.algorithm;
    }
}

} // verus!
