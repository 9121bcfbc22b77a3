use std::sync::Arc;

use vstd::prelude::*;

use crate::common::address::SocketAddress;
use crate::common::connection_counts::ConnectionCounts;
use crate::configuration::{LoadBalancingAlgorithm, Settings};
use crate::proxy::backend::Backend;
use crate::proxy::selection::{
    count_or_zero, is_first_least_loaded, least_loaded_index, lemma_least_loaded_has_fewest_connections, listen_addrs, random_index, share,
    share_all, zero_counts,
};

verus! {

/// The signed reading of the bits of `c` (two's complement, as `c as isize`
/// reads them).
pub open spec fn as_signed(c: usize) -> int {
    if c <= isize::MAX {
        c as int
    } else {
        c as int - usize::MAX as int - 1
    }
}

/// The unsigned reading of the bits of a signed word `x` (as `x as usize`
/// reads them).
pub open spec fn as_unsigned(x: int) -> int {
    if x >= 0 {
        x
    } else {
        x + usize::MAX as int + 1
    }
}

/// The count that `update_connection_count` leaves for an address whose
/// count was `c`, after a change by `delta`.
pub open spec fn shifted_count(c: usize, delta: isize) -> int {
    as_unsigned(as_signed(c) + delta)
}

/// The backends, in their order, whose health check passed: `passed[i]` is
/// the outcome for `backends[i]`.
pub open spec fn passing_backends(backends: Seq<Arc<Backend>>, passed: Seq<bool>) -> Seq<Arc<Backend>>
    decreases backends.len(),
{
    if backends.len() == 0 {
        Seq::empty()
    } else {
        let rest = passing_backends(backends.drop_last(), passed);
        if passed[backends.len() - 1] {
            rest.push(backends.last())
        } else {
            rest
        }
    }
}

/// Where a count and its change stay in the non-negative signed range, the
/// change is plain addition: the count becomes `c + delta`.
pub proof fn lemma_shifted_count_adds(c: usize, delta: isize)
    requires
        c <= isize::MAX,
        0 <= c + delta <= isize::MAX,
    ensures
        shifted_count(c, delta) == c + delta,
{
}

/// Opening a connection and closing it again leaves the counts as they were,
/// but for an entry of 0 for an address that had none: a change by 1 and
/// then by -1 gives back the count it started from, for every count below
/// `isize::MAX`.
pub proof fn lemma_open_then_close_restores(counts: Map<SocketAddress, usize>, addr: SocketAddress)
    requires
        count_or_zero(counts, addr) < isize::MAX,
    ensures
        ({
            let c = count_or_zero(counts, addr);
            let opened = counts.insert(addr, shifted_count(c, 1) as usize);
            let closed = opened.insert(
                addr,
                shifted_count(count_or_zero(opened, addr), -1isize) as usize,
            );
            closed == counts.insert(addr, c)
        }),
{
    let c = count_or_zero(counts, addr);
    let opened = counts.insert(addr, shifted_count(c, 1) as usize);
    assert(count_or_zero(opened, addr) == c + 1);
    assert(opened.insert(addr, shifted_count((c + 1) as usize, -1isize) as usize) =~= counts.insert(addr, c));
}

/// Where every health check passed, every backend is healthy; where none
/// did, no backend is.
pub proof fn lemma_passing_backends_all_or_none(backends: Seq<Arc<Backend>>, passed: Seq<bool>)
    requires
        passed.len() == backends.len(),
    ensures
        (forall|i: int| 0 <= i < passed.len() ==> #[trigger] passed[i]) ==> passing_backends(backends, passed) == backends,
        (forall|i: int| 0 <= i < passed.len() ==> !#[trigger] passed[i]) ==> passing_backends(backends, passed).len() == 0,
    decreases backends.len(),
{
    if backends.len() > 0 {
        let shorter = passed.drop_last();
        lemma_passing_backends_all_or_none(backends.drop_last(), shorter);
        lemma_passing_backends_prefix(backends.drop_last(), passed, shorter);
        if forall|i: int| 0 <= i < passed.len() ==> #[trigger] passed[i] {
            assert(forall|i: int| 0 <= i < shorter.len() ==> #[trigger] shorter[i] == passed[i]);
            assert(backends.drop_last().push(backends.last()) == backends);
        }
        if forall|i: int| 0 <= i < passed.len() ==> !#[trigger] passed[i] {
            assert(forall|i: int| 0 <= i < shorter.len() ==> #[trigger] shorter[i] == passed[i]);
        }
    }
}

/// Only the outcomes for the backends given count.
proof fn lemma_passing_backends_prefix(backends: Seq<Arc<Backend>>, passed: Seq<bool>, other: Seq<bool>)
    requires
        backends.len() <= passed.len(),
        backends.len() <= other.len(),
        forall|i: int| 0 <= i < backends.len() ==> passed[i] == other[i],
    ensures
        passing_backends(backends, passed) == passing_backends(backends, other),
    decreases backends.len(),
{
    if backends.len() > 0 {
        lemma_passing_backends_prefix(backends.drop_last(), passed, other);
    }
}

/// The healthy backends are exactly the backends whose check passed, each
/// once and in the backends' order: the returned positions rise strictly,
/// each one is a passed check whose backend stands at that place among the
/// healthy backends, and every passed check has its position among them. So
/// there are as many healthy backends as passed checks.
pub proof fn lemma_passing_backends_exactly(backends: Seq<Arc<Backend>>, passed: Seq<bool>) -> (idx: Seq<int>)
    requires
        passed.len() == backends.len(),
    ensures
        idx.len() == passing_backends(backends, passed).len(),
        forall|k: int|
            0 <= k < idx.len() ==> 0 <= #[trigger] idx[k] < backends.len() && passed[idx[k]]
                && passing_backends(backends, passed)[k] == backends[idx[k]],
        forall|k1: int, k2: int| 0 <= k1 < k2 < idx.len() ==> #[trigger] idx[k1] < #[trigger] idx[k2],
        forall|i: int| 0 <= i < backends.len() && #[trigger] passed[i] ==> idx.contains(i),
        passing_backends(backends, passed).len() == passed.filter(|b: bool| b).len(),
    decreases backends.len(),
{
    reveal(Seq::filter);
    if backends.len() == 0 {
        assert(passed.filter(|b: bool| b).len() == 0);
        Seq::empty()
    } else {
        let n = backends.len() - 1;
        let shorter = passed.drop_last();
        let rest_b = backends.drop_last();
        lemma_passing_backends_prefix(rest_b, passed, shorter);
        let idx_r = lemma_passing_backends_exactly(rest_b, shorter);
        let rest = passing_backends(rest_b, passed);
        let all = passing_backends(backends, passed);
        assert(passed.filter(|b: bool| b) == if passed.last() {
            shorter.filter(|b: bool| b).push(passed.last())
        } else {
            shorter.filter(|b: bool| b)
        });
        let idx = if passed[n] { idx_r.push(n) } else { idx_r };
        assert forall|k: int| 0 <= k < idx.len() implies 0 <= #[trigger] idx[k] < backends.len() && passed[idx[k]]
            && all[k] == backends[idx[k]] by {
            if k < idx_r.len() {
                assert(idx[k] == idx_r[k]);
                assert(all[k] == rest[k]);
                assert(rest_b[idx_r[k]] == backends[idx_r[k]]);
                assert(shorter[idx_r[k]] == passed[idx_r[k]]);
            } else {
                assert(idx[k] == n);
            }
        }
        assert forall|k1: int, k2: int| 0 <= k1 < k2 < idx.len() implies #[trigger] idx[k1] < #[trigger] idx[k2] by {
            if k2 < idx_r.len() {
                assert(idx[k1] == idx_r[k1] && idx[k2] == idx_r[k2]);
            } else {
                assert(idx[k1] == idx_r[k1]);
                assert(0 <= idx_r[k1] < rest_b.len());
            }
        }
        assert forall|i: int| 0 <= i < backends.len() && #[trigger] passed[i] implies idx.contains(i) by {
            if i < n {
                assert(shorter[i] == passed[i]);
                assert(idx_r.contains(i));
                let k = choose|k: int| 0 <= k < idx_r.len() && idx_r[k] == i;
                assert(idx[k] == i);
            } else {
                assert(idx[idx.len() - 1] == i);
            }
        }
        idx
    }
}

/// Whether `b` is one of the backends whose health check passed.
pub open spec fn is_passing(backends: Seq<Arc<Backend>>, passed: Seq<bool>, b: Arc<Backend>) -> bool {
    exists|i: int| 0 <= i < backends.len() && passed[i] && b == backends[i]
}

/// Every healthy backend is one of the backends whose check passed, and
/// there are no more healthy backends than backends.
pub proof fn lemma_passing_backends_are_passing(backends: Seq<Arc<Backend>>, passed: Seq<bool>)
    requires
        passed.len() == backends.len(),
    ensures
        passing_backends(backends, passed).len() <= backends.len(),
        forall|k: int|
            0 <= k < passing_backends(backends, passed).len() ==> is_passing(
                backends,
                passed,
                #[trigger] passing_backends(backends, passed)[k],
            ),
    decreases backends.len(),
{
    if backends.len() > 0 {
        let shorter = passed.drop_last();
        let rest_b = backends.drop_last();
        lemma_passing_backends_prefix(rest_b, passed, shorter);
        lemma_passing_backends_are_passing(rest_b, shorter);
        let rest = passing_backends(rest_b, passed);
        assert forall|k: int| 0 <= k < passing_backends(backends, passed).len() implies is_passing(
            backends,
            passed,
            #[trigger] passing_backends(backends, passed)[k],
        ) by {
            let all = passing_backends(backends, passed);
            if k < rest.len() {
                assert(all[k] == rest[k]);
                assert(is_passing(rest_b, shorter, rest[k]));
                let i = choose|i: int| 0 <= i < rest_b.len() && shorter[i] && rest[k] == rest_b[i];
                assert(backends[i] == rest_b[i]);
            } else {
                let i = backends.len() - 1;
                assert(passed[i]);
                assert(all[k] == backends[i]);
            }
        }
    }
}

/// The connections' dispatcher: the configured backends, those of them that
/// passed their last health check, the selection policy, the round-robin
/// position among the healthy backends, and each backend's connection count.
pub struct Proxy {
    pub backends: Vec<Arc<Backend>>,
    pub healthy_backends: Vec<Arc<Backend>>,
    pub selector: LoadBalancingAlgorithm,
    pub current_index: usize,
    pub connection_counts: ConnectionCounts,
}

impl Proxy {
    /// Whether `get_next` can choose a backend: random selection needs a
    /// healthy backend, round robin a position inside the healthy backends,
    /// least connection a backend.
    pub open spec fn can_select(&self) -> bool {
        match self.selector {
            LoadBalancingAlgorithm::Random => self.healthy_backends@.len() > 0,
            LoadBalancingAlgorithm::RoundRobin => self.current_index < self.healthy_backends@.len(),
            LoadBalancingAlgorithm::LeastConnection => self.backends@.len() > 0,
        }
    }

    /// A proxy over `backends` with the policy `selector`: each backend's
    /// address counted at 0 connections, no backend known to be healthy yet,
    /// round robin at its first position.
    pub fn new(backends: Vec<Backend>, selector: LoadBalancingAlgorithm) -> (p: Proxy)
        ensures
            p.backends@.len() == backends@.len(),
            forall|i: int| 0 <= i < backends@.len() ==> *#[trigger] p.backends@[i] == backends@[i],
            p.healthy_backends@.len() == 0,
            p.selector == selector,
            p.current_index == 0,
            p.connection_counts@ == Map::new(
                |a: SocketAddress| listen_addrs(p.backends@).contains(a),
                |a: SocketAddress| 0usize,
            ),
            forall|i: int|
                0 <= i < backends@.len() ==> p.connection_counts@.dom().contains(
                    #[trigger] backends@[i].listen_addr,
                ) && p.connection_counts@[backends@[i].listen_addr] == 0,
            forall|a: SocketAddress|
                #[trigger] p.connection_counts@.dom().contains(a) ==> exists|i: int|
                    0 <= i < backends@.len() && #[trigger] backends@[i].listen_addr == a,
    {
        let backend_servers = share_all(backends);
        let connection_counts = zero_counts(&backend_servers);
        proof {
            assert forall|i: int| 0 <= i < backends@.len() implies connection_counts@.dom().contains(
                #[trigger] backends@[i].listen_addr,
            ) && connection_counts@[backends@[i].listen_addr] == 0 by {
                assert(backend_servers@[i].listen_addr == backends@[i].listen_addr);
            }
            assert forall|a: SocketAddress| #[trigger] connection_counts@.dom().contains(a) implies exists|i: int|
                0 <= i < backends@.len() && #[trigger] backends@[i].listen_addr == a by {
                let i = choose|i: int| 0 <= i < backend_servers@.len() && #[trigger] backend_servers@[i].listen_addr == a;
                assert(backend_servers@[i].listen_addr == backends@[i].listen_addr);
            }
        }
        Proxy {
            backends: backend_servers,
            healthy_backends: Vec::new(),
            selector,
            current_index: 0,
            connection_counts,
        }
    }

    /// The address of the healthy backend at `random_index`: what random
    /// selection hands out once the index is drawn.
    pub fn pick_random_with(&self, random_index: usize) -> (addr: SocketAddress)
        requires
            random_index < self.healthy_backends@.len(),
        ensures
            addr == self.healthy_backends@[random_index as int].listen_addr,
    {
        self.healthy_backends[random_index].listen_addr
    }

    /// The address of the backend for the next connection, by the current
    /// policy.
    ///
    /// Random selection draws one of the healthy backends; round robin takes
    /// the healthy backend at the current position and moves the position
    /// on by one, back to the start after the last; least connection takes
    /// the first of all the backends whose connection count is the least
    /// (an address without a count ranks as `usize::MAX`). Only the round
    /// robin position ever changes.
    pub fn get_next(&mut self) -> (addr: SocketAddress)
        requires
            old(self).can_select(),
        ensures
            final(self).backends == old(self).backends,
            final(self).healthy_backends == old(self).healthy_backends,
            final(self).selector == old(self).selector,
            final(self).connection_counts == old(self).connection_counts,
            match old(self).selector {
                LoadBalancingAlgorithm::Random => {
                    &&& final(self).current_index == old(self).current_index
                    &&& exists|i: int|
                        0 <= i < old(self).healthy_backends@.len()
                            && addr == #[trigger] old(self).healthy_backends@[i].listen_addr
                },
                LoadBalancingAlgorithm::RoundRobin => {
                    &&& addr == old(self).healthy_backends@[old(self).current_index as int].listen_addr
                    &&& final(self).current_index == (old(self).current_index + 1)
                        % (old(self).healthy_backends@.len() as int)
                },
                LoadBalancingAlgorithm::LeastConnection => {
                    &&& final(self).current_index == old(self).current_index
                    &&& exists|i: int|
                        is_first_least_loaded(old(self).backends@, old(self).connection_counts@, i)
                            && addr == #[trigger] old(self).backends@[i].listen_addr
                    &&& forall|j: int|
                        0 <= j < old(self).backends@.len() && old(self).connection_counts@.dom().contains(
                            #[trigger] old(self).backends@[j].listen_addr,
                        ) ==> (old(self).connection_counts@.dom().contains(addr)
                            && old(self).connection_counts@[addr]
                            <= old(self).connection_counts@[old(self).backends@[j].listen_addr])
                            || old(self).connection_counts@[old(self).backends@[j].listen_addr] == usize::MAX
                },
            },
    {
        match self.selector {
            LoadBalancingAlgorithm::Random => {
                let random_index = random_index(self.healthy_backends.len());
                self.pick_random_with(random_index)
            },
            LoadBalancingAlgorithm::RoundRobin => {
                let index = self.current_index;
                let len = self.healthy_backends.len();
                let addr = self.healthy_backends[index].listen_addr;
                self.current_index = (index + 1) % len;
                addr
            },
            LoadBalancingAlgorithm::LeastConnection => self.select_least_connection_backend(),
        }
    }

    /// The address of the first of all the backends whose connection count
    /// is the least.
    fn select_least_connection_backend(&self) -> (addr: SocketAddress)
        requires
            self.backends@.len() > 0,
        ensures
            exists|i: int|
                is_first_least_loaded(self.backends@, self.connection_counts@, i)
                    && addr == #[trigger] self.backends@[i].listen_addr,
        forall|j: int|
            0 <= j < self.backends@.len() && self.connection_counts@.dom().contains(
                #[trigger] self.backends@[j].listen_addr,
            ) ==> (self.connection_counts@.dom().contains(addr) && self.connection_counts@[addr]
                <= self.connection_counts@[self.backends@[j].listen_addr])
                || self.connection_counts@[self.backends@[j].listen_addr] == usize::MAX,
    {
        let i = least_loaded_index(&self.backends, &self.connection_counts);
        proof {
            lemma_least_loaded_has_fewest_connections(self.backends@, self.connection_counts@, i as int);
        }
        self.backends[i].listen_addr
    }

    /// Changes the connection count of `addr` by `delta`, counting from 0
    /// where it has no count: the count's bits are read as a signed word,
    /// `delta` is added, and the sum's bits are read back as the count.
    pub fn update_connection_count(&mut self, addr: SocketAddress, delta: isize)
        requires
            isize::MIN <= as_signed(count_or_zero(old(self).connection_counts@, addr)) + delta
                <= isize::MAX,
        ensures
            final(self).connection_counts@ == old(self).connection_counts@.insert(
                addr,
                shifted_count(count_or_zero(old(self).connection_counts@, addr), delta) as usize,
            ),
            final(self).backends == old(self).backends,
            final(self).healthy_backends == old(self).healthy_backends,
            final(self).selector == old(self).selector,
            final(self).current_index == old(self).current_index,
    {
        let count: usize = match self.connection_counts.get(&addr) {
            Some(c) => c,
            None => 0,
        };
        let signed: isize = if count <= isize::MAX as usize {
            count as isize
        } else {
            -((usize::MAX - count) as isize) - 1
        };
        let sum: isize = signed + delta;
        let new_count: usize = if sum >= 0 {
            sum as usize
        } else {
            usize::MAX - ((-(sum + 1)) as usize)
        };
        self.connection_counts.insert(addr, new_count);
    }

    /// Makes the healthy backends those backends, in their order, whose
    /// health check passed; `passed[i]` is the outcome for `backends[i]`.
    pub fn update_healthy_backends(&mut self, passed: &[bool])
        requires
            passed@.len() == old(self).backends@.len(),
        ensures
            final(self).healthy_backends@ == passing_backends(old(self).backends@, passed@),
            final(self).healthy_backends@.len() == passed@.filter(|b: bool| b).len(),
            forall|i: int|
                0 <= i < old(self).backends@.len() && #[trigger] passed@[i] ==> exists|k: int|
                    0 <= k < final(self).healthy_backends@.len() && final(self).healthy_backends@[k]
                        == old(self).backends@[i],
            final(self).backends == old(self).backends,
            final(self).selector == old(self).selector,
            final(self).current_index == old(self).current_index,
            final(self).connection_counts == old(self).connection_counts,
    {
        let mut healthy_backends: Vec<Arc<Backend>> = Vec::new();
        let n = self.backends.len();
        for i in 0..n
            invariant
                n == self.backends@.len(),
                passed@.len() == n,
                healthy_backends@ == passing_backends(self.backends@.take(i as int), passed@),
        {
            proof {
                assert(self.backends@.take(i + 1).drop_last() == self.backends@.take(i as int));
            }
            if passed[i] {
                healthy_backends.push(share(&self.backends[i]));
            }
        }
        proof {
            assert(self.backends@.take(n as int) == self.backends@);
            let idx = lemma_passing_backends_exactly(self.backends@, passed@);
            assert forall|i: int|
                0 <= i < self.backends@.len() && #[trigger] passed@[i] implies exists|k: int|
                    0 <= k < healthy_backends@.len() && healthy_backends@[k] == self.backends@[i] by {
                assert(idx.contains(i));
                let k = choose|k: int| 0 <= k < idx.len() && idx[k] == i;
                assert(healthy_backends@[k] == self.backends@[idx[k]]);
            }
        }
        self.healthy_backends = healthy_backends;
    }

    /// Takes the backends and the policy of `settings`; the healthy
    /// backends, the round robin position and the connection counts stay.
    pub fn update(&mut self, settings: Settings)
        ensures
            final(self).backends@.len() == settings.backends@.len(),
            forall|i: int|
                0 <= i < settings.backends@.len() ==> *#[trigger] final(self).backends@[i]
                    == settings.backends@[i],
            final(self).selector == settings.algorithm,
            final(self).healthy_backends == old(self).healthy_backends,
            final(self).current_index == old(self).current_index,
            final(self).connection_counts == old(self).connection_counts,
    {
        let backend_servers = share_all(settings.backends);
        self.backends = backend_servers;
        self.selector = settings.algorithm;
    }
}

} // verus!
