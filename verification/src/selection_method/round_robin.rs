use vstd::prelude::*;

use crate::common::address::SocketAddress;
use crate::common::types::Backend;
use crate::selection_method::{BackendSelection, SelectionAlgorithm};

verus! {

/// A counter that hands out 0, 1, 2, ... and wraps around to 0 after
/// `usize::MAX`.
pub struct RoundRobin(usize);

impl View for RoundRobin {
    type V = nat;

    closed spec fn view(&self) -> nat {
        self.0 as nat
    }
}

/// The counter's value after one more step: one up, or 0 after `usize::MAX`.
pub open spec fn counter_after(c: nat) -> nat {
    if c < usize::MAX {
        c + 1
    } else {
        0
    }
}

impl SelectionAlgorithm for RoundRobin {
    fn new() -> (r: Self)
        ensures
            r@ == 0,
    {
        RoundRobin(0)
    }

    /// The counter's value before the call; the counter steps on.
    fn next(&mut self, _key: &[u8]) -> (r: u64)
        ensures
            r == old(self)@,
            final(self)@ == counter_after(old(self)@),
    {
        let current = self.0;
        self.0 = current.wrapping_add(1);
        current as u64
    }
}

/// Round robin over a list of backends: the backend at the current position,
/// then the position moves on by one, back to the start after the last.
pub struct RoundRobinSelector {
    backends: Vec<Backend>,
    current_index: usize,
}

impl RoundRobinSelector {
    #[verifier::type_invariant]
    spec fn position_in_range(self) -> bool {
        self.current_index == 0 || self.current_index < self.backends@.len()
    }

    /// The backends, in their order.
    pub closed spec fn pool(&self) -> Seq<Backend> {
        self.backends@
    }

    /// The current position.
    pub closed spec fn position(&self) -> nat {
        self.current_index as nat
    }
}

impl BackendSelection for RoundRobinSelector {
    closed spec fn can_select(&self) -> bool {
        self.backends@.len() > 0
    }

    fn build(backends: Vec<Backend>) -> (r: Self)
        ensures
            r.pool() == backends@,
            r.position() == 0,
            r.can_select() == (backends@.len() > 0),
    {
        RoundRobinSelector { backends, current_index: 0 }
    }

    fn get_next(&mut self) -> (addr: SocketAddress)
        ensures
            addr == old(self).pool()[old(self).position() as int].addr,
            final(self).pool() == old(self).pool(),
            final(self).position() == (old(self).position() + 1) % old(self).pool().len(),
            final(self).can_select(),
            final(self).position() < final(self).pool().len(),
    {
        proof {
            use_type_invariant(&*self);
        }
        let index = self.current_index;
        let len = self.backends.len();
        let addr: SocketAddress = self.backends[index].addr;
        self.current_index = (index + 1) % len;
        addr
    }
}

} // verus!
