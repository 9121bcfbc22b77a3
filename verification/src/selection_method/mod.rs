pub mod round_robin;

use vstd::prelude::*;

use crate::common::address::SocketAddress;
use crate::common::types::Backend;

verus! {

/// A source of selection numbers: each call of `next` hands out the next
/// number, whatever the key.
pub trait SelectionAlgorithm: Sized {
    fn new() -> Self;

    fn next(&mut self, key: &[u8]) -> u64;
}

/// A policy that is built over a list of backends and hands out the address
/// of the backend for each next connection.
pub trait BackendSelection: Sized {
    /// Whether `get_next` can choose a backend.
    spec fn can_select(&self) -> bool;

    fn build(backends: Vec<Backend>) -> Self;

    fn get_next(&mut self) -> SocketAddress
        requires
            old(self).can_select(),
    ;
}

/// A walk over backends.
pub trait BackendIter {
    /// Return `Some(&Backend)` when there are more backends left to choose from.
    fn next(&mut self) -> Option<&Backend>;
}

} // verus!
