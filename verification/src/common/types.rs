use vstd::prelude::*;

use crate::common::address::SocketAddress;

verus! {

/// A named backend server and the address it listens on.
#[derive(Debug, Clone)]
pub struct Backend {
    pub name: String,
    pub addr: SocketAddress,
}

} // verus!
