use vstd::prelude::*;

use crate::common::address::SocketAddress;

verus! {

/// A named backend server and the address it listens on.
#[derive(Debug, Clone)]
pub struct Backend {
    pub name: String,
    pub listen_addr: SocketAddress,
}

impl Backend {
    /// A backend with the given name and address.
    pub fn new(name: String, listen_addr: SocketAddress) -> (b: Backend)
        ensures
            b.name == name,
            b.listen_addr == listen_addr,
    {
        Backend { name, listen_addr }
    }
}

} // verus!
