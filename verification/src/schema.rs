//! Endpoint schemas: the port and heartbeat parameters a host supplies
//! when it wires a sender or a receiver to its sockets.

use vstd::prelude::*;

verus! {

/// Parameters of a client-to-server flow: the server's NAT-mapper port,
/// the heartbeat period in milliseconds, and the data port.
pub struct ClientToServerSchema {
    pub name: &'static str,
    pub mapper_port: u16,
    pub heartbeat_period: u16,
    pub port: u16,
}

/// Parameters of a server-to-client flow: the server's NAT-mapper port and
/// the heartbeat period in milliseconds.
pub struct ServerToClientSchema {
    pub name: &'static str,
    pub mapper_port: u16,
    pub heartbeat_period: u16,
}

/// The ports a builder has already claimed.  Each schema's ports must be
/// distinct; claiming an already-claimed port is refused.
pub struct PortSet {
    ports: Vec<u16>,
}

impl PortSet {
    /// The ports claimed so far.
    pub closed spec fn spec_ports(&self) -> Seq<u16> {
        self.ports@
    }

    pub fn new() -> (r: PortSet)
        ensures
            r.spec_ports() == Seq::<u16>::empty(),
    {
        PortSet { ports: Vec::new() }
    }

    /// Claims `port`.  Returns `true` — and records the port — exactly
    /// when it was not claimed before.
    pub fn claim(&mut self, port: u16) -> (r: bool)
        ensures
            r <==> !old(self).spec_ports().contains(port),
            r ==> final(self).spec_ports() == old(self).spec_ports().push(port),
            !r ==> final(self).spec_ports() == old(self).spec_ports(),
    {
        let n = self.ports.len();
        let mut i: usize = 0;
        while i < n
            invariant
                n == self.spec_ports().len(),
                0 <= i <= n,
                forall|k: int| 0 <= k < i ==> self.spec_ports()[k] != port,
            decreases n - i,
        {
            if self.ports[i] == port {
                return false;
            }
            i = i + 1;
        }
        assert(!self.spec_ports().contains(port));
        self.ports.push(port);
        true
    }
}

} // verus!
