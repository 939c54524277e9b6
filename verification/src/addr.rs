use vstd::prelude::*;

verus! {

/// A client's UDP endpoint as plain values: an IPv4 address (big-endian
/// octets packed into one integer) and a port.  It stands where the
/// transport layer would hand us a socket address; the transport code
/// converts in both directions at the boundary.
#[derive(Clone, Copy, PartialEq, Eq, Structural, Debug, Hash)]
pub struct ClientAddr {
    pub ip: u32,
    pub port: u16,
}

impl ClientAddr {
    pub fn new(ip: u32, port: u16) -> (r: ClientAddr)
        ensures
            r == (ClientAddr { ip, port }),
    {
        ClientAddr { ip, port }
    }
}

} // verus!
