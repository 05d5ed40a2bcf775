//! Upstream endpoints as plain values: an IP address (IPv4 or IPv6, held as
//! its integer value) and a port. Equality is by the full address.

use vstd::prelude::*;

verus! {

/// A resolved upstream address. `ip` holds the address bits (an IPv4 address
/// fits in the low 32 bits), `is_v4` records the family, and `port` the TCP
/// port. Immutable once constructed; compared field by field.
#[derive(Clone, Copy, Debug, PartialEq, Eq, Structural)]
pub struct Endpoint {
    pub ip: u128,
    pub port: u16,
    pub is_v4: bool,
}

impl Endpoint {
    /// Builds an IPv4 endpoint from the address value and port.
    pub fn v4(ip: u32, port: u16) -> (r: Endpoint)
        ensures
            r == (Endpoint { ip: ip as u128, port, is_v4: true }),
    {
        Endpoint { ip: ip as u128, port, is_v4: true }
    }

    /// Builds an IPv6 endpoint from the address value and port.
    pub fn v6(ip: u128, port: u16) -> (r: Endpoint)
        ensures
            r == (Endpoint { ip, port, is_v4: false }),
    {
        Endpoint { ip, port, is_v4: false }
    }
}

} // verus!
