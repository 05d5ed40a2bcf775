//! The host set: an immutable ordered sequence of upstream endpoints,
//! produced once at startup. The order defines the round-robin cycle.
//!
//! Reading and resolving the host-list file is the surrounding
//! application's task; it hands the resolved endpoints in here. The one
//! piece of selection logic — preferring an IPv4 address among the
//! addresses a name resolved to — is verified below.

use vstd::prelude::*;

use crate::endpoint::Endpoint;

verus! {

/// Holds the ordered host set.
pub struct HostManager {
    pub hosts: Vec<Endpoint>,
}

impl HostManager {
    /// Wraps an already-resolved host list.
    pub fn new(hosts: Vec<Endpoint>) -> (m: HostManager)
        ensures
            m.hosts@ == hosts@,
    {
        HostManager { hosts }
    }
}

/// The index of the first IPv4 address in `addrs`, or the length if none.
pub open spec fn first_v4_index(addrs: Seq<Endpoint>, i: int) -> int
    decreases addrs.len() - i,
{
    if i < 0 || i >= addrs.len() {
        addrs.len() as int
    } else if addrs[i].is_v4 {
        i
    } else {
        first_v4_index(addrs, i + 1)
    }
}

/// The address to keep among those a single host entry resolved to: the
/// first IPv4 address if any, else the first address, and nothing when
/// resolution produced nothing.
pub open spec fn spec_preferred_address(addrs: Seq<Endpoint>) -> Option<Endpoint> {
    if addrs.len() == 0 {
        None
    } else if first_v4_index(addrs, 0) < addrs.len() {
        Some(addrs[first_v4_index(addrs, 0)])
    } else {
        Some(addrs[0])
    }
}

/// Picks the address to keep among the addresses one host entry resolved
/// to, preferring IPv4.
pub fn preferred_address(addrs: &Vec<Endpoint>) -> (r: Option<Endpoint>)
    ensures
        r == spec_preferred_address(addrs@),
{
    if addrs.len() == 0 {
        return None;
    }
    let mut i: usize = 0;
    while i < addrs.len()
        invariant
            0 < addrs@.len(),
            i <= addrs@.len(),
            forall|k: int| 0 <= k < i ==> !addrs@[k].is_v4,
            first_v4_index(addrs@, 0) == first_v4_index(addrs@, i as int),
        decreases addrs@.len() - i,
    {
        if addrs[i].is_v4 {
            assert(first_v4_index(addrs@, i as int) == i);
            return Some(addrs[i]);
        }
        assert(first_v4_index(addrs@, i as int) == first_v4_index(addrs@, i + 1));
        i = i + 1;
    }
    assert(first_v4_index(addrs@, 0) == addrs@.len());
    Some(addrs[0])
}

} // verus!
