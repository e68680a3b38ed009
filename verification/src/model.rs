//! Data model of a scan: ports, hosts, and the outcome of a DNS lookup.

use vstd::prelude::*;

verus! {

/// One catalog port of a scanned host, classified exactly once.
#[derive(Clone, Copy, PartialEq, Eq, Structural, Debug)]
pub struct Port {
    /// The TCP port number that was probed.
    pub port: u16,
    /// True only when a TCP connect to the port completed within the timeout.
    pub is_open: bool,
}

/// A hostname flowing through the pipeline: created by the DNS resolution
/// filter, later enriched with its open ports by the port-scan stage.
#[derive(Clone, Debug)]
pub struct Subdomain {
    /// Canonical hostname (trimmed; never a wildcard pattern).
    pub domain: String,
    /// True once the DNS resolution filter has confirmed the name resolves.
    pub has_address: bool,
    /// The ports found open on this host; closed ports are not retained.
    pub open_ports: Vec<Port>,
}

/// What a single DNS lookup against the resolution oracle came back with.
/// Everything but `Resolved` is an expected, non-exceptional miss.
#[derive(Clone, Copy, Debug)]
pub enum DnsOutcome {
    /// The oracle returned at least one address.
    Resolved,
    /// The oracle answered, but with an empty address set.
    NoAddresses,
    /// The lookup did not answer within its timeout.
    TimedOut,
    /// Any other lookup error (no such host, transport failure, ...).
    Failed,
}

impl Subdomain {
    /// Every port recorded on this host is an open one.
    pub open spec fn only_open_ports(self) -> bool {
        forall|i: int| 0 <= i < self.open_ports@.len() ==> (#[trigger] self.open_ports@[i]).is_open
    }
}

} // verus!
