//! Attack-surface reconnaissance library: discovers candidate subdomains of a
//! target domain from certificate-transparency data, filters them by DNS
//! resolution, and classifies a fixed catalog of TCP ports on each resolvable
//! host as open or closed.
//!
//! All network traffic (the HTTPS fetch, DNS lookups, TCP connect probes) is
//! performed by the surrounding application; this crate holds the verified
//! decision logic: decoding, normalization, filtering, classification and
//! aggregation of scan results.

pub mod collector;
pub mod common_ports;
pub mod error;
pub mod model;
pub mod ports;
pub mod report;
pub mod subdomains;

pub use error::Error;
pub use model::DnsOutcome;
pub use model::Port;
pub use model::Subdomain;
