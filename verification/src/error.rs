//! The errors a scan can end with. Only a malformed invocation, a failed
//! certificate-transparency request, and an undecodable response are fatal;
//! every other failure (a DNS miss, an unreachable address, a refused or
//! timed-out connect) is absorbed into the data model and never surfaces here.

use vstd::prelude::*;
use vstd::string::StringExecFns;

verus! {

/// A fatal scan error.
#[derive(Debug)]
pub enum Error {
    /// Malformed invocation: exactly one argument, the target domain, is owed.
    CliUsage,
    /// The certificate-transparency request failed at the transport or HTTP
    /// level; the detail text describes the failure.
    Network(String),
    /// The certificate-transparency response was not the expected JSON shape;
    /// the raw body is kept for diagnosis.
    Decoding(String),
}

impl Error {
    /// A short user-visible diagnostic for this error.
    pub fn message(&self) -> (r: String)
        ensures
            match self {
                Error::CliUsage => r@ == "usage: subrecon <domain.tld>"@,
                Error::Network(_) => r@ == "the certificate-transparency request failed"@,
                Error::Decoding(_) => r@ == "cannot decode the certificate-transparency response"@,
            },
    {
        match self {
            Error::CliUsage => String::from_str("usage: subrecon <domain.tld>"),
            Error::Network(_) => String::from_str("the certificate-transparency request failed"),
            Error::Decoding(_) => String::from_str(
                "cannot decode the certificate-transparency response",
            ),
        }
    }
}

/// The invocation contract: exactly one positional argument (so two counting
/// the program name) is accepted; anything else is a usage error, raised
/// before any network activity.
pub fn check_usage(arg_count: usize) -> (r: Result<(), Error>)
    ensures
        r is Ok <==> arg_count == 2,
        r is Err ==> r matches Err(Error::CliUsage),
{
    if arg_count == 2 {
        Ok(())
    } else {
        Err(Error::CliUsage)
    }
}

} // verus!
