//! The errors of the library.
use vstd::prelude::*;

verus! {

/// Why a lookup or a load failed.
#[derive(Clone, Copy, Debug, PartialEq, Eq, Structural)]
pub enum GeoError {
    /// A query that is not a dotted-decimal IPv4 literal.
    InvalidAddress,
    /// A location identifier that no location row carries.
    UnknownGeonameId,
    /// A complete block row whose network is not CIDR text.
    InvalidNetwork,
}

} // verus!
