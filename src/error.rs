use vstd::prelude::*;

verus! {

/// Why a plan, or one of its steps, could not be produced.
#[derive(Debug, Clone, Copy, PartialEq, Eq, Structural)]
pub enum VlsmError {
    /// An address that is not four dotted octets.
    InvalidAddress,
    /// A prefix length outside `0..=32`.
    InvalidPrefix,
    /// One request needs a larger block than the base network holds.
    PrefixExhausted,
    /// The requests together need more room than the base network holds.
    AddressSpaceExhausted,
}

} // verus!
