use vstd::prelude::*;

verus! {

/// Why a grid could not be laid over a domain.
#[derive(Clone, Copy, Debug, PartialEq, Eq, Structural)]
pub enum GridError {
    /// The cell size is not positive, or the domain has a negative dimension.
    InvalidConfig,
}

} // verus!
