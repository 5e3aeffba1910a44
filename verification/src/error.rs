use vstd::prelude::*;

verus! {

/// Why a run over a measurement file fails.
#[derive(Debug, Clone, Copy, PartialEq, Eq, Structural)]
pub enum Error {
    /// A line has no `;`, or what follows the `;` is not a value.
    MalformedRecord,
}

} // verus!
