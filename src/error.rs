use vstd::prelude::*;

verus! {

/// The ways in which a refresh of the dataset can fail.
#[derive(Debug, Clone, Copy, PartialEq, Eq, Structural)]
pub enum UpdateError {
    /// The feed payload is not valid UTF-8 text.
    InvalidText,
    /// The address pattern could not be compiled.
    InvalidPattern,
    /// The storage backend could not complete the operation.
    Storage,
}

} // verus!
