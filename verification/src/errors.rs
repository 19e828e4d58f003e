//! Errors reported by actors.
use vstd::prelude::*;

verus! {

/// An actor's way of refusing a message or an initialization.
#[derive(Debug, PartialEq, Eq, Structural, Clone, Copy)]
pub enum Error {
    /// The actor has no handler for the received message kind.
    NotSupported,
}

} // verus!
