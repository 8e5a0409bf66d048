//! Errors surfaced to the peer shell.

use vstd::prelude::*;

verus! {

/// Recoverable failures of the peer shell's operations.
#[derive(Clone, Copy, PartialEq, Eq, Structural, Debug)]
pub enum Error {
    /// No peer is known, so no gossip target can be chosen.
    NoPeers,
    /// A value could not be serialised or deserialised by the shell.
    Serialisation,
}

} // verus!
