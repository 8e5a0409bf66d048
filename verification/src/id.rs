//! Peer identity: an opaque, comparable, copyable value. The shell derives it
//! from a peer's public key; the core only compares identities for equality.

use vstd::prelude::*;

verus! {

/// Identity of a peer on the network.
#[derive(Clone, Copy, PartialEq, Eq, Structural, Debug)]
pub struct Id(pub u64);

} // verus!
