//! A gossip-based consensus substrate: peers converge on a shared directed
//! acyclic graph of observed events. Each vertex (a `Unit`) is identified by a
//! content-addressed digest of its parent's payload and its own payload; a
//! `Dag` supports inserting a locally observed event (`new_payload`) and
//! merging a peer's graph (`union`); a `Gossiper` holds a `Dag` together with
//! the peer list and drives the rounds.

pub mod bytes;
pub mod digest;
pub mod dag;
pub mod error;
pub mod gossiper;
pub mod id;
pub mod unit;
