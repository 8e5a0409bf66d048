//! The peer shell around a DAG: the peer list, the majority threshold, and
//! the round decisions. The host process performs the key handling and the
//! wire encoding and hands plain values in and out.

use vstd::prelude::*;
use rand::seq::SliceRandom;
use crate::dag::{rooted, Dag};
use crate::error::Error;
use crate::id::Id;

verus! {

/// An entity on the network which will gossip messages.
pub struct Gossiper {
    /// This peer's identity.
    pub id: Id,
    /// The identities of the other peers on the network.
    pub peers: Vec<Id>,
    /// The local DAG of observed events.
    pub dag: Dag,
}

/// Relies on rand's SliceRandom::choose: a uniformly random element of the
/// slice, present exactly when the slice is non-empty.
#[verifier::external_body]
fn choose_peer(peers: &Vec<Id>) -> (r: Option<Id>)
    ensures
        r is Some <==> peers@.len() > 0,
        (match r {
            Some(p) => peers@.contains(p),
            None => true,
        }),
{
    let mut rng = rand::thread_rng();
    peers.as_slice().choose(&mut rng).copied()
}

impl Gossiper {
    /// A gossiper for the given identity, knowing no peers yet.
    pub fn new(id: Id) -> (r: Gossiper)
        ensures
            r.id == id,
            r.peers@.len() == 0,
            r.dag.inv(),
            rooted(r.dag.umap()),
            r.dag.majority == 0,
            r.dag.units@.len() == 1,
            r.dag.units@[0]@.identifier == crate::digest::genesis_identifier(),
            r.dag.units@[0]@.observers == Set::<Id>::empty().insert(id),
            r.dag.units@[0]@.children == Set::<Seq<u8>>::empty(),
    {
        Gossiper { id, peers: Vec::new(), dag: Dag::new(id) }
    }

    /// The ID of this `Gossiper`.
    pub fn id(&self) -> (r: Id)
        ensures
            r == self.id,
    {
        self.id
    }

    /// Add the ID of another node on the network, and raise the majority
    /// threshold to half the node count, rounded up: with n nodes on the
    /// network (the peers plus this gossiper), a unit is stable once
    /// at least (n + 1) / 2 of them, rounded up, have witnessed it.
    pub fn add_peer(&mut self, peer_id: Id) -> (r: Result<(), Error>)
        requires
            old(self).peers@.len() < 508,
            old(self).dag.inv(),
        ensures
            r is Ok,
            final(self).id == old(self).id,
            final(self).peers@ == old(self).peers@.push(peer_id),
            final(self).dag.inv(),
            final(self).dag.units@ == old(self).dag.units@,
            final(self).dag.majority == (old(self).peers@.len() + 4) / 2,
    {
        self.peers.push(peer_id);
        let majority = ((self.peers.len() + 3) / 2) as u8;
        self.dag.set_majority(majority);
        Ok(())
    }

    /// Send a new message starting at this `Gossiper`: the host hands the
    /// event already encoded as bytes, and the DAG absorbs it.
    pub fn send_new(&mut self, message: Vec<u8>) -> (r: Result<(), Error>)
        requires
            old(self).dag.inv(),
            rooted(old(self).dag.umap()),
            old(self).dag.units@.len() < usize::MAX,
            exists|i: int|
                0 <= i < old(self).dag.units@.len() && (#[trigger] old(
                    self,
                ).dag.units@[i])@.children == Set::<Seq<u8>>::empty(),
        ensures
            r is Ok,
            final(self).id == old(self).id,
            final(self).peers@ == old(self).peers@,
            final(self).dag.inv(),
            rooted(final(self).dag.umap()),
            final(self).dag.majority == old(self).dag.majority,
            final(self).dag.units@.len() >= old(self).dag.units@.len(),
            forall|i: int|
                0 <= i < old(self).dag.units@.len() ==> {
                    let u0 = (#[trigger] old(self).dag.units@[i])@;
                    let u1 = final(self).dag.units@[i]@;
                    u1.identifier == u0.identifier && u1.parent == u0.parent && u1.payload
                        == u0.payload && u0.observers.subset_of(u1.observers)
                        && u0.children.subset_of(u1.children)
                },
            ({
                let bp = crate::dag::best_parent_of(
                    old(self).dag.umap(),
                    old(self).dag.views(),
                    old(self).dag.majority,
                    old(self).id,
                ).identifier;
                &&& old(self).dag.umap().contains_key(bp)
                &&& old(self).dag.umap()[bp].children == Set::<Seq<u8>>::empty()
                &&& final(self).dag.umap() == crate::dag::extend_with(
                    old(self).dag.umap(),
                    bp,
                    message@,
                    old(self).id,
                )
            }),
    {
        let own = self.id;
        self.dag.new_payload(message, &own);
        Ok(())
    }

    /// Start a new round: pick a random peer to push the local DAG to, or
    /// report that no peer is known. The host serializes the DAG itself.
    pub fn next_round(&self) -> (r: Result<Id, Error>)
        ensures
            r is Ok <==> self.peers@.len() > 0,
            (match r {
                Ok(p) => self.peers@.contains(p),
                Err(e) => e == Error::NoPeers,
            }),
    {
        match choose_peer(&self.peers) {
            Some(peer) => Ok(peer),
            None => Err(Error::NoPeers),
        }
    }

    /// Handle an incoming DAG from a peer, already decoded by the host.
    pub fn handle_received_message(&mut self, other: &Dag)
        requires
            old(self).dag.inv(),
            other.inv(),
        ensures
            final(self).id == old(self).id,
            final(self).peers@ == old(self).peers@,
            final(self).dag.inv(),
            final(self).dag.majority == old(self).dag.majority,
            final(self).dag.units@.len() >= old(self).dag.units@.len(),
            forall|i: int|
                0 <= i < old(self).dag.units@.len() ==> {
                    let u0 = (#[trigger] old(self).dag.units@[i])@;
                    let u1 = final(self).dag.units@[i]@;
                    u1.identifier == u0.identifier && u1.parent == u0.parent && u1.payload
                        == u0.payload && u0.observers.subset_of(u1.observers)
                        && u0.children.subset_of(u1.children)
                },
            final(self).dag.umap() == crate::dag::merged_with(
                old(self).dag.umap(),
                crate::dag::unit_views(other.units@),
            ),
            forall|id: Seq<u8>| #[trigger]
                final(self).dag.umap().contains_key(id) ==> old(self).dag.umap().contains_key(id)
                    || exists|k: int|
                    0 <= k < other.units@.len() && other.units@[k]@.identifier == id,
    {
        self.dag.union(other);
    }
}

} // verus!
