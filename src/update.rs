use vstd::prelude::*;

use crate::identity::{sort_ids, sorted, PeerId};

verus! {

/// A membership change seen by one detector: every peer now live, the peer
/// whose first announcement caused it (if any), and the peers just evicted.
#[derive(Debug)]
pub struct PeerUpdate<T> {
    peers: Vec<T>,
    new: Option<T>,
    lost: Vec<T>,
}

impl<T: PeerId> PeerUpdate<T> {
    pub closed spec fn peers_seq(&self) -> Seq<T> {
        self.peers@
    }

    pub closed spec fn new_id(&self) -> Option<T> {
        self.new
    }

    pub closed spec fn lost_seq(&self) -> Seq<T> {
        self.lost@
    }

    /// An update with no peers, no new peer and nothing lost.
    pub fn new() -> (r: Self)
        ensures
            r.peers_seq() == Seq::<T>::empty(),
            r.new_id() == None::<T>,
            r.lost_seq() == Seq::<T>::empty(),
    {
        PeerUpdate { peers: Vec::new(), new: None, lost: Vec::new() }
    }

    pub fn add_peers(&mut self, id: T)
        ensures
            final(self).peers_seq() == old(self).peers_seq().push(id),
            final(self).new_id() == old(self).new_id(),
            final(self).lost_seq() == old(self).lost_seq(),
    {
        self.peers.push(id);
    }

    pub fn set_new(&mut self, id: T)
        ensures
            final(self).peers_seq() == old(self).peers_seq(),
            final(self).new_id() == Some(id),
            final(self).lost_seq() == old(self).lost_seq(),
    {
        self.new = Some(id);
    }

    pub fn add_lost(&mut self, id: T)
        ensures
            final(self).peers_seq() == old(self).peers_seq(),
            final(self).new_id() == old(self).new_id(),
            final(self).lost_seq() == old(self).lost_seq().push(id),
    {
        self.lost.push(id);
    }

    /// Puts `peers` and `lost` in ascending order, keeping their elements.
    pub fn sort(&mut self)
        ensures
            sorted(final(self).peers_seq()),
            sorted(final(self).lost_seq()),
            final(self).peers_seq().to_multiset() == old(self).peers_seq().to_multiset(),
            final(self).lost_seq().to_multiset() == old(self).lost_seq().to_multiset(),
            final(self).new_id() == old(self).new_id(),
    {
        let mut peers: Vec<T> = Vec::new();
        std::mem::swap(&mut peers, &mut self.peers);
        self.peers = sort_ids(peers);
        let mut lost: Vec<T> = Vec::new();
        std::mem::swap(&mut lost, &mut self.lost);
        self.lost = sort_ids(lost);
    }

    pub fn peers(&self) -> (r: &Vec<T>)
        ensures
            r@ == self.peers_seq(),
    {
        &self.peers
    }

    pub fn new_peer(&self) -> (r: &Option<T>)
        ensures
            *r == self.new_id(),
    {
        &self.new
    }

    pub fn lost(&self) -> (r: &Vec<T>)
        ensures
            r@ == self.lost_seq(),
    {
        &self.lost
    }
}

} // verus!
