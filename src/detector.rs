use vstd::prelude::*;

use crate::identity::{lemma_sorted_distinct, lemma_sorted_unique, sorted_strict, PeerId};
use crate::update::PeerUpdate;
use crate::wire::{decode_id, json_u64};

verus! {

/// A peer last seen at `last` is presumed gone at `now`: more than
/// `timeout` has passed since.
pub open spec fn expired(last: u64, now: u64, timeout: u64) -> bool {
    now > last && now - last > timeout
}

/// The peers of table `m` that are presumed gone at `now`.
pub open spec fn expired_ids<T>(m: Map<T, u64>, now: u64, timeout: u64) -> Set<T> {
    Set::new(|k: T| m.contains_key(k) && expired(m[k], now, timeout))
}

/// Table `m` once the peers presumed gone at `now` are removed.
pub open spec fn survivors<T>(m: Map<T, u64>, now: u64, timeout: u64) -> Map<T, u64> {
    m.remove_keys(expired_ids(m, now, timeout))
}

/// `u` reports `new` as the new peer, exactly `live` as the live peers and
/// exactly `gone` as the lost ones, both strictly ascending.
pub open spec fn reports<T: PeerId>(u: PeerUpdate<T>, new: Option<T>, live: Set<T>, gone: Set<T>) -> bool {
    &&& u.new_id() == new
    &&& sorted_strict(u.peers_seq())
    &&& u.peers_seq().to_set() == live
    &&& sorted_strict(u.lost_seq())
    &&& u.lost_seq().to_set() == gone
}

/// `post` and `r` are what a detector in state `pre` comes to, and returns,
/// on hearing `id` at `now`: `id` is refreshed, then every peer presumed
/// gone is evicted; an update comes exactly when `id` was unknown or some
/// peer was evicted.
pub open spec fn received<T: PeerId>(
    pre: Detector<T>,
    post: Detector<T>,
    id: T,
    now: u64,
    r: Option<PeerUpdate<T>>,
) -> bool {
    let m1 = pre.table().insert(id, now);
    let gone = expired_ids(m1, now, pre.timeout_spec());
    &&& post.wf()
    &&& post.timeout_spec() == pre.timeout_spec()
    &&& post.table() == survivors(m1, now, pre.timeout_spec())
    &&& (r is None <==> pre.table().contains_key(id) && gone.is_empty())
    &&& match r {
        None => true,
        Some(u) => reports(
            u,
            if pre.table().contains_key(id) {
                None
            } else {
                Some(id)
            },
            post.table().dom(),
            gone,
        ),
    }
}

/// The entries of `tbl` are those of `m`, each key once.
pub open spec fn table_matches<T>(tbl: Seq<(T, u64)>, m: Map<T, u64>) -> bool {
    &&& forall|i: int| 0 <= i < tbl.len() ==> m.contains_key(#[trigger] tbl[i].0) && m[tbl[i].0] == tbl[i].1
    &&& forall|k: T| #[trigger] m.contains_key(k) ==> exists|i: int| 0 <= i < tbl.len() && #[trigger] tbl[i].0 == k
    &&& forall|i: int, j: int| 0 <= i < j < tbl.len() ==> #[trigger] tbl[i].0 != #[trigger] tbl[j].0
}

/// The receiving side: a liveness table from identity to the time it was
/// last heard, and a failure detector over it.
#[verifier::reject_recursive_types(T)]
pub struct Detector<T> {
    timeout: u64,
    table: Vec<(T, u64)>,
    live: Ghost<Map<T, u64>>,
}

impl<T: PeerId> Detector<T> {
    /// The liveness table: each live peer and when it was last heard.
    pub closed spec fn table(&self) -> Map<T, u64> {
        self.live@
    }

    pub closed spec fn timeout_spec(&self) -> u64 {
        self.timeout
    }

    pub closed spec fn wf(&self) -> bool {
        table_matches(self.table@, self.live@)
    }

    /// A detector with an empty table that presumes a peer gone after
    /// `timeout` of silence.
    pub fn new(timeout: u64) -> (r: Self)
        ensures
            r.wf(),
            r.table() == Map::<T, u64>::empty(),
            r.timeout_spec() == timeout,
    {
        Detector { timeout, table: Vec::new(), live: Ghost(Map::empty()) }
    }

    pub fn timeout(&self) -> (r: u64)
        ensures
            r == self.timeout_spec(),
    {
        self.timeout
    }

    /// Whether `id` is in the table.
    pub fn is_live(&self, id: &T) -> (r: bool)
        requires
            self.wf(),
        ensures
            r == self.table().contains_key(*id),
    {
        match self.find(id) {
            Some(_) => true,
            None => false,
        }
    }

    fn find(&self, id: &T) -> (r: Option<usize>)
        requires
            self.wf(),
        ensures
            match r {
                Some(i) => i < self.table@.len() && self.table@[i as int].0 == *id,
                None => !self.table().contains_key(*id),
            },
    {
        let mut i: usize = 0;
        while i < self.table.len()
            invariant
                i <= self.table@.len(),
                forall|k: int| 0 <= k < i ==> self.table@[k].0 != *id,
            decreases self.table@.len() - i,
        {
            if self.table[i].0.eq_exec(id) {
                return Some(i);
            }
            i = i + 1;
        }
        None
    }

    /// Removes every peer presumed gone at `now`; returns them, and the
    /// peers that remain, each once and in no particular order.
    #[verifier::rlimit(30)]
    fn evict(&mut self, now: u64) -> (r: (Vec<T>, Vec<T>))
        requires
            old(self).wf(),
        ensures
            final(self).wf(),
            final(self).timeout_spec() == old(self).timeout_spec(),
            final(self).table() == survivors(old(self).table(), now, old(self).timeout_spec()),
            r.0@.no_duplicates(),
            r.0@.to_set() == expired_ids(old(self).table(), now, old(self).timeout_spec()),
            r.1@.no_duplicates(),
            r.1@.to_set() == final(self).table().dom(),
    {
        let ghost m = self.live@;
        let timeout = self.timeout;
        let mut old_tbl: Vec<(T, u64)> = Vec::new();
        std::mem::swap(&mut old_tbl, &mut self.table);
        let mut kept: Vec<(T, u64)> = Vec::new();
        let mut lost: Vec<T> = Vec::new();
        let mut peers: Vec<T> = Vec::new();
        // where each kept or lost entry came from, and where each processed
        // entry went
        let ghost mut src_kept: Seq<int> = Seq::empty();
        let ghost mut src_lost: Seq<int> = Seq::empty();
        let ghost mut dest: Seq<int> = Seq::empty();
        let mut i: usize = 0;
        while i < old_tbl.len()
            invariant
                i <= old_tbl@.len(),
                table_matches(old_tbl@, m),
                kept@.len() == peers@.len() == src_kept.len(),
                lost@.len() == src_lost.len(),
                dest.len() == i,
                forall|j: int|
                    0 <= j < kept@.len() ==> {
                        &&& 0 <= #[trigger] src_kept[j] < i
                        &&& old_tbl@[src_kept[j]] == kept@[j]
                        &&& peers@[j] == kept@[j].0
                        &&& !expired(kept@[j].1, now, timeout)
                    },
                forall|j1: int, j2: int|
                    0 <= j1 < j2 < kept@.len() ==> #[trigger] src_kept[j1] < #[trigger] src_kept[j2],
                forall|j: int|
                    0 <= j < lost@.len() ==> {
                        &&& 0 <= #[trigger] src_lost[j] < i
                        &&& old_tbl@[src_lost[j]].0 == lost@[j]
                        &&& expired(old_tbl@[src_lost[j]].1, now, timeout)
                    },
                forall|j1: int, j2: int|
                    0 <= j1 < j2 < lost@.len() ==> #[trigger] src_lost[j1] < #[trigger] src_lost[j2],
                forall|k: int|
                    0 <= k < i ==> if expired(old_tbl@[k].1, now, timeout) {
                        0 <= #[trigger] dest[k] < src_lost.len() && src_lost[dest[k]] == k
                    } else {
                        0 <= dest[k] < src_kept.len() && src_kept[dest[k]] == k
                    },
            decreases old_tbl@.len() - i,
        {
            let last = old_tbl[i].1;
            let id = old_tbl[i].0.duplicate();
            if now > last && now - last > timeout {
                proof {
                    dest = dest.push(src_lost.len() as int);
                    src_lost = src_lost.push(i as int);
                }
                lost.push(id);
            } else {
                let peer = old_tbl[i].0.duplicate();
                proof {
                    dest = dest.push(src_kept.len() as int);
                    src_kept = src_kept.push(i as int);
                }
                kept.push((id, last));
                peers.push(peer);
            }
            i = i + 1;
        }
        self.table = kept;
        proof {
            let gone = expired_ids(m, now, timeout);
            let m2 = survivors(m, now, timeout);
            self.live = Ghost(m2);
            assert forall|j: int| 0 <= j < kept@.len() implies m2.contains_key(#[trigger] kept@[j].0)
                && m2[kept@[j].0] == kept@[j].1 by {
                assert(old_tbl@[src_kept[j]] == kept@[j]);
            }
            assert forall|key: T| #[trigger] m2.contains_key(key) implies exists|j: int|
                0 <= j < kept@.len() && #[trigger] kept@[j].0 == key by {
                let k = choose|k: int| 0 <= k < old_tbl@.len() && #[trigger] old_tbl@[k].0 == key;
                let j = dest[k];
                assert(src_kept[j] == k);
                assert(kept@[j].0 == key);
            }
            assert forall|j1: int, j2: int| 0 <= j1 < j2 < kept@.len() implies #[trigger] kept@[j1].0
                != #[trigger] kept@[j2].0 by {
                assert(src_kept[j1] < src_kept[j2]);
                assert(old_tbl@[src_kept[j1]].0 != old_tbl@[src_kept[j2]].0);
            }
            assert(self.wf());
            assert forall|key: T| #[trigger] lost@.to_set().contains(key) <==> gone.contains(key) by {
                if lost@.to_set().contains(key) {
                    let j = choose|j: int| 0 <= j < lost@.len() && lost@[j] == key;
                    assert(m.contains_key(old_tbl@[src_lost[j]].0));
                }
                if gone.contains(key) {
                    let k = choose|k: int| 0 <= k < old_tbl@.len() && #[trigger] old_tbl@[k].0 == key;
                    let j = dest[k];
                    assert(src_lost[j] == k);
                    assert(lost@[j] == key);
                }
            }
            assert(lost@.to_set() =~= gone);
            assert forall|j1: int, j2: int|
                0 <= j1 < lost@.len() && 0 <= j2 < lost@.len() && j1 != j2 implies lost@[j1]
                != lost@[j2] by {
                if j1 < j2 {
                    assert(src_lost[j1] < src_lost[j2]);
                } else {
                    assert(src_lost[j2] < src_lost[j1]);
                }
            }
            assert forall|key: T| #[trigger] peers@.to_set().contains(key) <==> m2.contains_key(key) by {
                if peers@.to_set().contains(key) {
                    let j = choose|j: int| 0 <= j < peers@.len() && peers@[j] == key;
                    assert(old_tbl@[src_kept[j]] == kept@[j]);
                    assert(kept@[j].0 == key);
                }
                if m2.contains_key(key) {
                    let j = choose|j: int| 0 <= j < kept@.len() && #[trigger] kept@[j].0 == key;
                    assert(old_tbl@[src_kept[j]] == kept@[j]);
                    assert(peers@[j] == key);
                }
            }
            assert(peers@.to_set() =~= m2.dom());
            assert forall|j1: int, j2: int|
                0 <= j1 < peers@.len() && 0 <= j2 < peers@.len() && j1 != j2 implies peers@[j1]
                != peers@[j2] by {
                assert(old_tbl@[src_kept[j1]] == kept@[j1]);
                assert(old_tbl@[src_kept[j2]] == kept@[j2]);
                if j1 < j2 {
                    assert(kept@[j1].0 != kept@[j2].0);
                } else {
                    assert(kept@[j2].0 != kept@[j1].0);
                }
            }
        }
        (lost, peers)
    }

    /// Records an announcement from `id` heard at `now`, then evicts every
    /// peer presumed gone. Returns an update exactly when `id` was not in the
    /// table or some peer was evicted.
    pub fn receive(&mut self, id: T, now: u64) -> (r: Option<PeerUpdate<T>>)
        requires
            old(self).wf(),
        ensures
            received(*old(self), *final(self), id, now, r),
    {
        let is_new = match self.find(&id) {
            Some(i) => {
                let ghost prev = self.table@;
                let dup = id.duplicate();
                self.table.set(i, (dup, now));
                proof {
                    let m1 = self.live@.insert(id, now);
                    assert forall|k: T| #[trigger] m1.contains_key(k) implies exists|j: int|
                        0 <= j < self.table@.len() && #[trigger] self.table@[j].0 == k by {
                        if k != id {
                            let j = choose|j: int| 0 <= j < prev.len() && #[trigger] prev[j].0 == k;
                            assert(self.table@[j].0 == k);
                        } else {
                            assert(self.table@[i as int].0 == k);
                        }
                    }
                    self.live = Ghost(m1);
                }
                false
            },
            None => {
                let ghost prev = self.table@;
                let dup = id.duplicate();
                self.table.push((dup, now));
                proof {
                    let m1 = self.live@.insert(id, now);
                    assert forall|k: T| #[trigger] m1.contains_key(k) implies exists|j: int|
                        0 <= j < self.table@.len() && #[trigger] self.table@[j].0 == k by {
                        if k != id {
                            let j = choose|j: int| 0 <= j < prev.len() && #[trigger] prev[j].0 == k;
                            assert(self.table@[j].0 == k);
                        } else {
                            assert(self.table@[prev.len() as int].0 == k);
                        }
                    }
                    self.live = Ghost(m1);
                }
                true
            },
        };
        let (lost, peers) = self.evict(now);
        if is_new || lost.len() > 0 {
            proof {
                if lost.len() > 0 {
                    assert(lost@.to_set().contains(lost@[0]));
                }
            }
            let new = if is_new {
                Some(id)
            } else {
                None
            };
            Some(Self::report(new, lost, peers))
        } else {
            proof {
                assert(lost@.to_set() =~= Set::<T>::empty());
            }
            None
        }
    }

    /// Evicts every peer presumed gone at `now`, when no announcement came
    /// in time. Returns an update exactly when some peer was evicted.
    pub fn tick(&mut self, now: u64) -> (r: Option<PeerUpdate<T>>)
        requires
            old(self).wf(),
        ensures
            final(self).wf(),
            final(self).timeout_spec() == old(self).timeout_spec(),
            final(self).table() == survivors(old(self).table(), now, old(self).timeout_spec()),
            r is None <==> expired_ids(old(self).table(), now, old(self).timeout_spec()).is_empty(),
            match r {
                None => true,
                Some(u) => reports(
                    u,
                    None,
                    final(self).table().dom(),
                    expired_ids(old(self).table(), now, old(self).timeout_spec()),
                ),
            },
    {
        let (lost, peers) = self.evict(now);
        if lost.len() > 0 {
            proof {
                assert(lost@.to_set().contains(lost@[0]));
            }
            Some(Self::report(None, lost, peers))
        } else {
            proof {
                assert(lost@.to_set() =~= Set::<T>::empty());
            }
            None
        }
    }

    fn report(new: Option<T>, lost: Vec<T>, peers: Vec<T>) -> (u: PeerUpdate<T>)
        requires
            lost@.no_duplicates(),
            peers@.no_duplicates(),
        ensures
            reports(u, new, peers@.to_set(), lost@.to_set()),
    {
        let mut u = PeerUpdate::new();
        let mut i: usize = 0;
        while i < peers.len()
            invariant
                i <= peers@.len(),
                u.peers_seq() == peers@.subrange(0, i as int),
                u.lost_seq() == Seq::<T>::empty(),
                u.new_id() == None::<T>,
            decreases peers@.len() - i,
        {
            u.add_peers(peers[i].duplicate());
            i = i + 1;
            proof {
                assert(u.peers_seq() =~= peers@.subrange(0, i as int));
            }
        }
        i = 0;
        while i < lost.len()
            invariant
                i <= lost@.len(),
                u.peers_seq() == peers@,
                u.lost_seq() == lost@.subrange(0, i as int),
                u.new_id() == None::<T>,
            decreases lost@.len() - i,
        {
            u.add_lost(lost[i].duplicate());
            i = i + 1;
            proof {
                assert(u.lost_seq() =~= lost@.subrange(0, i as int));
            }
        }
        assert(u.lost_seq() =~= lost@);
        match new {
            Some(id) => u.set_new(id),
            None => {},
        }
        u.sort();
        proof {
            lemma_sorted_distinct(u.peers_seq(), peers@);
            lemma_sorted_distinct(u.lost_seq(), lost@);
        }
        u
    }
}

impl Detector<u64> {
    /// Handles one datagram heard at `now`: an announcement is received as
    /// by `receive`; anything that does not decode leaves the detector as
    /// it was and reports nothing.
    pub fn receive_datagram(&mut self, datagram: &[u8], now: u64) -> (r: Option<PeerUpdate<u64>>)
        requires
            old(self).wf(),
        ensures
            match json_u64(datagram@) {
                Some(id) => received(*old(self), *final(self), id, now, r),
                None => r is None && *final(self) == *old(self),
            },
    {
        match decode_id(datagram) {
            Some(id) => self.receive(id, now),
            None => None,
        }
    }
}

/// Table `m` after `id` announced at each of `times` in turn.
pub open spec fn after_announcements<T>(m: Map<T, u64>, id: T, times: Seq<u64>, timeout: u64) -> Map<T, u64>
    decreases times.len(),
{
    if times.len() == 0 {
        m
    } else {
        let pre = after_announcements(m, id, times.drop_last(), timeout);
        survivors(pre.insert(id, times.last()), times.last(), timeout)
    }
}

/// While the table knows only `id`, no run of announcements from `id`
/// causes an update, whenever they come: before each one `id` is known, and
/// since it is refreshed before the eviction scan nothing expires.
pub proof fn lemma_no_spurious_updates<T: PeerId>(m: Map<T, u64>, id: T, times: Seq<u64>, timeout: u64)
    requires
        m.dom() == set![id],
    ensures
        forall|i: int|
            0 <= i < times.len() ==> {
                let pre = #[trigger] after_announcements(m, id, times.take(i), timeout);
                &&& pre.contains_key(id)
                &&& expired_ids(pre.insert(id, times[i]), times[i], timeout).is_empty()
            },
{
    assert forall|i: int| 0 <= i < times.len() implies {
        let pre = #[trigger] after_announcements(m, id, times.take(i), timeout);
        &&& pre.contains_key(id)
        &&& expired_ids(pre.insert(id, times[i]), times[i], timeout).is_empty()
    } by {
        lemma_only_id_stays(m, id, times.take(i), timeout);
        let pre = after_announcements(m, id, times.take(i), timeout);
        assert(pre.dom().contains(id));
        assert(expired_ids(pre.insert(id, times[i]), times[i], timeout) =~= Set::<T>::empty());
    }
}

proof fn lemma_only_id_stays<T>(m: Map<T, u64>, id: T, times: Seq<u64>, timeout: u64)
    requires
        m.dom() == set![id],
    ensures
        after_announcements(m, id, times, timeout).dom() == set![id],
    decreases times.len(),
{
    if times.len() > 0 {
        lemma_only_id_stays(m, id, times.drop_last(), timeout);
        let pre = after_announcements(m, id, times.drop_last(), timeout);
        let now = times.last();
        assert(expired_ids(pre.insert(id, now), now, timeout) =~= Set::<T>::empty());
        assert(survivors(pre.insert(id, now), now, timeout).dom() =~= set![id]);
    }
}

/// An announcement from `id` to a detector with an empty table reports `id`
/// as new, `[id]` as the peers and nothing lost.
pub proof fn lemma_new_peer_detection<T: PeerId>(id: T, now: u64, timeout: u64, u: PeerUpdate<T>)
    requires
        ({
            let m1 = Map::<T, u64>::empty().insert(id, now);
            reports(u, Some(id), survivors(m1, now, timeout).dom(), expired_ids(m1, now, timeout))
        }),
    ensures
        ({
            let m1 = Map::<T, u64>::empty().insert(id, now);
            expired_ids(m1, now, timeout).is_empty() && survivors(m1, now, timeout) == m1
        }),
        u.new_id() == Some(id),
        u.peers_seq() == seq![id],
        u.lost_seq() == Seq::<T>::empty(),
{
    let m1 = Map::<T, u64>::empty().insert(id, now);
    assert(expired_ids(m1, now, timeout) =~= Set::<T>::empty());
    assert(survivors(m1, now, timeout) =~= m1);
    lemma_singleton_report(id, u.peers_seq());
    lemma_empty_report(u.lost_seq());
}

/// A detector that knows only `id`, last heard at `last`, evicts it at the
/// first tick `now` past the timeout: the update reports `[id]` lost, no new
/// peer and no peers left.
pub proof fn lemma_timeout_eviction<T: PeerId>(id: T, last: u64, now: u64, timeout: u64, u: PeerUpdate<T>)
    requires
        expired(last, now, timeout),
        ({
            let m = map![id => last];
            reports(u, None, survivors(m, now, timeout).dom(), expired_ids(m, now, timeout))
        }),
    ensures
        expired_ids(map![id => last], now, timeout) == set![id],
        survivors(map![id => last], now, timeout).is_empty(),
        u.new_id() == None::<T>,
        u.lost_seq() == seq![id],
        u.peers_seq() == Seq::<T>::empty(),
{
    let m = map![id => last];
    assert(expired_ids(m, now, timeout) =~= set![id]);
    assert(survivors(m, now, timeout).dom() =~= Set::<T>::empty());
    lemma_singleton_report(id, u.lost_seq());
    lemma_empty_report(u.peers_seq());
}

/// A peer evicted at `now` has left the table, so its next announcement,
/// at any later time, is reported as new again.
pub proof fn lemma_rediscovery<T: PeerId>(m: Map<T, u64>, id: T, now: u64, later: u64, timeout: u64)
    requires
        m.contains_key(id),
        expired(m[id], now, timeout),
    ensures
        expired_ids(m, now, timeout).contains(id),
        !survivors(m, now, timeout).contains_key(id),
        survivors(survivors(m, now, timeout).insert(id, later), later, timeout).contains_key(id),
{
}

/// A strictly ascending sequence that holds just `id` is `[id]`.
proof fn lemma_singleton_report<T: PeerId>(id: T, s: Seq<T>)
    requires
        sorted_strict(s),
        s.to_set() == set![id],
    ensures
        s == seq![id],
{
    let t = seq![id];
    assert(t.to_set() =~= set![id]) by {
        assert(t[0] == id);
        assert(t.to_set().contains(id));
    }
    lemma_sorted_unique(s, t);
}

/// A sequence that holds nothing is empty.
proof fn lemma_empty_report<T>(s: Seq<T>)
    requires
        s.to_set() == Set::<T>::empty(),
    ensures
        s == Seq::<T>::empty(),
{
    if s.len() > 0 {
        assert(s.to_set().contains(s[0]));
    }
    assert(s =~= Seq::<T>::empty());
}

} // verus!
