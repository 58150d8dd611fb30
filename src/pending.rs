use std::collections::HashMap;
use std::hash::Hash;
use vstd::prelude::*;
use vstd::std_specs::hash::obeys_key_model;

verus! {

broadcast use vstd::std_specs::hash::group_hash_axioms;

/// The network address of a peer: an IP address and a port.
#[derive(Clone, Copy, Debug, PartialEq, Eq, Hash, Structural)]
#[allow(inconsistent_fields)]
pub enum PeerAddr {
    /// An IPv4 address, most significant octet first, and a port.
    V4 { ip: u32, port: u16 },
    /// An IPv6 address, most significant octet first, a port, and the flow
    /// and scope identifiers.
    V6 { ip: u128, port: u16, flowinfo: u32, scope_id: u32 },
}

/// The abstract tracker: item -> set of peers known to hold it.
pub open spec fn peers_of<T>(m: Map<T, Vec<PeerAddr>>) -> Map<T, Set<PeerAddr>> {
    Map::new(|k: T| m.contains_key(k), |k: T| m[k]@.to_set())
}

/// The tracker after recording that `peer` holds `item`.
pub open spec fn tracker_after_insert<T>(m: Map<T, Set<PeerAddr>>, item: T, peer: PeerAddr) -> Map<
    T,
    Set<PeerAddr>,
> {
    if m.contains_key(item) {
        m.insert(item, m[item].insert(peer))
    } else {
        m.insert(item, set![peer])
    }
}

/// Scans a list of peers for `peer`.
fn holds_peer(peers: &Vec<PeerAddr>, peer: PeerAddr) -> (b: bool)
    ensures
        b == peers@.contains(peer),
{
    let mut i: usize = 0;
    while i < peers.len()
        invariant
            i <= peers.len(),
            forall|j: int| 0 <= j < i ==> peers@[j] != peer,
        decreases peers.len() - i,
    {
        if peers[i] == peer {
            return true;
        }
        i = i + 1;
    }
    false
}

/// Copies a list of peers.
fn copy_peers(peers: &Vec<PeerAddr>) -> (r: Vec<PeerAddr>)
    ensures
        r@ == peers@,
{
    let mut r: Vec<PeerAddr> = Vec::new();
    let mut i: usize = 0;
    while i < peers.len()
        invariant
            i <= peers.len(),
            r@ == peers@.subrange(0, i as int),
        decreases peers.len() - i,
    {
        r.push(peers[i]);
        i = i + 1;
    }
    assert(r@ =~= peers@);
    r
}

/// For each pending item, the peers known to hold it.
///
/// The identifier type must hash and compare consistently
/// (`obeys_key_model`), which the operations that look items up require.
#[derive(Debug)]
pub struct Pending<T: Eq + Hash> {
    /// The map of pending items to the peers that have them; no list is
    /// empty or holds a peer twice.
    pending: HashMap<T, Vec<PeerAddr>>,
}

impl<T: Eq + Hash> Pending<T> {
    /// The tracked items and their peers.
    pub closed spec fn spec_map(&self) -> Map<T, Set<PeerAddr>> {
        peers_of(self.pending@)
    }

    /// Well-formedness: every tracked item has at least one peer, each
    /// listed once.
    pub closed spec fn wf(&self) -> bool {
        forall|k: T| #[trigger]
            self.pending@.contains_key(k) ==> self.pending@[k]@.len() > 0
                && self.pending@[k]@.no_duplicates()
    }

    /// Initializes a new, empty tracker.
    pub fn new() -> (p: Self)
        ensures
            p.wf(),
            p.spec_map() == Map::<T, Set<PeerAddr>>::empty(),
    {
        let p = Pending { pending: HashMap::new() };
        assert(p.spec_map() =~= Map::<T, Set<PeerAddr>>::empty());
        p
    }

    /// Returns `true` if no item is tracked.
    pub fn is_empty(&self) -> (b: bool)
        ensures
            b == self.spec_map().dom().is_empty(),
    {
        proof {
            assert(self.spec_map().dom() =~= self.pending@.dom());
        }
        self.pending.is_empty()
    }

    /// Returns the number of tracked items.
    pub fn len(&self) -> (n: usize)
        requires
            obeys_key_model::<T>(),
        ensures
            n == self.spec_map().len(),
    {
        proof {
            assert(self.spec_map().dom() =~= self.pending@.dom());
        }
        self.pending.len()
    }

    /// Returns `true` if the item is tracked, that is, some peer is known to
    /// hold it.
    pub fn contains(&self, item: T) -> (b: bool)
        requires
            obeys_key_model::<T>(),
        ensures
            b == self.spec_map().contains_key(item),
    {
        self.pending.contains_key(&item)
    }

    /// Returns `true` if `peer_ip` is known to hold the item.
    pub fn contains_peer(&self, item: T, peer_ip: PeerAddr) -> (b: bool)
        requires
            obeys_key_model::<T>(),
        ensures
            b == (self.spec_map().contains_key(item) && self.spec_map()[item].contains(peer_ip)),
    {
        match self.pending.get(&item) {
            Some(peers) => holds_peer(peers, peer_ip),
            None => false,
        }
    }

    /// Returns the peers known to hold the item, each once, or `None` if the
    /// item is not tracked.
    pub fn get(&self, item: T) -> (r: Option<Vec<PeerAddr>>)
        requires
            self.wf(),
            obeys_key_model::<T>(),
        ensures
            r is Some <==> self.spec_map().contains_key(item),
            r matches Some(v) ==> v@.to_set() == self.spec_map()[item] && v@.no_duplicates(),
    {
        match self.pending.get(&item) {
            Some(peers) => Some(copy_peers(peers)),
            None => None,
        }
    }

    /// Records that `peer_ip` holds the item, tracking the item if it was
    /// not. Recording a pair that is already known changes nothing.
    pub fn insert(&mut self, item: T, peer_ip: PeerAddr)
        requires
            old(self).wf(),
            obeys_key_model::<T>(),
        ensures
            final(self).wf(),
            final(self).spec_map() == tracker_after_insert(old(self).spec_map(), item, peer_ip),
    {
        match self.pending.remove(&item) {
            Some(mut peers) => {
                let ghost before = peers@;
                if !holds_peer(&peers, peer_ip) {
                    peers.push(peer_ip);
                    proof {
                        before.lemma_push_to_set_commute(peer_ip);
                    }
                } else {
                    assert(before.to_set() =~= before.to_set().insert(peer_ip));
                }
                self.pending.insert(item, peers);
            },
            None => {
                let mut peers: Vec<PeerAddr> = Vec::new();
                peers.push(peer_ip);
                proof {
                    Seq::<PeerAddr>::empty().lemma_push_to_set_commute(peer_ip);
                    assert(peers@ =~= Seq::<PeerAddr>::empty().push(peer_ip));
                    assert(Seq::<PeerAddr>::empty().to_set() =~= Set::<PeerAddr>::empty());
                }
                self.pending.insert(item, peers);
            },
        }
        proof {
            let m = old(self).spec_map();
            let n = self.pending@[item]@;
            if !m.contains_key(item) {
                assert(set![peer_ip] =~= Set::<PeerAddr>::empty().insert(peer_ip));
            }
            assert(self.spec_map() =~= tracker_after_insert(old(self).spec_map(), item, peer_ip));
        }
    }

    /// Stops tracking the item and all its peers. Returns `true` if it was
    /// tracked.
    pub fn remove(&mut self, item: T) -> (b: bool)
        requires
            old(self).wf(),
            obeys_key_model::<T>(),
        ensures
            final(self).wf(),
            b == old(self).spec_map().contains_key(item),
            final(self).spec_map() == old(self).spec_map().remove(item),
    {
        let removed = self.pending.remove(&item).is_some();
        assert(self.spec_map() =~= old(self).spec_map().remove(item));
        removed
    }
}

impl<T: Eq + Hash> Default for Pending<T> {
    /// Initializes a new, empty tracker.
    fn default() -> (p: Self)
        ensures
            p.wf(),
            p.spec_map() == Map::<T, Set<PeerAddr>>::empty(),
    {
        Self::new()
    }
}

/// The tracker after recording, one after another, that each of `peers`
/// holds `item`.
pub open spec fn tracker_after_inserts<T>(m: Map<T, Set<PeerAddr>>, item: T, peers: Seq<PeerAddr>) -> Map<
    T,
    Set<PeerAddr>,
>
    decreases peers.len(),
{
    if peers.len() == 0 {
        m
    } else {
        tracker_after_insert(tracker_after_inserts(m, item, peers.drop_last()), item, peers.last())
    }
}

/// Recording two peers for an item leaves the item with both peers added to
/// what it had; for an item not tracked before, with exactly the two.
pub proof fn lemma_insert_two_peers<T>(m: Map<T, Set<PeerAddr>>, item: T, p1: PeerAddr, p2: PeerAddr)
    ensures
        ({
            let n = tracker_after_insert(tracker_after_insert(m, item, p1), item, p2);
            let prev = if m.contains_key(item) {
                m[item]
            } else {
                Set::empty()
            };
            &&& n.contains_key(item)
            &&& n[item] == prev.insert(p1).insert(p2)
            &&& !m.contains_key(item) ==> n[item] == set![p1, p2]
        }),
{
    if !m.contains_key(item) {
        assert(set![p1] =~= Set::<PeerAddr>::empty().insert(p1));
        assert(set![p1, p2] =~= Set::<PeerAddr>::empty().insert(p1).insert(p2));
    }
}

/// Removing a tracked item reports success once: the item is then no longer
/// tracked, so a second removal reports failure.
pub proof fn lemma_remove_once<T>(m: Map<T, Set<PeerAddr>>, item: T)
    ensures
        !m.remove(item).contains_key(item),
        m.remove(item).remove(item) == m.remove(item),
{
    assert(m.remove(item).remove(item) =~= m.remove(item));
}

/// Recording distinct peers for an item that was not tracked, one after
/// another, loses none of them: the item ends with exactly those peers, as
/// many as were recorded.
pub proof fn lemma_inserts_keep_all_peers<T>(m: Map<T, Set<PeerAddr>>, item: T, peers: Seq<PeerAddr>)
    requires
        !m.contains_key(item),
        peers.len() > 0,
        peers.no_duplicates(),
    ensures
        tracker_after_inserts(m, item, peers).contains_key(item),
        tracker_after_inserts(m, item, peers)[item] == peers.to_set(),
        tracker_after_inserts(m, item, peers)[item].len() == peers.len(),
    decreases peers.len(),
{
    let init = peers.drop_last();
    let last = peers.last();
    assert(peers =~= init.push(last));
    init.lemma_push_to_set_commute(last);
    let before = tracker_after_inserts(m, item, init);
    assert(tracker_after_inserts(m, item, peers) == tracker_after_insert(before, item, last));
    if init.len() == 0 {
        assert(before == m);
        assert(init.to_set() =~= Set::<PeerAddr>::empty());
        assert(set![last] =~= Set::<PeerAddr>::empty().insert(last));
    } else {
        assert(init.no_duplicates()) by {
            assert forall|a: int, b: int| 0 <= a < b < init.len() implies init[a] != init[b] by {
                assert(peers[a] == init[a] && peers[b] == init[b]);
            }
        }
        lemma_inserts_keep_all_peers(m, item, init);
    }
    assert(init.push(last).to_set() == init.to_set().insert(last));
    assert(tracker_after_inserts(m, item, peers)[item] == init.to_set().insert(last));
    peers.unique_seq_to_set();
}

} // verus!
