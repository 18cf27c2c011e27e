//! The routing table: up to 64 buckets of known peers, bucket `i`
//! holding the peers whose XOR distance to the local identity lies in
//! `[2^i, 2^(i+1))`. Each bucket holds at most `k` entries (the
//! replication factor); a full bucket evicts its oldest-seen entry when
//! a new peer arrives. The local identity is never a member of its own
//! table, and no peer appears twice.

use vstd::prelude::*;
use crate::id::{Address, PeerId, bucket_index, bucket_index_of, dist, min_int};

verus! {

/// One known peer: its identity, every address it has been seen at, and
/// a stamp saying when it was first observed (larger = seen later).
pub struct PeerEntry {
    pub peer: PeerId,
    pub addrs: Vec<Address>,
    pub order: u64,
}

/// Buckets of known peers ordered by XOR distance from the local
/// identity.
pub struct RoutingTable {
    pub local: PeerId,
    /// Bucket capacity; also the replication factor `k`.
    pub k: usize,
    pub buckets: Vec<Vec<PeerEntry>>,
    /// Stamp handed to the next newly observed peer.
    pub next_order: u64,
}

/// Number of buckets: one per possible position of a distance's highest
/// set bit.
pub const NUM_BUCKETS: usize = 64;

impl RoutingTable {
    /// Valid position in the table.
    pub open spec fn entry_at(self, i: int, j: int) -> bool {
        &&& 0 <= i < self.buckets@.len()
        &&& 0 <= j < self.buckets@[i]@.len()
    }

    /// Some bucket holds `p`.
    pub open spec fn contains_peer(self, p: PeerId) -> bool {
        exists|i: int, j: int| self.entry_at(i, j) && self.buckets@[i]@[j].peer == p
    }

    /// Number of peers in buckets `0 .. i`.
    pub open spec fn count_up_to(self, i: int) -> nat
        decreases i,
    {
        if i <= 0 {
            0
        } else {
            self.count_up_to(i - 1) + self.buckets@[i - 1]@.len()
        }
    }

    /// Number of peers known altogether.
    pub open spec fn total(self) -> nat {
        self.count_up_to(self.buckets@.len() as int)
    }

    /// Well-formedness: 64 buckets, each bounded by `k`; every entry sits
    /// in the bucket its distance to the local identity selects; no
    /// duplicate peers in a bucket; observation stamps grow with bucket
    /// position and stay below `next_order`.
    pub open spec fn wf(self) -> bool {
        &&& self.buckets@.len() == NUM_BUCKETS
        &&& self.k >= 1
        &&& forall|i: int| 0 <= i < NUM_BUCKETS ==> #[trigger] self.buckets@[i]@.len() <= self.k
        &&& forall|i: int, j: int|
            self.entry_at(i, j) ==> #[trigger] self.buckets@[i]@[j].peer != self.local
        &&& forall|i: int, j: int|
            self.entry_at(i, j) ==> bucket_index_of(
                dist(self.local.id, #[trigger] self.buckets@[i]@[j].peer.id) as nat,
            ) == i
        &&& forall|i: int, j1: int, j2: int|
            self.entry_at(i, j1) && self.entry_at(i, j2) && j1 != j2
                ==> (#[trigger] self.buckets@[i]@[j1]).peer != (#[trigger] self.buckets@[i]@[j2]).peer
        &&& forall|i: int, j1: int, j2: int|
            self.entry_at(i, j1) && self.entry_at(i, j2) && j1 < j2
                ==> (#[trigger] self.buckets@[i]@[j1]).order < (#[trigger] self.buckets@[i]@[j2]).order
        &&& forall|i: int, j: int|
            self.entry_at(i, j) ==> (#[trigger] self.buckets@[i]@[j]).order < self.next_order
    }

    /// A peer appears in at most one place, and that place is the bucket
    /// its XOR distance to the local identity determines.
    pub proof fn lemma_peer_in_unique_bucket(self, i1: int, j1: int, i2: int, j2: int)
        requires
            self.wf(),
            self.entry_at(i1, j1),
            self.entry_at(i2, j2),
            self.buckets@[i1]@[j1].peer == self.buckets@[i2]@[j2].peer,
        ensures
            i1 == i2,
            j1 == j2,
            i1 == bucket_index_of(dist(self.local.id, self.buckets@[i1]@[j1].peer.id) as nat),
    {
        assert(bucket_index_of(dist(self.local.id, self.buckets@[i1]@[j1].peer.id) as nat) == i1);
        assert(bucket_index_of(dist(self.local.id, self.buckets@[i2]@[j2].peer.id) as nat) == i2);
        if j1 != j2 {
            assert(self.buckets@[i1]@[j1].peer != self.buckets@[i1]@[j2].peer);
        }
    }

    /// No bucket ever holds more than `k` peers.
    pub proof fn lemma_occupancy_bounded(self, i: int)
        requires
            self.wf(),
            0 <= i < self.buckets@.len(),
        ensures
            self.buckets@[i]@.len() <= self.k,
    {
    }

    /// An empty table knows no peers, and conversely.
    pub proof fn lemma_count_zero_iff_empty(self, i: int)
        requires
            0 <= i <= self.buckets@.len(),
        ensures
            self.count_up_to(i) == 0 <==> forall|b: int| 0 <= b < i ==> #[trigger] self.buckets@[b]@.len() == 0,
        decreases i,
    {
        if i > 0 {
            self.lemma_count_zero_iff_empty(i - 1);
        }
    }

    /// Builds an empty table around the local identity with bucket
    /// capacity (replication factor) `k`.
    pub fn new(local: PeerId, k: usize) -> (t: RoutingTable)
        requires
            k >= 1,
        ensures
            t.wf(),
            t.local == local,
            t.k == k,
            t.next_order == 0,
            t.total() == 0,
            forall|i: int| 0 <= i < NUM_BUCKETS ==> #[trigger] t.buckets@[i]@.len() == 0,
    {
        let mut buckets: Vec<Vec<PeerEntry>> = Vec::new();
        let mut i: usize = 0;
        while i < NUM_BUCKETS
            invariant
                i <= NUM_BUCKETS,
                buckets@.len() == i,
                forall|b: int| 0 <= b < i ==> #[trigger] buckets@[b]@.len() == 0,
            decreases NUM_BUCKETS - i,
        {
            buckets.push(Vec::new());
            i = i + 1;
        }
        let t = RoutingTable { local, k, buckets, next_order: 0 };
        proof {
            t.lemma_count_zero_iff_empty(NUM_BUCKETS as int);
        }
        t
    }

    /// What `record_observation` leaves behind when `peer` differs from
    /// the local identity. Writing `b` for the bucket the peer's
    /// distance selects: a peer already present keeps its place and
    /// stamp and only unions the new address in; a new peer is appended
    /// to `b`, after evicting exactly the oldest-seen entry if `b` was
    /// full.
    pub open spec fn observe_post(pre: Self, post: Self, peer: PeerId, addr: Address) -> bool {
        let b = bucket_index_of(dist(pre.local.id, peer.id) as nat) as int;
        let obkt = pre.buckets@[b]@;
        let nbkt = post.buckets@[b]@;
        &&& post.local == pre.local
        &&& post.k == pre.k
        &&& post.buckets@.len() == pre.buckets@.len()
        &&& forall|i: int|
            0 <= i < pre.buckets@.len() && i != b ==> post.buckets@[i]@ == #[trigger] pre.buckets@[i]@
        &&& post.contains_peer(peer)
        &&& if exists|j: int| 0 <= j < obkt.len() && #[trigger] obkt[j].peer == peer {
            // refresh: same shape, only the matching entry's address list may grow
            &&& nbkt.len() == obkt.len()
            &&& forall|j: int|
                0 <= j < obkt.len() && (#[trigger] obkt[j]).peer != peer ==> nbkt[j] == obkt[j]
            &&& forall|j: int|
                0 <= j < obkt.len() && (#[trigger] obkt[j]).peer == peer ==> {
                    &&& nbkt[j].peer == peer
                    &&& nbkt[j].order == obkt[j].order
                    &&& nbkt[j].addrs@ == if obkt[j].addrs@.contains(addr) {
                        obkt[j].addrs@
                    } else {
                        obkt[j].addrs@.push(addr)
                    }
                }
            &&& post.next_order == pre.next_order
        } else {
            let entry = nbkt.last();
            &&& entry.peer == peer
            &&& entry.order == pre.next_order
            &&& entry.addrs@ =~= seq![addr]
            &&& if obkt.len() < pre.k {
                nbkt =~= obkt.push(entry)
            } else {
                nbkt =~= obkt.drop_first().push(entry)
            }
            &&& post.next_order == pre.next_order + 1
        }
    }

    /// Inserts or refreshes `peer` in the bucket its XOR distance to the
    /// local identity determines; an observation of the local identity
    /// itself is a no-op.
    pub fn record_observation(&mut self, peer: PeerId, addr: Address)
        requires
            old(self).wf(),
            old(self).next_order < u64::MAX,
        ensures
            final(self).wf(),
            peer == old(self).local ==> *final(self) == *old(self),
            peer != old(self).local ==> Self::observe_post(*old(self), *final(self), peer, addr),
    {
        if peer.id == self.local.id {
            return ;
        }
        let a = self.local.id;
        let p = peer.id;
        proof {
            assert(a ^ p != 0) by (bit_vector)
                requires a != p;
        }
        let d = a ^ p;
        let b = bucket_index(d);
        let found = find_peer(&self.buckets[b], peer);
        match found {
            None => {
                let ord = self.next_order;
                self.next_order = ord + 1;
                let cap = self.k;
                let ghost pre_buckets = self.buckets@;
                let bkt = bucket_mut(&mut self.buckets, b);
                if bkt.len() == cap {
                    bkt.remove(0);
                }
                let mut av: Vec<Address> = Vec::new();
                av.push(addr);
                bkt.push(PeerEntry { peer, addrs: av, order: ord });
                proof {
                    assert(self.buckets@[b as int]@.last().addrs@ =~= seq![addr]);
                    assert(self.contains_peer(peer)) by {
                        let j = self.buckets@[b as int]@.len() - 1;
                        assert(self.entry_at(b as int, j));
                        assert(self.buckets@[b as int]@[j].peer == peer);
                    }
                }
            },
            Some(j) => {
                let bkt = bucket_mut(&mut self.buckets, b);
                let e = entry_mut(bkt, j);
                let present = contains_addr(&e.addrs, addr);
                if !present {
                    e.addrs.push(addr);
                }
                proof {
                    assert(self.contains_peer(peer)) by {
                        assert(self.entry_at(b as int, j as int));
                        assert(self.buckets@[b as int]@[j as int].peer == peer);
                    }
                }
            },
        }
    }
}

/// Borrows bucket `i` of the table mutably.
fn bucket_mut(v: &mut Vec<Vec<PeerEntry>>, i: usize) -> (r: &mut Vec<PeerEntry>)
    requires
        i < old(v).len(),
    ensures
        *r == old(v)@[i as int],
        final(v)@ == old(v)@.update(i as int, *final(r)),
{
    &mut v[i]
}

/// Borrows entry `j` of a bucket mutably.
fn entry_mut(v: &mut Vec<PeerEntry>, j: usize) -> (r: &mut PeerEntry)
    requires
        j < old(v).len(),
    ensures
        *r == old(v)@[j as int],
        final(v)@ == old(v)@.update(j as int, *final(r)),
{
    &mut v[j]
}

/// Position of `peer` in a bucket, if it is there.
fn find_peer(bkt: &Vec<PeerEntry>, peer: PeerId) -> (r: Option<usize>)
    ensures
        match r {
            Some(j) => j < bkt@.len() && bkt@[j as int].peer == peer,
            None => forall|j: int| 0 <= j < bkt@.len() ==> (#[trigger] bkt@[j]).peer != peer,
        },
{
    let mut j: usize = 0;
    while j < bkt.len()
        invariant
            j <= bkt@.len(),
            forall|m: int| 0 <= m < j ==> (#[trigger] bkt@[m]).peer != peer,
        decreases bkt@.len() - j,
    {
        if bkt[j].peer.id == peer.id {
            return Some(j);
        }
        j = j + 1;
    }
    None
}

/// Whether an address list already holds `a`.
fn contains_addr(addrs: &Vec<Address>, a: Address) -> (r: bool)
    ensures
        r == addrs@.contains(a),
{
    let mut j: usize = 0;
    while j < addrs.len()
        invariant
            j <= addrs@.len(),
            forall|m: int| 0 <= m < j ==> addrs@[m] != a,
        decreases addrs@.len() - j,
    {
        if addrs[j].host == a.host && addrs[j].port == a.port {
            return true;
        }
        j = j + 1;
    }
    false
}

} // verus!
