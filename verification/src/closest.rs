//! Selection of the peers closest to a target point in the identifier
//! space: every known peer is ranked by XOR distance to the target,
//! ties going to the earlier-seen peer, and the lowest-ranked `count`
//! are returned in ascending order.

use vstd::prelude::*;
use crate::id::{PeerId, dist, min_int};
use crate::routing::{PeerEntry, RoutingTable};

verus! {

/// A ranked peer: its identity, its XOR distance to the target, and its
/// observation stamp (the tie-breaker; smaller = seen earlier).
#[derive(Clone, Copy)]
pub struct Cand {
    pub peer: PeerId,
    pub d: u64,
    pub ord: u64,
}

/// Ranking order: by distance, then by observation stamp.
pub open spec fn cand_le(a: Cand, b: Cand) -> bool {
    a.d < b.d || (a.d == b.d && a.ord <= b.ord)
}

/// The candidate a table entry contributes for a given target.
pub open spec fn cand_of(e: PeerEntry, target: u64) -> Cand {
    Cand { peer: e.peer, d: dist(e.peer.id, target), ord: e.order }
}

/// Non-decreasing under the ranking order.
pub open spec fn cands_sorted(s: Seq<Cand>) -> bool {
    forall|a: int, b: int| 0 <= a < b < s.len() ==> cand_le(s[a], s[b])
}

fn cand_le_exec(a: Cand, b: Cand) -> (r: bool)
    ensures
        r == cand_le(a, b),
{
    a.d < b.d || (a.d == b.d && a.ord <= b.ord)
}

/// Inserting an element anywhere adds exactly it to the sequence's
/// multiset.
proof fn lemma_insert_to_multiset(s: Seq<Cand>, p: int, c: Cand)
    requires
        0 <= p <= s.len(),
    ensures
        s.insert(p, c).to_multiset() =~= s.to_multiset().insert(c),
{
    broadcast use vstd::seq_lib::group_to_multiset_ensures;

    let t = s.insert(p, c);
    assert(t.remove(p) =~= s);
    assert(t[p] == c);
    assert(t.remove(p).to_multiset() =~= t.to_multiset().remove(c));
    assert(t.contains(c));
    assert(t.to_multiset().count(c) > 0);
    assert forall|x: Cand| t.to_multiset().count(x) == s.to_multiset().insert(c).count(x) by {
        assert(s.to_multiset() =~= t.to_multiset().remove(c));
    }
}

/// Two positions holding the same value push its multiset count to two.
proof fn lemma_dup_count(s: Seq<Cand>, a: int, b: int)
    requires
        0 <= a < b < s.len(),
        s[a] == s[b],
    ensures
        s.to_multiset().count(s[a]) >= 2,
{
    broadcast use vstd::seq_lib::group_to_multiset_ensures;

    let r = s.remove(a);
    assert(r[b - 1] == s[b]);
    assert(r.contains(s[b]));
    assert(r.to_multiset() =~= s.to_multiset().remove(s[a]));
    assert(r.to_multiset().count(s[b]) > 0);
}

/// Inserts `c` into a ranked vector, after any equally ranked elements.
fn sorted_insert(out: &mut Vec<Cand>, c: Cand)
    requires
        cands_sorted(old(out)@),
    ensures
        cands_sorted(final(out)@),
        final(out)@.to_multiset() =~= old(out)@.to_multiset().insert(c),
        final(out)@.len() == old(out)@.len() + 1,
{
    let mut p: usize = 0;
    while p < out.len() && cand_le_exec(out[p], c)
        invariant
            p <= out@.len(),
            forall|m: int| 0 <= m < p ==> cand_le(out@[m], c),
        decreases out@.len() - p,
    {
        p = p + 1;
    }
    proof {
        lemma_insert_to_multiset(out@, p as int, c);
    }
    let ghost pre = out@;
    out.insert(p, c);
    proof {
        let t = out@;
        assert(forall|i: int| 0 <= i < p ==> t[i] == pre[i]);
        assert(t[p as int] == c);
        assert(forall|i: int| p < i < t.len() ==> t[i] == pre[i - 1]);
        assert forall|a: int, b: int| 0 <= a < b < t.len() implies cand_le(t[a], t[b]) by {
            if b < p as int {
                assert(cand_le(pre[a], pre[b]));
            } else if b == p as int {
                assert(cand_le(pre[a], c));
            } else if a < p as int {
                if a < b - 1 {
                    assert(cand_le(pre[a], pre[b - 1]));
                }
            } else if a == p as int {
                assert(!cand_le(pre[p as int], c));
                if (p as int) < b - 1 {
                    assert(cand_le(pre[p as int], pre[b - 1]));
                }
            } else {
                assert(cand_le(pre[a - 1], pre[b - 1]));
            }
        }
    }
}

/// Ranks a set of candidates: same multiset, ascending order.
fn sort_cands(cs: &Vec<Cand>) -> (out: Vec<Cand>)
    ensures
        cands_sorted(out@),
        out@.to_multiset() =~= cs@.to_multiset(),
        out@.len() == cs@.len(),
{
    broadcast use vstd::seq_lib::group_to_multiset_ensures;

    let mut out: Vec<Cand> = Vec::new();
    let mut i: usize = 0;
    while i < cs.len()
        invariant
            i <= cs@.len(),
            out@.len() == i,
            cands_sorted(out@),
            out@.to_multiset() =~= cs@.take(i as int).to_multiset(),
        decreases cs@.len() - i,
    {
        let c = cs[i];
        sorted_insert(&mut out, c);
        proof {
            assert(cs@.take(i + 1 as int) =~= cs@.take(i as int).push(c));
            vstd::seq_lib::to_multiset_build::<Cand>(cs@.take(i as int), c);
        }
        i = i + 1;
    }
    proof {
        assert(cs@.take(cs@.len() as int) =~= cs@);
    }
    out
}

impl RoutingTable {
    /// `c` is what some table entry at a position before `(i, j)` (in
    /// bucket order, then bucket position) contributes for `target`.
    pub open spec fn cand_from_before(self, c: Cand, target: u64, i: int, j: int) -> bool {
        exists|i2: int, j2: int|
            self.entry_at(i2, j2) && (i2 < i || (i2 == i && j2 < j)) && cand_of(
                #[trigger] self.buckets@[i2]@[j2],
                target,
            ) == c
    }

    /// `c` is what some table entry contributes for `target`.
    pub open spec fn cand_from_table(self, c: Cand, target: u64) -> bool {
        exists|i2: int, j2: int|
            self.entry_at(i2, j2) && cand_of(#[trigger] self.buckets@[i2]@[j2], target) == c
    }

    /// One candidate per known peer, each ranked against `target`.
    fn collect_cands(&self, target: u64) -> (cs: Vec<Cand>)
        requires
            self.wf(),
        ensures
            cs@.len() == self.total(),
            forall|m: int| 0 <= m < cs@.len() ==> self.cand_from_table(#[trigger] cs@[m], target),
            forall|i: int, j: int|
                self.entry_at(i, j) ==> cs@.contains(cand_of(#[trigger] self.buckets@[i]@[j], target)),
            forall|m1: int, m2: int|
                0 <= m1 < m2 < cs@.len() ==> cs@[m1].peer != cs@[m2].peer,
    {
        let mut cs: Vec<Cand> = Vec::new();
        let mut i: usize = 0;
        let nb = self.buckets.len();
        while i < nb
            invariant
                self.wf(),
                nb == self.buckets@.len(),
                i <= nb,
                cs@.len() == self.count_up_to(i as int),
                forall|m: int|
                    0 <= m < cs@.len() ==> self.cand_from_before(#[trigger] cs@[m], target, i as int, 0),
                forall|i2: int, j2: int|
                    self.entry_at(i2, j2) && i2 < i ==> cs@.contains(
                        cand_of(#[trigger] self.buckets@[i2]@[j2], target),
                    ),
                forall|m1: int, m2: int|
                    0 <= m1 < m2 < cs@.len() ==> cs@[m1].peer != cs@[m2].peer,
            decreases nb - i,
        {
            let blen = self.buckets[i].len();
            let mut j: usize = 0;
            while j < blen
                invariant
                    self.wf(),
                    i < nb,
                    nb == self.buckets@.len(),
                    blen == self.buckets@[i as int]@.len(),
                    j <= blen,
                    cs@.len() == self.count_up_to(i as int) + j,
                    forall|m: int|
                        0 <= m < cs@.len() ==> self.cand_from_before(
                            #[trigger] cs@[m],
                            target,
                            i as int,
                            j as int,
                        ),
                    forall|i2: int, j2: int|
                        self.entry_at(i2, j2) && (i2 < i || (i2 == i && j2 < j)) ==> cs@.contains(
                            cand_of(#[trigger] self.buckets@[i2]@[j2], target),
                        ),
                    forall|m1: int, m2: int|
                        0 <= m1 < m2 < cs@.len() ==> cs@[m1].peer != cs@[m2].peer,
                decreases blen - j,
            {
                let e_peer = self.buckets[i][j].peer;
                let e_ord = self.buckets[i][j].order;
                let c = Cand { peer: e_peer, d: e_peer.id ^ target, ord: e_ord };
                let ghost pre = cs@;
                proof {
                    assert(c == cand_of(self.buckets@[i as int]@[j as int], target));
                    // the new candidate's peer is fresh: an equal peer at an
                    // earlier position would collapse to the same position
                    assert forall|m: int| 0 <= m < pre.len() implies pre[m].peer != c.peer by {
                        let (i2, j2): (int, int) = choose|i2: int, j2: int|
                            self.entry_at(i2, j2) && (i2 < i as int || (i2 == i as int && j2 < j as int))
                                && cand_of(#[trigger] self.buckets@[i2]@[j2], target) == pre[m];
                        if pre[m].peer == c.peer {
                            self.lemma_peer_in_unique_bucket(i2, j2, i as int, j as int);
                        }
                    }
                }
                cs.push(c);
                proof {
                    assert forall|m: int| 0 <= m < cs@.len() implies self.cand_from_before(
                        #[trigger] cs@[m],
                        target,
                        i as int,
                        j + 1 as int,
                    ) by {
                        if m < cs@.len() - 1 {
                            assert(self.cand_from_before(cs@[m], target, i as int, j as int));
                        } else {
                            assert(self.entry_at(i as int, j as int));
                            assert(cand_of(self.buckets@[i as int]@[j as int], target) == cs@[m]);
                        }
                    }
                    assert forall|i2: int, j2: int|
                        self.entry_at(i2, j2) && (i2 < i as int || (i2 == i as int && j2 < j + 1))
                            implies cs@.contains(
                        cand_of(#[trigger] self.buckets@[i2]@[j2], target),
                    ) by {
                        let v = cand_of(self.buckets@[i2]@[j2], target);
                        if i2 < i as int || (i2 == i as int && j2 < j as int) {
                            assert(pre.contains(v));
                            let m = choose|m: int| 0 <= m < pre.len() && pre[m] == v;
                            assert(cs@[m] == v);
                        } else {
                            assert(cs@[cs@.len() - 1] == v);
                        }
                    }
                }
                j = j + 1;
            }
            i = i + 1;
        }
        cs
    }

    /// The `count` known peers closest to `target` by XOR distance, in
    /// ascending order of distance, ties going to the earlier-seen peer.
    pub open spec fn is_closest_seed(self, target: u64, count: int, s: Seq<PeerId>) -> bool {
        &&& s.len() == min_int(count, self.total() as int)
        &&& forall|a: int, b: int|
            0 <= a < b < s.len() ==> dist(s[a].id, target) <= dist(s[b].id, target)
        &&& forall|a: int| 0 <= a < s.len() ==> self.contains_peer(#[trigger] s[a])
        &&& forall|a: int, b: int| 0 <= a < b < s.len() ==> s[a] != s[b]
        &&& forall|p: PeerId, a: int|
            #![trigger self.contains_peer(p), s[a]]
            self.contains_peer(p) && !s.contains(p) && 0 <= a < s.len() ==> dist(
                s[a].id,
                target,
            ) <= dist(p.id, target)
    }

    /// Returns up to `count` known peers sorted by ascending XOR
    /// distance to `target`: the selection primitive a query uses to
    /// pick whom to contact next.
    pub fn closest_peers(&self, target: u64, count: usize) -> (res: Vec<PeerId>)
        requires
            self.wf(),
        ensures
            self.is_closest_seed(target, count as int, res@),
    {
        broadcast use vstd::seq_lib::group_to_multiset_ensures;

        let cs = self.collect_cands(target);
        let sorted = sort_cands(&cs);
        proof {
            // every ranked slot is a table candidate
            assert forall|m: int| 0 <= m < sorted@.len() implies self.cand_from_table(
                #[trigger] sorted@[m],
                target,
            ) by {
                assert(sorted@.contains(sorted@[m]));
                assert(sorted@.to_multiset().count(sorted@[m]) > 0);
                assert(cs@.to_multiset().count(sorted@[m]) > 0);
                assert(cs@.contains(sorted@[m]));
                let m2 = choose|m2: int| 0 <= m2 < cs@.len() && cs@[m2] == sorted@[m];
                assert(self.cand_from_table(cs@[m2], target));
            }
            // distinct peers throughout the ranking
            assert forall|a: int, b: int| 0 <= a < b < sorted@.len() implies sorted@[a].peer
                != sorted@[b].peer by {
                if sorted@[a] == sorted@[b] {
                    lemma_dup_count(sorted@, a, b);
                    assert(cs@.to_multiset().count(sorted@[a]) >= 2);
                    lemma_distinct_peers_count(cs@, sorted@[a]);
                } else {
                    assert(sorted@.contains(sorted@[a]));
                    assert(sorted@.contains(sorted@[b]));
                    assert(cs@.to_multiset().count(sorted@[a]) > 0);
                    assert(cs@.to_multiset().count(sorted@[b]) > 0);
                    assert(cs@.contains(sorted@[a]));
                    assert(cs@.contains(sorted@[b]));
                    let ma = choose|m: int| 0 <= m < cs@.len() && cs@[m] == sorted@[a];
                    let mb = choose|m: int| 0 <= m < cs@.len() && cs@[m] == sorted@[b];
                    if sorted@[a].peer == sorted@[b].peer {
                        assert(ma != mb);
                        if ma < mb {
                            assert(cs@[ma].peer != cs@[mb].peer);
                        } else {
                            assert(cs@[mb].peer != cs@[ma].peer);
                        }
                    }
                }
            }
        }
        let n = if count <= sorted.len() {
            count
        } else {
            sorted.len()
        };
        let mut res: Vec<PeerId> = Vec::new();
        let mut m: usize = 0;
        while m < n
            invariant
                n <= sorted@.len(),
                m <= n,
                res@.len() == m,
                forall|a: int| 0 <= a < m ==> res@[a] == (#[trigger] sorted@[a]).peer,
            decreases n - m,
        {
            let p = sorted[m].peer;
            res.push(p);
            m = m + 1;
        }
        proof {
            // distances in the ranking are real distances
            assert forall|a: int| 0 <= a < res@.len() implies self.contains_peer(#[trigger] res@[a])
                && dist(res@[a].id, target) == sorted@[a].d by {
                assert(self.cand_from_table(sorted@[a], target));
                let (i2, j2): (int, int) = choose|i2: int, j2: int|
                    self.entry_at(i2, j2) && cand_of(#[trigger] self.buckets@[i2]@[j2], target)
                        == sorted@[a];
                assert(self.buckets@[i2]@[j2].peer == res@[a]);
            }
            assert forall|a: int, b: int| 0 <= a < b < res@.len() implies dist(
                (#[trigger] res@[a]).id,
                target,
            ) <= dist((#[trigger] res@[b]).id, target) by {
                assert(cand_le(sorted@[a], sorted@[b]));
                assert(dist(res@[a].id, target) == sorted@[a].d);
                assert(dist(res@[b].id, target) == sorted@[b].d);
            }
            // a peer left out ranks at or above everything returned
            assert forall|p: PeerId, a: int|
                #![trigger self.contains_peer(p), res@[a]]
                self.contains_peer(p) && !res@.contains(p) && 0 <= a < res@.len() implies dist(
                res@[a].id,
                target,
            ) <= dist(p.id, target) by {
                let (i2, j2): (int, int) = choose|i2: int, j2: int|
                    self.entry_at(i2, j2) && (#[trigger] self.buckets@[i2]@[j2]).peer == p;
                let cp = cand_of(self.buckets@[i2]@[j2], target);
                assert(cs@.contains(cp));
                assert(cs@.to_multiset().count(cp) > 0);
                assert(sorted@.to_multiset().count(cp) > 0);
                assert(sorted@.contains(cp));
                let mp = choose|mp: int| 0 <= mp < sorted@.len() && sorted@[mp] == cp;
                if mp < res@.len() {
                    assert(res@[mp] == p);
                    assert(res@.contains(p));
                } else {
                    assert(cand_le(sorted@[a], sorted@[mp]));
                }
            }
        }
        res
    }
}

/// With pairwise-distinct peers no candidate value can occur twice.
proof fn lemma_distinct_peers_count(s: Seq<Cand>, v: Cand)
    requires
        forall|m1: int, m2: int| 0 <= m1 < m2 < s.len() ==> s[m1].peer != s[m2].peer,
    ensures
        s.to_multiset().count(v) <= 1,
{
    broadcast use vstd::seq_lib::group_to_multiset_ensures;

    if s.to_multiset().count(v) >= 2 {
        assert(s.contains(v));
        let m1 = choose|m1: int| 0 <= m1 < s.len() && s[m1] == v;
        let r = s.remove(m1);
        assert(r.to_multiset() =~= s.to_multiset().remove(v));
        assert(r.to_multiset().count(v) >= 1);
        assert(r.contains(v));
        let m2 = choose|m2: int| 0 <= m2 < r.len() && r[m2] == v;
        if m2 < m1 {
            assert(s[m2] == v);
        } else {
            assert(s[m2 + 1] == v);
        }
        assert(false);
    }
}

} // verus!
