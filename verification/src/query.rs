//! The query engine: the iterative-lookup state machine common to GET
//! and PUT. A query owns the peers still to contact (`pending`), the
//! peers contacted, the subset that answered, and the contributions
//! gathered so far; responses drive it until a quorum is reached, every
//! contactable peer is exhausted, or its deadline elapses.

use vstd::prelude::*;
use crate::DhtError;
use crate::id::{PeerId, key_id, key_id_of, min_int};
use crate::routing::RoutingTable;
use crate::store::{Record, RecordStore};

verus! {

/// What a query is after.
#[derive(Clone, Copy, PartialEq, Eq, Structural, Debug)]
pub enum QueryKind {
    Get,
    Put,
}

/// Where a query stands. Failure carries the terminal reason.
#[derive(Clone, Copy, PartialEq, Eq, Structural, Debug)]
pub enum QueryStatus {
    InFlight,
    Succeeded,
    Failed(DhtError),
}

/// What a remote peer's answer amounts to, as the transport hands it
/// over: the record asked for, closer peers to try instead, a bare
/// acknowledgment of a store request, or bytes that did not parse as
/// any of those.
pub enum ResponsePayload {
    FoundRecord(Record),
    CloserPeers(Vec<PeerId>),
    Ack,
    Malformed,
}

/// One observed `(peer, record)` pair. A GET surfaces all of them to
/// the caller; conflicting values are the caller's to resolve.
pub struct PeerRecord {
    pub from: PeerId,
    pub record: Record,
}

/// An in-flight or completed query.
pub struct Query {
    pub id: u64,
    pub kind: QueryKind,
    pub key: Vec<u8>,
    /// The key's point in the identifier space.
    pub target: u64,
    /// Consistent answers needed before the query succeeds.
    pub quorum: usize,
    /// Peers selected but not yet contacted, in contact order.
    pub pending: Vec<PeerId>,
    /// Peers a request was sent to.
    pub contacted: Vec<PeerId>,
    /// Contacted peers that have answered (in whatever way).
    pub answered: Vec<PeerId>,
    /// GET contributions: every record observed, with its sender.
    pub found: Vec<PeerRecord>,
    /// PUT contributions: peers that acknowledged the store.
    pub acks: Vec<PeerId>,
    pub deadline: u64,
    pub status: QueryStatus,
}

/// Appends to `pending` those of `ps` not already pending or contacted,
/// keeping first-seen order and dropping duplicates.
pub open spec fn merge_candidates(pending: Seq<PeerId>, contacted: Seq<PeerId>, ps: Seq<PeerId>) -> Seq<
    PeerId,
>
    decreases ps.len(),
{
    if ps.len() == 0 {
        pending
    } else {
        let rest = merge_candidates(pending, contacted, ps.drop_last());
        if rest.contains(ps.last()) || contacted.contains(ps.last()) {
            rest
        } else {
            rest.push(ps.last())
        }
    }
}

impl Query {
    /// Contributions counting toward the quorum.
    pub open spec fn responses_count(self) -> int {
        if self.kind is Get {
            self.found@.len() as int
        } else {
            self.acks@.len() as int
        }
    }

    /// No peer left to contact and every contacted peer has answered.
    pub open spec fn exhausted(self) -> bool {
        self.pending@.len() == 0 && self.contacted@.len() == self.answered@.len()
    }

    /// The fields a response never moves.
    pub open spec fn same_core(pre: Self, post: Self) -> bool {
        &&& post.id == pre.id
        &&& post.kind == pre.kind
        &&& post.key == pre.key
        &&& post.target == pre.target
        &&& post.quorum == pre.quorum
        &&& post.deadline == pre.deadline
    }

    /// Well-formedness: a positive quorum; the target is the key's
    /// identifier-space point; no duplicates among pending, contacted or
    /// answered peers; pending and contacted are disjoint; answers come
    /// only from contacted peers, and each contribution from a distinct
    /// answered peer.
    pub open spec fn wf(self) -> bool {
        &&& self.quorum >= 1
        &&& self.target == key_id_of(self.key@)
        &&& self.pending@.no_duplicates()
        &&& self.contacted@.no_duplicates()
        &&& self.answered@.no_duplicates()
        &&& forall|p: PeerId| self.pending@.contains(p) ==> !self.contacted@.contains(p)
        &&& forall|p: PeerId| self.answered@.contains(p) ==> self.contacted@.contains(p)
        &&& forall|a: int|
            0 <= a < self.found@.len() ==> self.answered@.contains((#[trigger] self.found@[a]).from)
        &&& forall|a: int, b: int|
            0 <= a < b < self.found@.len() ==> (#[trigger] self.found@[a]).from != (
            #[trigger] self.found@[b]).from
        &&& forall|a: int|
            0 <= a < self.acks@.len() ==> self.answered@.contains(#[trigger] self.acks@[a])
        &&& self.acks@.no_duplicates()
    }

    /// How one response moves a query. A response to a finished query,
    /// from a peer never contacted, or from a peer that already
    /// answered, changes nothing. Otherwise the sender joins `answered`;
    /// a record answers a GET, an acknowledgment answers a PUT, closer
    /// peers extend a GET's pending list, and anything else (including a
    /// malformed reply) contributes nothing; then the query succeeds
    /// exactly when its contributions reach the quorum, fails as
    /// quorum-unreachable exactly when everyone reachable has answered
    /// short of it, and otherwise stays in flight.
    pub open spec fn response_step(pre: Self, post: Self, from: PeerId, payload: ResponsePayload) -> bool {
        if !(pre.status is InFlight) || !pre.contacted@.contains(from) || pre.answered@.contains(
            from,
        ) {
            post == pre
        } else {
            &&& Self::same_core(pre, post)
            &&& post.answered@ == pre.answered@.push(from)
            &&& post.contacted@ == pre.contacted@
            &&& match payload {
                ResponsePayload::FoundRecord(rec) => if pre.kind is Get {
                    &&& post.found@ == pre.found@.push(PeerRecord { from, record: rec })
                    &&& post.acks@ == pre.acks@
                    &&& post.pending@ == pre.pending@
                } else {
                    Self::no_contribution(pre, post)
                },
                ResponsePayload::Ack => if pre.kind is Put {
                    &&& post.acks@ == pre.acks@.push(from)
                    &&& post.found@ == pre.found@
                    &&& post.pending@ == pre.pending@
                } else {
                    Self::no_contribution(pre, post)
                },
                ResponsePayload::CloserPeers(ps) => if pre.kind is Get {
                    &&& post.pending@ == merge_candidates(pre.pending@, pre.contacted@, ps@)
                    &&& post.found@ == pre.found@
                    &&& post.acks@ == pre.acks@
                } else {
                    Self::no_contribution(pre, post)
                },
                ResponsePayload::Malformed => Self::no_contribution(pre, post),
            }
            &&& post.status == (if post.responses_count() >= pre.quorum {
                QueryStatus::Succeeded
            } else if post.exhausted() {
                QueryStatus::Failed(DhtError::QuorumUnreachable)
            } else {
                QueryStatus::InFlight
            })
        }
    }

    /// The sender's contribution is discarded; the query only notes
    /// that the peer answered.
    pub open spec fn no_contribution(pre: Self, post: Self) -> bool {
        &&& post.found@ == pre.found@
        &&& post.acks@ == pre.acks@
        &&& post.pending@ == pre.pending@
    }

    /// How taking the next batch of contacts moves a query: the first
    /// `n` pending peers move to `contacted` and are returned, where `n`
    /// tops outstanding requests up to the concurrency factor `alpha`.
    pub open spec fn contacts_step(pre: Self, post: Self, out: Seq<PeerId>, alpha: int) -> bool {
        if !(pre.status is InFlight) {
            &&& post == pre
            &&& out == Seq::<PeerId>::empty()
        } else {
            let outstanding = pre.contacted@.len() - pre.answered@.len();
            let want = if outstanding >= alpha {
                0
            } else {
                alpha - outstanding
            };
            let n = min_int(want, pre.pending@.len() as int);
            &&& out == pre.pending@.take(n)
            &&& post.pending@ == pre.pending@.skip(n)
            &&& post.contacted@ == pre.contacted@ + out
            &&& post.answered@ == pre.answered@
            &&& post.found@ == pre.found@
            &&& post.acks@ == pre.acks@
            &&& post.status == pre.status
            &&& Self::same_core(pre, post)
        }
    }

    /// A finished query ignores any response; in particular, responses
    /// arriving after its deadline failed it are discarded.
    pub proof fn lemma_late_response_ignored(pre: Self, post: Self, from: PeerId, payload: ResponsePayload)
        requires
            !(pre.status is InFlight),
            Self::response_step(pre, post, from, payload),
        ensures
            post == pre,
    {
    }

    /// Delivers one response to this query.
    pub fn on_response(&mut self, from: PeerId, payload: ResponsePayload)
        requires
            old(self).wf(),
        ensures
            final(self).wf(),
            Self::response_step(*old(self), *final(self), from, payload),
    {
        let inflight = match self.status {
            QueryStatus::InFlight => true,
            _ => false,
        };
        if !inflight {
            return ;
        }
        let in_contacted = contains_pid(&self.contacted, from);
        let in_answered = contains_pid(&self.answered, from);
        if !in_contacted || in_answered {
            return ;
        }
        self.answered.push(from);
        let is_get = match self.kind {
            QueryKind::Get => true,
            QueryKind::Put => false,
        };
        match payload {
            ResponsePayload::FoundRecord(rec) => {
                if is_get {
                    self.found.push(PeerRecord { from, record: rec });
                }
            },
            ResponsePayload::Ack => {
                if !is_get {
                    self.acks.push(from);
                }
            },
            ResponsePayload::CloserPeers(ps) => {
                if is_get {
                    self.merge_pending(&ps);
                }
            },
            ResponsePayload::Malformed => {},
        }
        let n = if is_get {
            self.found.len()
        } else {
            self.acks.len()
        };
        if n >= self.quorum {
            self.status = QueryStatus::Succeeded;
        } else if self.pending.len() == 0 && self.contacted.len() == self.answered.len() {
            self.status = QueryStatus::Failed(DhtError::QuorumUnreachable);
        }
        proof {
            let pre = *old(self);
            lemma_push_contains(pre.answered@, from);
            lemma_push_no_dup(pre.answered@, from);
            assert forall|p: PeerId| self.answered@.contains(p) implies self.contacted@.contains(
                p,
            ) by {
                if p != from {
                    assert(pre.answered@.contains(p));
                }
            }
            assert forall|a: int| 0 <= a < self.found@.len() implies self.answered@.contains(
                (#[trigger] self.found@[a]).from,
            ) by {
                if a < pre.found@.len() {
                    assert(pre.found@[a] == self.found@[a]);
                    assert(pre.answered@.contains(pre.found@[a].from));
                }
            }
            assert forall|a: int, b: int| 0 <= a < b < self.found@.len() implies (
            #[trigger] self.found@[a]).from != (#[trigger] self.found@[b]).from by {
                if b < pre.found@.len() {
                    assert(pre.found@[a] == self.found@[a]);
                    assert(pre.found@[b] == self.found@[b]);
                } else {
                    assert(pre.found@[a] == self.found@[a]);
                    assert(pre.answered@.contains(pre.found@[a].from));
                }
            }
            assert forall|a: int| 0 <= a < self.acks@.len() implies self.answered@.contains(
                #[trigger] self.acks@[a],
            ) by {
                if a < pre.acks@.len() {
                    assert(pre.acks@[a] == self.acks@[a]);
                    assert(pre.answered@.contains(pre.acks@[a]));
                }
            }
            assert forall|a: int, b: int| 0 <= a < b < self.acks@.len() implies (
            #[trigger] self.acks@[a]) != (#[trigger] self.acks@[b]) by {
                if b < pre.acks@.len() {
                    assert(pre.acks@[a] == self.acks@[a]);
                    assert(pre.acks@[b] == self.acks@[b]);
                } else {
                    assert(pre.acks@[a] == self.acks@[a]);
                    assert(pre.answered@.contains(pre.acks@[a]));
                }
            }
        }
    }

    /// Appends the not-yet-seen peers of `ps` to `pending`.
    fn merge_pending(&mut self, ps: &Vec<PeerId>)
        requires
            old(self).pending@.no_duplicates(),
            forall|p: PeerId| old(self).pending@.contains(p) ==> !old(self).contacted@.contains(p),
        ensures
            final(self).pending@ == merge_candidates(
                old(self).pending@,
                old(self).contacted@,
                ps@,
            ),
            final(self).pending@.no_duplicates(),
            forall|p: PeerId| final(self).pending@.contains(p) ==> !final(self).contacted@.contains(p),
            *final(self) == (Query { pending: final(self).pending, ..*old(self) }),
    {
        let mut i: usize = 0;
        while i < ps.len()
            invariant
                i <= ps@.len(),
                self.pending@ == merge_candidates(old(self).pending@, old(self).contacted@, ps@.take(i as int)),
                self.pending@.no_duplicates(),
                forall|p: PeerId| self.pending@.contains(p) ==> !self.contacted@.contains(p),
                *self == (Query { pending: self.pending, ..*old(self) }),
            decreases ps@.len() - i,
        {
            let p = ps[i];
            let inp = contains_pid(&self.pending, p);
            let inc = contains_pid(&self.contacted, p);
            proof {
                assert(ps@.take(i + 1 as int).drop_last() =~= ps@.take(i as int));
                assert(ps@.take(i + 1 as int).last() == ps@[i as int]);
            }
            if !inp && !inc {
                self.pending.push(p);
                proof {
                    let pre = merge_candidates(old(self).pending@, old(self).contacted@, ps@.take(i as int));
                    assert(self.pending@ == pre.push(p));
                    assert forall|q: PeerId| self.pending@.contains(q) implies !self.contacted@.contains(q) by {
                        let m = choose|m: int| 0 <= m < self.pending@.len() && self.pending@[m] == q;
                        if m < self.pending@.len() - 1 {
                            assert(pre[m] == q);
                            assert(pre.contains(q));
                        }
                    }
                }
            }
            i = i + 1;
        }
        proof {
            assert(ps@.take(ps@.len() as int) =~= ps@);
        }
    }

    /// Hands out the peers to contact next and marks them contacted.
    pub fn take_next_contacts(&mut self, alpha: usize) -> (out: Vec<PeerId>)
        requires
            old(self).wf(),
        ensures
            final(self).wf(),
            Self::contacts_step(*old(self), *final(self), out@, alpha as int),
    {
        let inflight = match self.status {
            QueryStatus::InFlight => true,
            _ => false,
        };
        if !inflight {
            return Vec::new();
        }
        proof {
            lemma_distinct_subset_len(self.answered@, self.contacted@);
        }
        let outstanding = self.contacted.len() - self.answered.len();
        let want = if outstanding >= alpha {
            0
        } else {
            alpha - outstanding
        };
        let mut out: Vec<PeerId> = Vec::new();
        let mut cnt: usize = 0;
        while cnt < want && self.pending.len() > 0
            invariant
                cnt <= want,
                cnt <= old(self).pending@.len(),
                out@ == old(self).pending@.take(cnt as int),
                self.pending@ == old(self).pending@.skip(cnt as int),
                self.contacted@ == old(self).contacted@ + out@,
                *self == (Query { pending: self.pending, contacted: self.contacted, ..*old(self) }),
            decreases want - cnt,
        {
            let p = self.pending.remove(0);
            out.push(p);
            self.contacted.push(p);
            proof {
                assert(old(self).pending@.skip(cnt as int)[0] == old(self).pending@[cnt as int]);
                assert(out@ =~= old(self).pending@.take(cnt + 1 as int));
                assert(self.pending@ =~= old(self).pending@.skip(cnt + 1 as int));
                assert(self.contacted@ =~= old(self).contacted@ + out@);
            }
            cnt = cnt + 1;
        }
        proof {
            let n = min_int(
                if old(self).contacted@.len() - old(self).answered@.len() >= alpha as int {
                    0
                } else {
                    alpha as int - (old(self).contacted@.len() - old(self).answered@.len())
                },
                old(self).pending@.len() as int,
            );
            assert(cnt as int == n);
            self.lemma_contacts_wf(*old(self), out@, cnt as int);
        }
        out
    }

    /// Moving a distinct, disjoint prefix of `pending` into `contacted`
    /// keeps the query well-formed.
    proof fn lemma_contacts_wf(self, pre: Self, out: Seq<PeerId>, n: int)
        requires
            pre.wf(),
            0 <= n <= pre.pending@.len(),
            out == pre.pending@.take(n),
            self.pending@ == pre.pending@.skip(n),
            self.contacted@ == pre.contacted@ + out,
            self == (Query { pending: self.pending, contacted: self.contacted, ..pre }),
        ensures
            self.wf(),
    {
        let cn = pre.contacted@.len() as int;
        assert forall|a: int, b: int| 0 <= a < b < self.contacted@.len() implies self.contacted@[a]
            != self.contacted@[b] by {
            if b >= cn {
                assert(self.contacted@[b] == pre.pending@[b - cn]);
                assert(pre.pending@.contains(pre.pending@[b - cn]));
                if a >= cn {
                    assert(self.contacted@[a] == pre.pending@[a - cn]);
                } else {
                    assert(self.contacted@[a] == pre.contacted@[a]);
                    assert(pre.contacted@.contains(pre.contacted@[a]));
                    if self.contacted@[a] == self.contacted@[b] {
                        assert(!pre.contacted@.contains(pre.pending@[b - cn]));
                    }
                }
            }
        }
        assert forall|p: PeerId| self.pending@.contains(p) implies !self.contacted@.contains(p) by {
            let m = choose|m: int| 0 <= m < self.pending@.len() && self.pending@[m] == p;
            assert(pre.pending@[m + n] == p);
            assert(pre.pending@.contains(p));
            if self.contacted@.contains(p) {
                let m2 = choose|m2: int| 0 <= m2 < self.contacted@.len() && self.contacted@[m2] == p;
                if m2 < cn {
                    assert(pre.contacted@.contains(p));
                } else {
                    assert(pre.pending@[m2 - cn] == p);
                }
            }
        }
        assert forall|p: PeerId| self.answered@.contains(p) implies self.contacted@.contains(p) by {
            assert(pre.contacted@.contains(p));
            let m = choose|m: int| 0 <= m < pre.contacted@.len() && pre.contacted@[m] == p;
            assert(self.contacted@[m] == p);
        }
        assert forall|a: int| 0 <= a < self.found@.len() implies self.answered@.contains(
            (#[trigger] self.found@[a]).from,
        ) by {
            assert(pre.found@[a] == self.found@[a]);
        }
    }

    /// Fails the query with `QueryTimeout` exactly when it is still in
    /// flight at or past its deadline; otherwise changes nothing.
    pub fn check_timeout(&mut self, now: u64)
        requires
            old(self).wf(),
        ensures
            final(self).wf(),
            if old(self).status is InFlight && now >= old(self).deadline {
                *final(self) == (Query {
                    status: QueryStatus::Failed(DhtError::QueryTimeout),
                    ..*old(self)
                })
            } else {
                *final(self) == *old(self)
            },
    {
        let inflight = match self.status {
            QueryStatus::InFlight => true,
            _ => false,
        };
        if inflight && now >= self.deadline {
            self.status = QueryStatus::Failed(DhtError::QueryTimeout);
        }
    }
}

/// Starts a GET for `key`: seeds `pending` with the `alpha` known peers
/// closest to the key, and fails immediately, contacting nobody, exactly
/// when the routing table is empty.
pub fn start_get(
    table: &RoutingTable,
    key: Vec<u8>,
    quorum: usize,
    id: u64,
    deadline: u64,
    alpha: usize,
) -> (r: Result<Query, DhtError>)
    requires
        table.wf(),
        quorum >= 1,
        alpha >= 1,
    ensures
        match r {
            Ok(q) => {
                &&& table.total() > 0
                &&& q.wf()
                &&& q.kind is Get
                &&& q.id == id
                &&& q.key@ == key@
                &&& q.target == key_id_of(key@)
                &&& q.quorum == quorum
                &&& q.deadline == deadline
                &&& q.status is InFlight
                &&& table.is_closest_seed(q.target, alpha as int, q.pending@)
                &&& q.contacted@.len() == 0
                &&& q.answered@.len() == 0
                &&& q.found@.len() == 0
                &&& q.acks@.len() == 0
            },
            Err(e) => e == DhtError::RoutingTableEmpty && table.total() == 0,
        },
        r is Ok <==> table.total() > 0,
{
    let target = key_id(&key);
    let seed = table.closest_peers(target, alpha);
    if seed.len() == 0 {
        return Err(DhtError::RoutingTableEmpty);
    }
    let q = Query {
        id,
        kind: QueryKind::Get,
        key,
        target,
        quorum,
        pending: seed,
        contacted: Vec::new(),
        answered: Vec::new(),
        found: Vec::new(),
        acks: Vec::new(),
        deadline,
        status: QueryStatus::InFlight,
    };
    proof {
        assert(q.pending@.no_duplicates());
    }
    Ok(q)
}

/// Starts a PUT for `rec`: stores the record locally first (local
/// durability is the base guarantee; a local store failure is fatal and
/// nothing else happens), then seeds `pending` with the `k` known peers
/// closest to the key, failing if the routing table is empty — the
/// record then remains stored locally.
pub fn start_put(
    table: &RoutingTable,
    store: &mut RecordStore,
    rec: Record,
    quorum: usize,
    id: u64,
    deadline: u64,
) -> (r: Result<Query, DhtError>)
    requires
        table.wf(),
        old(store).wf(),
        quorum >= 1,
    ensures
        final(store).wf(),
        final(store).cap == old(store).cap,
        match r {
            Ok(q) => {
                &&& final(store)@ == old(store)@.insert(rec.key@, rec.data())
                &&& table.total() > 0
                &&& q.wf()
                &&& q.kind is Put
                &&& q.id == id
                &&& q.key@ == rec.key@
                &&& q.target == key_id_of(rec.key@)
                &&& q.quorum == quorum
                &&& q.deadline == deadline
                &&& q.status is InFlight
                &&& table.is_closest_seed(q.target, table.k as int, q.pending@)
                &&& q.contacted@.len() == 0
                &&& q.answered@.len() == 0
                &&& q.found@.len() == 0
                &&& q.acks@.len() == 0
            },
            Err(e) => {
                &&& (e == DhtError::LocalStoreFailure || e == DhtError::RoutingTableEmpty)
                &&& (e == DhtError::LocalStoreFailure ==> *final(store) == *old(store)
                    && !old(store)@.contains_key(rec.key@) && old(store).records@.len() == old(
                    store,
                ).cap)
                &&& (e == DhtError::RoutingTableEmpty ==> final(store)@ == old(store)@.insert(
                    rec.key@,
                    rec.data(),
                ) && table.total() == 0 && (old(store)@.contains_key(rec.key@) || old(
                    store,
                ).records@.len() < old(store).cap))
            },
        },
        r is Ok <==> ((old(store)@.contains_key(rec.key@) || old(store).records@.len() < old(
            store,
        ).cap) && table.total() > 0),
{
    let key = rec.key.clone();
    proof {
        assert(key@ =~= rec.key@);
    }
    let target = key_id(&key);
    let stored = store.put(rec);
    if let Err(e) = stored {
        return Err(e);
    }
    let seed = table.closest_peers(target, table.k);
    if seed.len() == 0 {
        return Err(DhtError::RoutingTableEmpty);
    }
    let q = Query {
        id,
        kind: QueryKind::Put,
        key,
        target,
        quorum,
        pending: seed,
        contacted: Vec::new(),
        answered: Vec::new(),
        found: Vec::new(),
        acks: Vec::new(),
        deadline,
        status: QueryStatus::InFlight,
    };
    proof {
        assert(q.pending@.no_duplicates());
    }
    Ok(q)
}

/// Whether a peer list holds `p`.
pub fn contains_pid(v: &Vec<PeerId>, p: PeerId) -> (r: bool)
    ensures
        r == v@.contains(p),
{
    let mut j: usize = 0;
    while j < v.len()
        invariant
            j <= v@.len(),
            forall|m: int| 0 <= m < j ==> v@[m] != p,
        decreases v@.len() - j,
    {
        if v[j].id == p.id {
            return true;
        }
        j = j + 1;
    }
    false
}

/// Appending an element extends membership by exactly it.
proof fn lemma_push_contains(s: Seq<PeerId>, x: PeerId)
    ensures
        forall|p: PeerId| s.push(x).contains(p) <==> s.contains(p) || p == x,
{
    assert forall|p: PeerId| s.push(x).contains(p) implies s.contains(p) || p == x by {
        let m = choose|m: int| 0 <= m < s.push(x).len() && s.push(x)[m] == p;
        if m < s.len() {
            assert(s[m] == p);
        }
    }
    assert forall|p: PeerId| s.contains(p) || p == x implies s.push(x).contains(p) by {
        if s.contains(p) {
            let m = choose|m: int| 0 <= m < s.len() && s[m] == p;
            assert(s.push(x)[m] == p);
        } else {
            assert(s.push(x)[s.len() as int] == p);
        }
    }
}

/// Appending a fresh element keeps a sequence duplicate-free.
proof fn lemma_push_no_dup(s: Seq<PeerId>, x: PeerId)
    requires
        s.no_duplicates(),
        !s.contains(x),
    ensures
        s.push(x).no_duplicates(),
{
    assert forall|a: int, b: int|
        0 <= a < s.push(x).len() && 0 <= b < s.push(x).len() && a != b implies s.push(x)[a]
        != s.push(x)[b] by {
        if a < s.len() && b < s.len() {
        } else if a < s.len() {
            assert(s.contains(s[a]));
        } else if b < s.len() {
            assert(s.contains(s[b]));
        }
    }
}

/// A duplicate-free sequence whose members all lie in another
/// duplicate-free sequence is no longer than it.
proof fn lemma_distinct_subset_len(a: Seq<PeerId>, b: Seq<PeerId>)
    requires
        a.no_duplicates(),
        b.no_duplicates(),
        forall|p: PeerId| a.contains(p) ==> b.contains(p),
    ensures
        a.len() <= b.len(),
{
    broadcast use vstd::seq_lib::seq_to_set_is_finite;
    broadcast use vstd::set::group_set_axioms;

    a.unique_seq_to_set();
    b.unique_seq_to_set();
    assert forall|p: PeerId| a.to_set().contains(p) implies b.to_set().contains(p) by {
        assert(a.contains(p));
        assert(b.contains(p));
    }
    assert(a.to_set().subset_of(b.to_set()));
    vstd::set_lib::lemma_len_subset(a.to_set(), b.to_set());
}

} // verus!
