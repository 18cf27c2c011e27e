//! The event dispatcher: the single control point that owns the routing
//! table, the record store and the in-flight queries. The caller's loop
//! polls its sources, hands each event here, and carries out the
//! returned actions (sending requests, printing results); nothing else
//! ever mutates the node.

use vstd::prelude::*;
use crate::DhtError;
use crate::id::{Address, PeerId};
use crate::query::{PeerRecord, Query, QueryKind, QueryStatus, ResponsePayload};
use crate::routing::RoutingTable;
use crate::store::RecordStore;

verus! {

/// An input for the dispatch loop: a peer seen by local discovery, a
/// remote answer to one of our queries, or the clock reaching `now`.
pub enum Event {
    Discovery { peer: PeerId, addr: Address },
    QueryResponse { id: u64, from: PeerId, payload: ResponsePayload },
    Timeout { now: u64 },
}

/// The two requests this node sends.
#[derive(Clone, Copy, PartialEq, Eq, Structural, Debug)]
pub enum RequestKind {
    /// Ask a peer for the record under a key.
    FindRecord,
    /// Ask a peer to store the record under a key; the record itself is
    /// read from the local store, which a successful PUT has just
    /// written.
    StoreRecord,
}

/// What a command ends in, for the caller to print.
pub enum Output {
    /// A record served from the local store.
    GotRecord { key: Vec<u8>, value: Vec<u8> },
    /// A network GET succeeded; every observed `(peer, record)` pair is
    /// surfaced, conflicts left to the caller.
    GotRecords { key: Vec<u8>, pairs: Vec<PeerRecord> },
    PutDone { key: Vec<u8> },
    GetFailed { key: Vec<u8>, reason: DhtError },
    PutFailed { key: Vec<u8>, reason: DhtError },
    /// The input line was not a well-formed command; nothing started.
    UsageError,
}

/// What the caller must do after an event: send a request to a peer, or
/// deliver an outcome to whoever issued the command.
pub enum Action {
    Send { query: u64, to: PeerId, request: RequestKind, key: Vec<u8> },
    Deliver(Output),
}

/// The node: every piece of state the dispatch loop owns.
pub struct Node {
    pub local: PeerId,
    pub table: RoutingTable,
    pub store: RecordStore,
    pub queries: Vec<Query>,
    pub next_id: u64,
    /// Concurrency factor: outstanding requests kept per query.
    pub alpha: usize,
    /// Responses required for a query to succeed.
    pub quorum: usize,
    /// Time budget of a query; its deadline is issue time plus this.
    pub ttl: u64,
}

/// `a` sends `request` for `key` to `to` on behalf of query `qid`.
pub open spec fn is_send_to(a: Action, qid: u64, to: PeerId, request: RequestKind, key: Seq<u8>) -> bool {
    match a {
        Action::Send { query, to: t, request: r, key: k } => {
            &&& query == qid
            &&& t == to
            &&& r == request
            &&& k@ == key
        },
        Action::Deliver(_) => false,
    }
}

/// The request kind a query's kind calls for.
pub open spec fn request_of(kind: QueryKind) -> RequestKind {
    if kind is Get {
        RequestKind::FindRecord
    } else {
        RequestKind::StoreRecord
    }
}

/// `actions` is exactly one send per peer of `out`, in order, on behalf
/// of query `q`.
pub open spec fn sends_for(q: Query, out: Seq<PeerId>, actions: Seq<Action>) -> bool {
    &&& actions.len() == out.len()
    &&& forall|a: int|
        0 <= a < actions.len() ==> is_send_to(
            #[trigger] actions[a],
            q.id,
            out[a],
            request_of(q.kind),
            q.key@,
        )
}

/// The same observed `(peer, record)` pairs, record for record.
pub open spec fn pairs_match(pairs: Seq<PeerRecord>, found: Seq<PeerRecord>) -> bool {
    &&& pairs.len() == found.len()
    &&& forall|a: int|
        0 <= a < pairs.len() ==> {
            &&& (#[trigger] pairs[a]).from == found[a].from
            &&& pairs[a].record.key@ == found[a].record.key@
            &&& pairs[a].record.data() == found[a].record.data()
        }
}

/// How many of the first `upto` queries are in flight at or past their
/// deadline at `now`.
pub open spec fn count_timed(qs: Seq<Query>, now: u64, upto: int) -> int
    decreases upto,
{
    if upto <= 0 {
        0
    } else {
        count_timed(qs, now, upto - 1) + if qs[upto - 1].status is InFlight && now >= qs[upto
            - 1].deadline {
            1int
        } else {
            0int
        }
    }
}

/// `a` reports the terminal outcome of query `q`.
pub open spec fn is_report_of(a: Action, q: Query) -> bool {
    match a {
        Action::Deliver(o) => match o {
            Output::GotRecords { key, pairs } => {
                &&& q.kind is Get
                &&& q.status is Succeeded
                &&& key@ == q.key@
                &&& pairs_match(pairs@, q.found@)
            },
            Output::PutDone { key } => {
                &&& q.kind is Put
                &&& q.status is Succeeded
                &&& key@ == q.key@
            },
            Output::GetFailed { key, reason } => {
                &&& q.kind is Get
                &&& q.status == QueryStatus::Failed(reason)
                &&& key@ == q.key@
            },
            Output::PutFailed { key, reason } => {
                &&& q.kind is Put
                &&& q.status == QueryStatus::Failed(reason)
                &&& key@ == q.key@
            },
            _ => false,
        },
        Action::Send { .. } => false,
    }
}

impl Node {
    /// Well-formedness: the parts are well-formed, the table is built
    /// around this node's identity, query ids are distinct and below
    /// the id counter, and the configured factors are positive.
    pub open spec fn wf(self) -> bool {
        &&& self.table.wf()
        &&& self.store.wf()
        &&& self.table.local == self.local
        &&& self.alpha >= 1
        &&& self.quorum >= 1
        &&& forall|j: int| 0 <= j < self.queries@.len() ==> (#[trigger] self.queries@[j]).wf()
        &&& forall|j: int| 0 <= j < self.queries@.len() ==> (#[trigger] self.queries@[j]).id < self.next_id
        &&& forall|j1: int, j2: int|
            0 <= j1 < j2 < self.queries@.len() ==> (#[trigger] self.queries@[j1]).id != (
            #[trigger] self.queries@[j2]).id
    }

    /// Everything but the query list and the observation counter stands
    /// still.
    pub open spec fn same_but_queries(pre: Self, post: Self) -> bool {
        &&& post.local == pre.local
        &&& post.table == pre.table
        &&& post.store == pre.store
        &&& post.next_id == pre.next_id
        &&& post.alpha == pre.alpha
        &&& post.quorum == pre.quorum
        &&& post.ttl == pre.ttl
    }

    /// A fresh node around `local`: an empty table with replication
    /// factor `k`, an empty store holding up to `cap` records, no
    /// queries.
    pub fn new(local: PeerId, k: usize, cap: usize, alpha: usize, quorum: usize, ttl: u64) -> (n: Node)
        requires
            k >= 1,
            alpha >= 1,
            quorum >= 1,
        ensures
            n.wf(),
            n.local == local,
            n.table.k == k,
            n.table.total() == 0,
            n.store.cap == cap,
            n.store@ == Map::<Seq<u8>, crate::store::RecordData>::empty(),
            n.queries@.len() == 0,
            n.alpha == alpha,
            n.quorum == quorum,
            n.ttl == ttl,
            n.next_id == 0,
    {
        Node {
            local,
            table: RoutingTable::new(local, k),
            store: RecordStore::new(cap),
            queries: Vec::new(),
            next_id: 0,
            alpha,
            quorum,
            ttl,
        }
    }

    /// How a discovery event moves the node: the pair feeds the routing
    /// table (a refresh once the observation counter is spent), nothing
    /// else moves, and no action results.
    pub open spec fn discovery_step(pre: Self, post: Self, peer: PeerId, addr: Address) -> bool {
        &&& post.store == pre.store
        &&& post.queries == pre.queries
        &&& post.local == pre.local
        &&& post.next_id == pre.next_id
        &&& post.alpha == pre.alpha
        &&& post.quorum == pre.quorum
        &&& post.ttl == pre.ttl
        &&& if peer != pre.local && pre.table.next_order < u64::MAX {
            RoutingTable::observe_post(pre.table, post.table, peer, addr)
        } else {
            post.table == pre.table
        }
    }

    /// How a response event moves the node: only the query carrying the
    /// event's id steps (first by the response, then by handing out its
    /// next contacts); a terminal transition is reported instead. An id
    /// no query carries — in particular one whose query already ended
    /// and was dropped, or a stale duplicate — does nothing.
    pub open spec fn response_event_step(
        pre: Self,
        post: Self,
        id: u64,
        from: PeerId,
        payload: ResponsePayload,
        actions: Seq<Action>,
    ) -> bool {
        &&& Self::same_but_queries(pre, post)
        &&& post.queries@.len() == pre.queries@.len()
        &&& forall|j: int|
            0 <= j < pre.queries@.len() && (#[trigger] pre.queries@[j]).id != id ==> post.queries@[j]
                == pre.queries@[j]
        &&& forall|j: int|
            0 <= j < pre.queries@.len() && (#[trigger] pre.queries@[j]).id == id
                ==> exists|mid: Query, out: Seq<PeerId>|
                {
                    &&& Query::response_step(pre.queries@[j], mid, from, payload)
                    &&& Query::contacts_step(mid, post.queries@[j], out, pre.alpha as int)
                    &&& if pre.queries@[j].status is InFlight && !(mid.status is InFlight) {
                        actions.len() == 1 && is_report_of(actions[0], mid)
                    } else {
                        sends_for(mid, out, actions)
                    }
                }
        &&& (forall|j: int|
            0 <= j < pre.queries@.len() ==> (#[trigger] pre.queries@[j]).id != id) ==> (
        post.queries@ == pre.queries@ && actions.len() == 0)
    }

    /// How the clock moves the node: every in-flight query at or past
    /// its deadline fails with `QueryTimeout` and is reported (one
    /// report per such query); every other query stands still.
    pub open spec fn timeout_step(pre: Self, post: Self, now: u64, actions: Seq<Action>) -> bool {
        &&& Self::same_but_queries(pre, post)
        &&& post.queries@.len() == pre.queries@.len()
        &&& forall|j: int|
            0 <= j < pre.queries@.len() ==> {
                let q = #[trigger] pre.queries@[j];
                if q.status is InFlight && now >= q.deadline {
                    post.queries@[j] == (Query {
                        status: QueryStatus::Failed(DhtError::QueryTimeout),
                        ..q
                    })
                } else {
                    post.queries@[j] == q
                }
            }
        &&& actions.len() == count_timed(pre.queries@, now, pre.queries@.len() as int)
    }

    /// Routes one event: discovery feeds the routing table, a response
    /// feeds the query carrying its id, the clock fails what is past
    /// its deadline.
    pub fn handle_event(&mut self, event: Event) -> (actions: Vec<Action>)
        requires
            old(self).wf(),
        ensures
            final(self).wf(),
            match event {
                Event::Discovery { peer, addr } => Self::discovery_step(
                    *old(self),
                    *final(self),
                    peer,
                    addr,
                ) && actions@.len() == 0,
                Event::QueryResponse { id, from, payload } => Self::response_event_step(
                    *old(self),
                    *final(self),
                    id,
                    from,
                    payload,
                    actions@,
                ),
                Event::Timeout { now } => Self::timeout_step(*old(self), *final(self), now, actions@),
            },
    {
        match event {
            Event::Discovery { peer, addr } => {
                if peer.id != self.local.id && self.table.next_order < u64::MAX {
                    self.table.record_observation(peer, addr);
                }
                Vec::new()
            },
            Event::QueryResponse { id, from, payload } => self.handle_response(id, from, payload),
            Event::Timeout { now } => self.check_timeouts(now),
        }
    }

    /// Feeds a response to the query carrying `id`, then keeps that
    /// query's outstanding contacts topped up or reports its end.
    #[verifier::spinoff_prover]
    fn handle_response(&mut self, id: u64, from: PeerId, payload: ResponsePayload) -> (actions: Vec<
        Action,
    >)
        requires
            old(self).wf(),
        ensures
            final(self).wf(),
            Self::response_event_step(*old(self), *final(self), id, from, payload, actions@),
    {
        let mut j: usize = 0;
        let n = self.queries.len();
        while j < n
            invariant
                old(self).wf(),
                *self == *old(self),
                n == self.queries@.len(),
                j <= n,
                forall|m: int| 0 <= m < j ==> (#[trigger] self.queries@[m]).id != id,
            decreases n - j,
        {
            if self.queries[j].id == id {
                let ghost pre_q = self.queries@[j as int];
                proof {
                    assert(old(self).queries@[j as int].wf());
                    assert(pre_q.wf());
                    assert forall|m: int|
                        0 <= m < old(self).queries@.len() && (#[trigger] old(self).queries@[m]).id
                            == id implies m == j as int by {
                        if m < j as int {
                            assert(old(self).queries@[m].id != old(self).queries@[j as int].id);
                        } else if m > j as int {
                            assert(old(self).queries@[j as int].id != old(self).queries@[m].id);
                        }
                    }
                }
                let was_inflight = match self.queries[j].status {
                    QueryStatus::InFlight => true,
                    _ => false,
                };
                let alpha = self.alpha;
                let q = query_mut(&mut self.queries, j);
                q.on_response(from, payload);
                let ghost mid_q = *q;
                let now_inflight = match q.status {
                    QueryStatus::InFlight => true,
                    _ => false,
                };
                if was_inflight && !now_inflight {
                    let report = report_action(q);
                    let mut actions: Vec<Action> = Vec::new();
                    actions.push(report);
                    proof {
                        assert(self.queries@[j as int] == mid_q);
                        assert(Query::response_step(pre_q, mid_q, from, payload));
                        assert(Query::contacts_step(
                            mid_q,
                            self.queries@[j as int],
                            Seq::<PeerId>::empty(),
                            alpha as int,
                        ));
                        assert(actions@.len() == 1 && is_report_of(actions@[0], mid_q));
                        assert forall|m: int|
                            0 <= m < self.queries@.len() && m != j as int implies (
                        #[trigger] self.queries@[m]).wf() by {
                            assert(self.queries@[m] == old(self).queries@[m]);
                        }
                        lemma_same_ids(*old(self), *self, j as int);
                    }
                    return actions;
                }
                let out = q.take_next_contacts(alpha);
                let actions = send_actions(q, &out);
                proof {
                    assert(Query::response_step(pre_q, mid_q, from, payload));
                    assert(Query::contacts_step(mid_q, self.queries@[j as int], out@, alpha as int));
                    assert(sends_for(mid_q, out@, actions@));
                    assert forall|m: int|
                        0 <= m < self.queries@.len() && m != j as int implies (
                    #[trigger] self.queries@[m]).wf() by {
                        assert(self.queries@[m] == old(self).queries@[m]);
                    }
                    lemma_same_ids(*old(self), *self, j as int);
                }
                return actions;
            }
            j = j + 1;
        }
        Vec::new()
    }

    /// Fails every in-flight query at or past its deadline, reporting
    /// each.
    #[verifier::spinoff_prover]
    #[verifier::rlimit(60)]
    fn check_timeouts(&mut self, now: u64) -> (actions: Vec<Action>)
        requires
            old(self).wf(),
        ensures
            final(self).wf(),
            Self::timeout_step(*old(self), *final(self), now, actions@),
    {
        let mut actions: Vec<Action> = Vec::new();
        let mut j: usize = 0;
        let n = self.queries.len();
        while j < n
            invariant
                Self::same_but_queries(*old(self), *self),
                old(self).wf(),
                n == self.queries@.len(),
                n == old(self).queries@.len(),
                j <= n,
                forall|m: int| j <= m < n ==> self.queries@[m] == old(self).queries@[m],
                forall|m: int|
                    0 <= m < j ==> {
                        let q = #[trigger] old(self).queries@[m];
                        if q.status is InFlight && now >= q.deadline {
                            self.queries@[m] == (Query {
                                status: QueryStatus::Failed(DhtError::QueryTimeout),
                                ..q
                            })
                        } else {
                            self.queries@[m] == q
                        }
                    },
                actions@.len() == count_timed(old(self).queries@, now, j as int),
            decreases n - j,
        {
            let was_inflight = match self.queries[j].status {
                QueryStatus::InFlight => true,
                _ => false,
            };
            let ghost pre_qs = self.queries@;
            if was_inflight && now >= self.queries[j].deadline {
                let q = query_mut(&mut self.queries, j);
                q.check_timeout(now);
                let report = report_action(q);
                actions.push(report);
                proof {
                    assert(forall|m: int|
                        0 <= m < n && m != j as int ==> self.queries@[m] == pre_qs[m]);
                }
            }
            j = j + 1;
        }
        proof {
            assert forall|m: int| 0 <= m < self.queries@.len() implies (
            #[trigger] self.queries@[m]).wf() && (#[trigger] self.queries@[m]).id == old(
                self,
            ).queries@[m].id by {
                let q = old(self).queries@[m];
                assert(q.wf());
                if q.status is InFlight && now >= q.deadline {
                    assert(self.queries@[m] == (Query {
                        status: QueryStatus::Failed(DhtError::QueryTimeout),
                        ..q
                    }));
                } else {
                    assert(self.queries@[m] == q);
                }
            }
        }
        actions
    }
}

/// Borrows query `j` mutably.
pub(crate) fn query_mut(v: &mut Vec<Query>, j: usize) -> (r: &mut Query)
    requires
        j < old(v).len(),
    ensures
        *r == old(v)@[j as int],
        final(v)@ == old(v)@.update(j as int, *final(r)),
{
    &mut v[j]
}

/// The action reporting a finished query's outcome.
fn report_action(q: &Query) -> (a: Action)
    requires
        !(q.status is InFlight),
    ensures
        is_report_of(a, *q),
{
    let key = q.key.clone();
    proof {
        assert(key@ =~= q.key@);
    }
    match q.status {
        QueryStatus::Succeeded => {
            match q.kind {
                QueryKind::Get => {
                    let mut pairs: Vec<PeerRecord> = Vec::new();
                    let mut m: usize = 0;
                    while m < q.found.len()
                        invariant
                            m <= q.found@.len(),
                            pairs@.len() == m,
                            forall|a: int|
                                0 <= a < m ==> {
                                    &&& (#[trigger] pairs@[a]).from == q.found@[a].from
                                    &&& pairs@[a].record.key@ == q.found@[a].record.key@
                                    &&& pairs@[a].record.data() == q.found@[a].record.data()
                                },
                        decreases q.found@.len() - m,
                    {
                        let from = q.found[m].from;
                        let record = q.found[m].record.clone();
                        pairs.push(PeerRecord { from, record });
                        m = m + 1;
                    }
                    Action::Deliver(Output::GotRecords { key, pairs })
                },
                QueryKind::Put => Action::Deliver(Output::PutDone { key }),
            }
        },
        QueryStatus::Failed(reason) => {
            match q.kind {
                QueryKind::Get => Action::Deliver(Output::GetFailed { key, reason }),
                QueryKind::Put => Action::Deliver(Output::PutFailed { key, reason }),
            }
        },
        QueryStatus::InFlight => Action::Deliver(Output::UsageError),
    }
}

/// One send per contact, on behalf of `q`.
pub(crate) fn send_actions(q: &Query, out: &Vec<PeerId>) -> (actions: Vec<Action>)
    ensures
        sends_for(*q, out@, actions@),
{
    let request = match q.kind {
        QueryKind::Get => RequestKind::FindRecord,
        QueryKind::Put => RequestKind::StoreRecord,
    };
    let mut actions: Vec<Action> = Vec::new();
    let mut m: usize = 0;
    while m < out.len()
        invariant
            m <= out@.len(),
            actions@.len() == m,
            request == request_of(q.kind),
            forall|a: int|
                0 <= a < m ==> is_send_to(#[trigger] actions@[a], q.id, out@[a], request_of(q.kind), q.key@),
        decreases out@.len() - m,
    {
        let key = q.key.clone();
        proof {
            assert(key@ =~= q.key@);
        }
        actions.push(Action::Send { query: q.id, to: out[m], request, key });
        m = m + 1;
    }
    actions
}

/// A step that touches only queries keeps ids in place.
proof fn lemma_same_ids(pre: Node, post: Node, j: int)
    requires
        pre.wf(),
        post.queries@.len() == pre.queries@.len(),
        forall|m: int| 0 <= m < pre.queries@.len() && m != j ==> post.queries@[m] == pre.queries@[m],
        0 <= j < pre.queries@.len(),
        post.queries@[j].id == pre.queries@[j].id,
        post.queries@[j].wf(),
        Node::same_but_queries(pre, post),
        forall|m: int| 0 <= m < pre.queries@.len() && m != j ==> (#[trigger] post.queries@[m]).wf(),
    ensures
        post.wf(),
{
}

} // verus!
