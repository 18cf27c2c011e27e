//! The command interface: one line of local input — `GET <key>` or
//! `PUT <key> <value>` — becomes a store fast path, a new query, or an
//! immediate error; the returned actions carry the requests to send and
//! the outcome to print.

use vstd::prelude::*;
use crate::DhtError;
use crate::dispatch::{Action, Node, Output, sends_for};
use crate::id::key_id_of;
use crate::query::{Query, QueryStatus, start_get, start_put};
use crate::store::Record;

verus! {

/// A parsed command line.
pub enum Command {
    Get { key: Vec<u8> },
    Put { key: Vec<u8>, value: Vec<u8> },
}

/// Index of the first space in `s`, or its length if there is none.
pub open spec fn first_space_at(s: Seq<u8>) -> int
    decreases s.len(),
{
    if s.len() == 0 {
        0
    } else if s[0] == 32 {
        0
    } else {
        1 + first_space_at(s.drop_first())
    }
}

/// The bytes before the first space.
pub open spec fn head_token(s: Seq<u8>) -> Seq<u8> {
    s.take(first_space_at(s))
}

/// Whether anything follows the first space.
pub open spec fn has_rest(s: Seq<u8>) -> bool {
    first_space_at(s) < s.len()
}

/// The bytes after the first space.
pub open spec fn rest_after(s: Seq<u8>) -> Seq<u8> {
    s.skip(first_space_at(s) + 1)
}

pub open spec fn get_token() -> Seq<u8> {
    seq![71u8, 69u8, 84u8]
}

pub open spec fn put_token() -> Seq<u8> {
    seq![80u8, 85u8, 84u8]
}

/// `GET <key> ...`: the first token is `GET` and a key token follows
/// (anything beyond the key is ignored).
pub open spec fn parses_as_get(s: Seq<u8>) -> bool {
    head_token(s) == get_token() && has_rest(s)
}

pub open spec fn get_key_of(s: Seq<u8>) -> Seq<u8> {
    head_token(rest_after(s))
}

/// `PUT <key> <value> ...`: the first token is `PUT` and a key and a
/// value token follow.
pub open spec fn parses_as_put(s: Seq<u8>) -> bool {
    head_token(s) == put_token() && has_rest(s) && has_rest(rest_after(s))
}

pub open spec fn put_key_of(s: Seq<u8>) -> Seq<u8> {
    head_token(rest_after(s))
}

pub open spec fn put_value_of(s: Seq<u8>) -> Seq<u8> {
    head_token(rest_after(rest_after(s)))
}

/// `first_space_at` is the index of the first space, in quantifier form.
proof fn lemma_first_space_at(s: Seq<u8>)
    ensures
        0 <= first_space_at(s) <= s.len(),
        forall|m: int| 0 <= m < first_space_at(s) ==> s[m] != 32,
        first_space_at(s) < s.len() ==> s[first_space_at(s)] == 32,
    decreases s.len(),
{
    if s.len() > 0 && s[0] != 32 {
        let d = s.drop_first();
        lemma_first_space_at(d);
        assert forall|m: int| 0 <= m < first_space_at(s) implies s[m] != 32 by {
            if m > 0 {
                assert(d[m - 1] != 32);
            }
        }
    }
}

/// Finds the first space at or after `from`.
fn find_space(s: &Vec<u8>, from: usize) -> (i: usize)
    requires
        from <= s@.len(),
    ensures
        from <= i <= s@.len(),
        i - from == first_space_at(s@.skip(from as int)),
    decreases s@.len() - from,
{
    proof {
        if from < s@.len() && s@[from as int] != 32 {
            assert(s@.skip(from as int).drop_first() =~= s@.skip(from + 1 as int));
        }
    }
    if from == s.len() {
        return from;
    }
    if s[from] == 32 {
        return from;
    }
    find_space(s, from + 1)
}

/// Copies `s[a..b]` out.
fn copy_range(s: &Vec<u8>, a: usize, b: usize) -> (r: Vec<u8>)
    requires
        a <= b <= s@.len(),
    ensures
        r@ == s@.subrange(a as int, b as int),
{
    let mut r: Vec<u8> = Vec::new();
    let mut m: usize = a;
    while m < b
        invariant
            a <= m <= b <= s@.len(),
            r@.len() == m - a,
            forall|x: int| 0 <= x < r@.len() ==> r@[x] == s@[a + x],
        decreases b - m,
    {
        r.push(s[m]);
        m = m + 1;
    }
    proof {
        assert(r@ =~= s@.subrange(a as int, b as int));
    }
    r
}

/// Parses one command line; anything that is not a well-formed `GET` or
/// `PUT` is a syntax error and starts nothing.
pub fn parse_command(line: &Vec<u8>) -> (r: Result<Command, DhtError>)
    ensures
        match r {
            Ok(c) => match c {
                Command::Get { key } => parses_as_get(line@) && key@ == get_key_of(line@),
                Command::Put { key, value } => parses_as_put(line@) && key@ == put_key_of(line@)
                    && value@ == put_value_of(line@),
            },
            Err(e) => e == DhtError::CommandSyntaxError && !parses_as_get(line@) && !parses_as_put(
                line@,
            ),
        },
{
    proof {
        assert(line@.skip(0) =~= line@);
    }
    let sp0 = find_space(line, 0);
    let is_get = sp0 == 3 && line[0] == 71 && line[1] == 69 && line[2] == 84;
    let is_put = sp0 == 3 && line[0] == 80 && line[1] == 85 && line[2] == 84;
    proof {
        assert(head_token(line@) =~= line@.subrange(0, first_space_at(line@)));
        if is_get {
            assert(head_token(line@) =~= get_token());
        }
        if is_put {
            assert(head_token(line@) =~= put_token());
        }
        if !is_get && !is_put {
            if head_token(line@) == get_token() {
                assert(first_space_at(line@) == 3);
                assert(head_token(line@)[0] == 71 && head_token(line@)[1] == 69 && head_token(
                    line@,
                )[2] == 84);
            }
            if head_token(line@) == put_token() {
                assert(first_space_at(line@) == 3);
                assert(head_token(line@)[0] == 80 && head_token(line@)[1] == 85 && head_token(
                    line@,
                )[2] == 84);
            }
        }
    }
    if !is_get && !is_put {
        return Err(DhtError::CommandSyntaxError);
    }
    if sp0 == line.len() {
        return Err(DhtError::CommandSyntaxError);
    }
    let r1 = sp0 + 1;
    let sp1 = find_space(line, r1);
    let key = copy_range(line, r1, sp1);
    proof {
        assert(rest_after(line@) =~= line@.skip(r1 as int));
        assert(head_token(line@.skip(r1 as int)) =~= line@.subrange(
            r1 as int,
            r1 + first_space_at(line@.skip(r1 as int)),
        ));
        assert(key@ =~= head_token(rest_after(line@)));
    }
    if is_get {
        return Ok(Command::Get { key });
    }
    if sp1 == line.len() {
        return Err(DhtError::CommandSyntaxError);
    }
    let r2 = sp1 + 1;
    let sp2 = find_space(line, r2);
    let value = copy_range(line, r2, sp2);
    proof {
        assert(rest_after(rest_after(line@)) =~= line@.skip(r2 as int));
        assert(head_token(line@.skip(r2 as int)) =~= line@.subrange(
            r2 as int,
            r2 + first_space_at(line@.skip(r2 as int)),
        ));
        assert(value@ =~= put_value_of(line@));
    }
    Ok(Command::Put { key, value })
}

/// The saturating deadline a query issued at `now` gets.
pub open spec fn deadline_of(now: u64, ttl: u64) -> u64 {
    if now + ttl > u64::MAX {
        u64::MAX
    } else {
        (now + ttl) as u64
    }
}

/// A new well-formed query was appended and the id counter moved past
/// it; nothing else in the node but the store may have moved.
pub open spec fn query_appended(pre: Node, post: Node) -> bool {
    &&& post.queries@.len() == pre.queries@.len() + 1
    &&& forall|m: int| 0 <= m < pre.queries@.len() ==> post.queries@[m] == pre.queries@[m]
    &&& post.queries@.last().wf()
    &&& post.queries@.last().id == pre.next_id
    &&& post.next_id == pre.next_id + 1
    &&& post.table == pre.table
    &&& post.local == pre.local
    &&& post.alpha == pre.alpha
    &&& post.quorum == pre.quorum
    &&& post.ttl == pre.ttl
}

/// Handles one line of local input. A syntax error is reported and
/// starts nothing. A GET answerable from the local store is answered
/// there, touching neither network nor node state. Otherwise a query is
/// started: its failure to start is reported at once (an empty routing
/// table contacts nobody; a full store fails the whole PUT), and a
/// started query is appended and its first contacts are sent.
pub fn handle_input_line(node: &mut Node, line: &Vec<u8>, now: u64) -> (actions: Vec<Action>)
    requires
        old(node).wf(),
        old(node).next_id < u64::MAX,
    ensures
        final(node).wf(),
        ({
            let s = line@;
            let pre = *old(node);
            let post = *final(node);
            if !parses_as_get(s) && !parses_as_put(s) {
                &&& post == pre
                &&& actions@ =~= seq![Action::Deliver(Output::UsageError)]
            } else if parses_as_get(s) {
                let key = get_key_of(s);
                if pre.store@.contains_key(key) {
                    &&& post == pre
                    &&& actions@.len() == 1
                    &&& is_local_got(actions@[0], key, pre.store@[key].value)
                } else if pre.table.total() == 0 {
                    &&& post == pre
                    &&& actions@.len() == 1
                    &&& is_failure_report(actions@[0], false, key, DhtError::RoutingTableEmpty)
                } else {
                    &&& query_appended(pre, post)
                    &&& post.store == pre.store
                    &&& post.queries@.last().kind is Get
                    &&& post.queries@.last().key@ == key
                    &&& post.queries@.last().quorum == pre.quorum
                    &&& post.queries@.last().deadline == deadline_of(now, pre.ttl)
                    &&& exists|q0: Query, out: Seq<crate::id::PeerId>|
                        {
                            &&& q0.wf()
                            &&& q0.status is InFlight
                            &&& q0.key@ == key
                            &&& q0.id == pre.next_id
                            &&& pre.table.is_closest_seed(
                                key_id_of(key),
                                pre.alpha as int,
                                q0.pending@,
                            )
                            &&& Query::contacts_step(
                                q0,
                                post.queries@.last(),
                                out,
                                pre.alpha as int,
                            )
                            &&& sends_for(q0, out, actions@)
                        }
                }
            } else {
                let key = put_key_of(s);
                let value = put_value_of(s);
                if !pre.store@.contains_key(key) && pre.store.records@.len() == pre.store.cap {
                    &&& post == pre
                    &&& actions@.len() == 1
                    &&& is_failure_report(actions@[0], true, key, DhtError::LocalStoreFailure)
                } else if pre.table.total() == 0 {
                    &&& post == (Node { store: post.store, ..pre })
                    &&& post.store@ == pre.store@.insert(
                        key,
                        crate::store::RecordData { value, publisher: None, expires: None },
                    )
                    &&& post.store.wf()
                    &&& actions@.len() == 1
                    &&& is_failure_report(actions@[0], true, key, DhtError::RoutingTableEmpty)
                } else {
                    &&& query_appended(pre, post)
                    &&& post.store@ == pre.store@.insert(
                        key,
                        crate::store::RecordData { value, publisher: None, expires: None },
                    )
                    &&& post.store.wf()
                    &&& post.queries@.last().kind is Put
                    &&& post.queries@.last().key@ == key
                    &&& post.queries@.last().quorum == pre.quorum
                    &&& post.queries@.last().deadline == deadline_of(now, pre.ttl)
                    &&& exists|q0: Query, out: Seq<crate::id::PeerId>|
                        {
                            &&& q0.wf()
                            &&& q0.status is InFlight
                            &&& q0.key@ == key
                            &&& q0.id == pre.next_id
                            &&& pre.table.is_closest_seed(
                                key_id_of(key),
                                pre.table.k as int,
                                q0.pending@,
                            )
                            &&& Query::contacts_step(
                                q0,
                                post.queries@.last(),
                                out,
                                pre.alpha as int,
                            )
                            &&& sends_for(q0, out, actions@)
                        }
                }
            }
        }),
{
    let parsed = parse_command(line);
    match parsed {
        Err(_) => {
            let mut actions: Vec<Action> = Vec::new();
            actions.push(Action::Deliver(Output::UsageError));
            actions
        },
        Ok(Command::Get { key }) => {
            let hit = node.store.get(&key);
            match hit {
                Some(rec) => {
                    let mut actions: Vec<Action> = Vec::new();
                    actions.push(Action::Deliver(Output::GotRecord { key, value: rec.value }));
                    actions
                },
                None => {
                    let deadline = saturating_deadline(now, node.ttl);
                    let key2 = key.clone();
                    proof {
                        assert(key2@ =~= key@);
                    }
                    let started = start_get(
                        &node.table,
                        key,
                        node.quorum,
                        node.next_id,
                        deadline,
                        node.alpha,
                    );
                    match started {
                        Err(e) => {
                            let mut actions: Vec<Action> = Vec::new();
                            actions.push(
                                Action::Deliver(Output::GetFailed { key: key2, reason: e }),
                            );
                            actions
                        },
                        Ok(q) => append_and_contact(node, q),
                    }
                },
            }
        },
        Ok(Command::Put { key, value }) => {
            let rec = Record { key, value, publisher: None, expires: None };
            let key2 = rec.key.clone();
            proof {
                assert(key2@ =~= rec.key@);
            }
            let deadline = saturating_deadline(now, node.ttl);
            let table = &node.table;
            let started = start_put(
                table,
                &mut node.store,
                rec,
                node.quorum,
                node.next_id,
                deadline,
            );
            match started {
                Err(e) => {
                    let mut actions: Vec<Action> = Vec::new();
                    actions.push(Action::Deliver(Output::PutFailed { key: key2, reason: e }));
                    actions
                },
                Ok(q) => append_and_contact(node, q),
            }
        },
    }
}

/// A locally served GET result for `key`.
pub open spec fn is_local_got(a: Action, key: Seq<u8>, value: Seq<u8>) -> bool {
    match a {
        Action::Deliver(o) => match o {
            Output::GotRecord { key: k, value: v } => k@ == key && v@ == value,
            _ => false,
        },
        _ => false,
    }
}

/// A failure report for the command on `key` (`for_put` says which
/// command) carrying `reason`.
pub open spec fn is_failure_report(a: Action, for_put: bool, key: Seq<u8>, reason: DhtError) -> bool {
    match a {
        Action::Deliver(o) => match o {
            Output::GetFailed { key: k, reason: r } => !for_put && k@ == key && r == reason,
            Output::PutFailed { key: k, reason: r } => for_put && k@ == key && r == reason,
            _ => false,
        },
        _ => false,
    }
}

/// `now + ttl`, capped at the clock's end.
fn saturating_deadline(now: u64, ttl: u64) -> (d: u64)
    ensures
        d == deadline_of(now, ttl),
{
    if now > u64::MAX - ttl {
        u64::MAX
    } else {
        now + ttl
    }
}

/// Appends a freshly started query and sends its first contacts.
fn append_and_contact(node: &mut Node, q: Query) -> (actions: Vec<Action>)
    requires
        old(node).wf(),
        old(node).next_id < u64::MAX,
        q.wf(),
        q.id == old(node).next_id,
        q.status is InFlight,
    ensures
        final(node).wf(),
        query_appended(*old(node), *final(node)),
        final(node).store == old(node).store,
        final(node).queries@.last().kind == q.kind,
        final(node).queries@.last().key@ == q.key@,
        final(node).queries@.last().quorum == q.quorum,
        final(node).queries@.last().deadline == q.deadline,
        exists|out: Seq<crate::id::PeerId>|
            Query::contacts_step(q, final(node).queries@.last(), out, old(node).alpha as int)
                && sends_for(q, out, actions@),
{
    let ghost q0 = q;
    node.next_id = node.next_id + 1;
    let alpha = node.alpha;
    node.queries.push(q);
    let n = node.queries.len();
    let qm = crate::dispatch::query_mut(&mut node.queries, n - 1);
    let out = qm.take_next_contacts(alpha);
    let actions = crate::dispatch::send_actions(qm, &out);
    proof {
        assert(Query::contacts_step(q0, node.queries@.last(), out@, alpha as int));
        assert(sends_for(q0, out@, actions@));
        let pre = *old(node);
        let post = *node;
        assert forall|j1: int, j2: int|
            0 <= j1 < j2 < post.queries@.len() implies (#[trigger] post.queries@[j1]).id != (
        #[trigger] post.queries@[j2]).id by {
            if j2 < pre.queries@.len() {
                assert(pre.queries@[j1].id != pre.queries@[j2].id);
            } else {
                assert(post.queries@[j1] == pre.queries@[j1]);
                assert(pre.queries@[j1].id < pre.next_id);
            }
        }
        assert forall|j: int| 0 <= j < post.queries@.len() implies (
        #[trigger] post.queries@[j]).wf() by {
            if j < pre.queries@.len() {
                assert(post.queries@[j] == pre.queries@[j]);
            }
        }
        assert forall|j: int| 0 <= j < post.queries@.len() implies (
        #[trigger] post.queries@[j]).id < post.next_id by {
            if j < pre.queries@.len() {
                assert(post.queries@[j] == pre.queries@[j]);
                assert(pre.queries@[j].id < pre.next_id);
            }
        }
    }
    actions
}

} // verus!
