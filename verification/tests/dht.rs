use nettest::DhtError;
use nettest::dispatch::{Action, Event, Node, Output};
use nettest::handler::handle_input_line;
use nettest::id::{Address, PeerId, bucket_index, key_id};
use nettest::query::{QueryStatus, ResponsePayload};
use nettest::routing::RoutingTable;
use nettest::store::{Record, RecordStore};

fn pid(x: u64) -> PeerId {
    PeerId { id: x }
}

fn addr(p: u16) -> Address {
    Address { host: 1, port: p }
}

fn new_node() -> Node {
    Node::new(pid(1), 20, 16, 3, 1, 1000)
}

fn rec(key: &[u8], value: &[u8]) -> Record {
    Record { key: key.to_vec(), value: value.to_vec(), publisher: None, expires: None }
}

#[test]
fn bucket_placement_unique() {
    let mut t = RoutingTable::new(pid(0), 2);
    t.record_observation(pid(4), addr(1));
    t.record_observation(pid(5), addr(2));
    // distances 4 and 5 from local 0 both fall in bucket 2: [4, 8)
    assert_eq!(t.buckets[2].len(), 2);
    let mut occurrences = 0;
    for b in &t.buckets {
        for e in b {
            if e.peer.id == 4 {
                occurrences += 1;
            }
        }
    }
    assert_eq!(occurrences, 1);
}

#[test]
fn full_bucket_evicts_oldest() {
    let mut t = RoutingTable::new(pid(0), 2);
    t.record_observation(pid(4), addr(1));
    t.record_observation(pid(5), addr(2));
    t.record_observation(pid(6), addr(3));
    assert_eq!(t.buckets[2].len(), 2);
    assert_eq!(t.buckets[2][0].peer.id, 5);
    assert_eq!(t.buckets[2][1].peer.id, 6);
}

#[test]
fn refresh_unions_addresses() {
    let mut t = RoutingTable::new(pid(0), 2);
    t.record_observation(pid(4), addr(1));
    t.record_observation(pid(4), addr(2));
    t.record_observation(pid(4), addr(2));
    assert_eq!(t.buckets[2].len(), 1);
    assert_eq!(t.buckets[2][0].addrs.len(), 2);
}

#[test]
fn closest_two_of_three() {
    // peers A (distance 1), B (distance 5), C (distance 3) from target 8
    let target: u64 = 8;
    let mut t = RoutingTable::new(pid(100), 20);
    t.record_observation(pid(target ^ 1), addr(1));
    t.record_observation(pid(target ^ 5), addr(2));
    t.record_observation(pid(target ^ 3), addr(3));
    let res = t.closest_peers(target, 2);
    assert_eq!(res.len(), 2);
    assert_eq!(res[0].id, target ^ 1);
    assert_eq!(res[1].id, target ^ 3);
}

#[test]
fn closest_sorted_and_bounded() {
    let mut t = RoutingTable::new(pid(0), 20);
    for x in [9u64, 33, 2, 17, 5] {
        t.record_observation(pid(x), addr(1));
    }
    let res = t.closest_peers(12, 10);
    assert_eq!(res.len(), 5);
    for w in res.windows(2) {
        assert!((w[0].id ^ 12) <= (w[1].id ^ 12));
    }
    assert_eq!(t.closest_peers(12, 3).len(), 3);
}

#[test]
fn store_read_after_write() {
    let mut s = RecordStore::new(4);
    s.put(rec(b"foo", b"bar")).unwrap();
    let got = s.get(&b"foo".to_vec()).unwrap();
    assert_eq!(got.value, b"bar".to_vec());
    s.put(rec(b"foo", b"baz")).unwrap();
    assert_eq!(s.get(&b"foo".to_vec()).unwrap().value, b"baz".to_vec());
    assert!(s.get(&b"nope".to_vec()).is_none());
}

#[test]
fn store_capacity_failure() {
    let mut s = RecordStore::new(1);
    s.put(rec(b"a", b"1")).unwrap();
    let e = s.put(rec(b"b", b"2")).unwrap_err();
    assert_eq!(e, DhtError::LocalStoreFailure);
    s.put(rec(b"a", b"3")).unwrap();
}

#[test]
fn get_empty_table_fails_immediately() {
    let mut node = new_node();
    let actions = handle_input_line(&mut node, &b"GET foo".to_vec(), 0);
    assert_eq!(actions.len(), 1);
    match &actions[0] {
        Action::Deliver(Output::GetFailed { key, reason }) => {
            assert_eq!(key, &b"foo".to_vec());
            assert_eq!(*reason, DhtError::RoutingTableEmpty);
        }
        _ => panic!("expected a GET failure, no network call"),
    }
}

#[test]
fn put_then_get_served_locally() {
    let mut node = new_node();
    let _ = handle_input_line(&mut node, &b"PUT foo bar".to_vec(), 0);
    let actions = handle_input_line(&mut node, &b"GET foo".to_vec(), 1);
    assert_eq!(actions.len(), 1);
    match &actions[0] {
        Action::Deliver(Output::GotRecord { key, value }) => {
            assert_eq!(key, &b"foo".to_vec());
            assert_eq!(value, &b"bar".to_vec());
        }
        _ => panic!("expected got record foo bar"),
    }
}

#[test]
fn get_with_one_peer_succeeds() {
    let mut node = new_node();
    let peer = pid(7);
    let none = node.handle_event(Event::Discovery { peer, addr: addr(1) });
    assert!(none.is_empty());
    let actions = handle_input_line(&mut node, &b"GET foo".to_vec(), 0);
    assert_eq!(actions.len(), 1);
    match &actions[0] {
        Action::Send { query, to, .. } => {
            assert_eq!(*query, 0);
            assert_eq!(to.id, 7);
        }
        _ => panic!("expected a find-record request"),
    }
    let reply = node.handle_event(Event::QueryResponse {
        id: 0,
        from: peer,
        payload: ResponsePayload::FoundRecord(rec(b"foo", b"bar")),
    });
    assert_eq!(reply.len(), 1);
    match &reply[0] {
        Action::Deliver(Output::GotRecords { key, pairs }) => {
            assert_eq!(key, &b"foo".to_vec());
            assert_eq!(pairs.len(), 1);
            assert_eq!(pairs[0].from.id, 7);
            assert_eq!(pairs[0].record.value, b"bar".to_vec());
        }
        _ => panic!("expected the record back"),
    }
    assert!(matches!(node.queries[0].status, QueryStatus::Succeeded));
}

#[test]
fn timeout_then_late_response_ignored() {
    let mut node = new_node();
    let peer = pid(7);
    node.handle_event(Event::Discovery { peer, addr: addr(1) });
    handle_input_line(&mut node, &b"GET foo".to_vec(), 0);
    let reports = node.handle_event(Event::Timeout { now: 1000 });
    assert_eq!(reports.len(), 1);
    assert!(matches!(
        node.queries[0].status,
        QueryStatus::Failed(DhtError::QueryTimeout)
    ));
    let late = node.handle_event(Event::QueryResponse {
        id: 0,
        from: peer,
        payload: ResponsePayload::FoundRecord(rec(b"foo", b"bar")),
    });
    assert!(late.is_empty());
    assert!(matches!(
        node.queries[0].status,
        QueryStatus::Failed(DhtError::QueryTimeout)
    ));
    assert!(node.queries[0].found.is_empty());
}

#[test]
fn bad_commands_are_usage_errors() {
    let mut node = new_node();
    for line in [&b"FROB x"[..], b"GET", b"PUT k", b""] {
        let actions = handle_input_line(&mut node, &line.to_vec(), 0);
        assert_eq!(actions.len(), 1);
        assert!(matches!(&actions[0], Action::Deliver(Output::UsageError)));
    }
    assert!(node.queries.is_empty());
}

#[test]
fn key_id_is_deterministic() {
    let foo = key_id(&b"foo".to_vec());
    assert_eq!(foo, ((102u64 * 256) + 111) * 256 + 111);
    assert_eq!(foo, key_id(&b"foo".to_vec()));
    assert_ne!(foo, key_id(&b"bar".to_vec()));
}

#[test]
fn bucket_index_ranges() {
    assert_eq!(bucket_index(1), 0);
    assert_eq!(bucket_index(2), 1);
    assert_eq!(bucket_index(3), 1);
    assert_eq!(bucket_index(4), 2);
    assert_eq!(bucket_index(u64::MAX), 63);
}
