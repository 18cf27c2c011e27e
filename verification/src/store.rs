//! The local record store: a bounded key→record table, authoritative
//! for the records this node holds. A PUT replaces by key; a GET that
//! can be answered here is a fast path that never touches the network.

use vstd::prelude::*;
use crate::DhtError;
use crate::id::PeerId;

verus! {

/// A stored record: an opaque key, the bytes stored under it, and the
/// optional provenance the overlay protocol carries along.
pub struct Record {
    pub key: Vec<u8>,
    pub value: Vec<u8>,
    pub publisher: Option<PeerId>,
    pub expires: Option<u64>,
}

/// The mathematical content of a record apart from its key.
pub ghost struct RecordData {
    pub value: Seq<u8>,
    pub publisher: Option<PeerId>,
    pub expires: Option<u64>,
}

impl Record {
    /// What this record binds its key to.
    pub open spec fn data(self) -> RecordData {
        RecordData { value: self.value@, publisher: self.publisher, expires: self.expires }
    }
}

impl Clone for Record {
    fn clone(&self) -> (r: Self)
        ensures
            r.key@ == self.key@,
            r.data() == self.data(),
    {
        let key = self.key.clone();
        let value = self.value.clone();
        proof {
            assert(key@ =~= self.key@);
            assert(value@ =~= self.value@);
        }
        Record { key, value, publisher: self.publisher, expires: self.expires }
    }
}

/// The key→data table a sequence of records denotes, later records
/// shadowing earlier ones.
pub open spec fn map_of(s: Seq<Record>) -> Map<Seq<u8>, RecordData>
    decreases s.len(),
{
    if s.len() == 0 {
        Map::empty()
    } else {
        map_of(s.drop_last()).insert(s.last().key@, s.last().data())
    }
}

/// With pairwise-distinct keys, the table holds exactly the records'
/// keys, each bound to its record's data.
proof fn lemma_map_of_props(s: Seq<Record>)
    requires
        forall|i: int, j: int| 0 <= i < j < s.len() ==> (#[trigger] s[i]).key@ != (#[trigger] s[j]).key@,
    ensures
        forall|k: Seq<u8>|
            map_of(s).contains_key(k) <==> exists|i: int| 0 <= i < s.len() && (#[trigger] s[i]).key@ == k,
        forall|i: int|
            0 <= i < s.len() ==> map_of(s)[(#[trigger] s[i]).key@] == s[i].data(),
    decreases s.len(),
{
    if s.len() > 0 {
        let d = s.drop_last();
        lemma_map_of_props(d);
        assert forall|k: Seq<u8>| map_of(s).contains_key(k) implies exists|i: int|
            0 <= i < s.len() && (#[trigger] s[i]).key@ == k by {
            if k == s.last().key@ {
                assert(s[s.len() - 1].key@ == k);
            } else {
                let i = choose|i: int| 0 <= i < d.len() && (#[trigger] d[i]).key@ == k;
                assert(s[i].key@ == k);
            }
        }
        assert forall|k: Seq<u8>| (exists|i: int| 0 <= i < s.len() && (#[trigger] s[i]).key@ == k)
            implies map_of(s).contains_key(k) by {
            let i = choose|i: int| 0 <= i < s.len() && (#[trigger] s[i]).key@ == k;
            if i < s.len() - 1 {
                assert(d[i].key@ == k);
            }
        }
        assert forall|i: int| 0 <= i < s.len() implies map_of(s)[(#[trigger] s[i]).key@]
            == s[i].data() by {
            if i < s.len() - 1 {
                assert(d[i].key@ == s[i].key@);
                assert(s[i].key@ != s.last().key@);
            }
        }
    }
}

/// Replacing the record at `j` by one with the same key updates just
/// that key's binding.
proof fn lemma_map_of_update(s: Seq<Record>, j: int, rec: Record)
    requires
        forall|i1: int, i2: int|
            0 <= i1 < i2 < s.len() ==> (#[trigger] s[i1]).key@ != (#[trigger] s[i2]).key@,
        0 <= j < s.len(),
        rec.key@ == s[j].key@,
    ensures
        map_of(s.update(j, rec)) == map_of(s).insert(rec.key@, rec.data()),
    decreases s.len(),
{
    let t = s.update(j, rec);
    if j == s.len() - 1 {
        assert(t.drop_last() =~= s.drop_last());
        assert(t.last() == rec);
        assert(map_of(t) =~= map_of(s).insert(rec.key@, rec.data()));
    } else {
        let d = s.drop_last();
        assert(t.drop_last() =~= d.update(j, rec));
        assert(t.last() == s.last());
        lemma_map_of_update(d, j, rec);
        assert(d[j].key@ == s[j].key@);
        assert(s.last().key@ != rec.key@);
        assert(map_of(t) =~= map_of(s).insert(rec.key@, rec.data()));
    }
}

/// Appending a record binds its key and nothing else.
proof fn lemma_map_of_push(s: Seq<Record>, rec: Record)
    ensures
        map_of(s.push(rec)) == map_of(s).insert(rec.key@, rec.data()),
{
    let t = s.push(rec);
    assert(t.drop_last() =~= s);
    assert(t.last() == rec);
    assert(map_of(t) =~= map_of(s).insert(rec.key@, rec.data()));
}

/// Whether two byte strings hold the same bytes.
pub fn bytes_eq(a: &Vec<u8>, b: &Vec<u8>) -> (r: bool)
    ensures
        r == (a@ == b@),
{
    if a.len() != b.len() {
        return false;
    }
    let mut j: usize = 0;
    while j < a.len()
        invariant
            a@.len() == b@.len(),
            j <= a@.len(),
            forall|m: int| 0 <= m < j ==> a@[m] == b@[m],
        decreases a@.len() - j,
    {
        if a[j] != b[j] {
            return false;
        }
        j = j + 1;
    }
    proof {
        assert(a@ =~= b@);
    }
    true
}

/// Bounded local key→record table.
pub struct RecordStore {
    pub records: Vec<Record>,
    /// Most records the store accepts; a PUT of a new key beyond it is
    /// a local store failure.
    pub cap: usize,
}

impl View for RecordStore {
    type V = Map<Seq<u8>, RecordData>;

    open spec fn view(&self) -> Map<Seq<u8>, RecordData> {
        map_of(self.records@)
    }
}

impl RecordStore {
    /// Well-formedness: records carry pairwise-distinct keys and fit
    /// the capacity.
    pub open spec fn wf(self) -> bool {
        &&& forall|i: int, j: int|
            0 <= i < j < self.records@.len() ==> (#[trigger] self.records@[i]).key@ != (
            #[trigger] self.records@[j]).key@
        &&& self.records@.len() <= self.cap
    }

    /// An empty store with room for `cap` records.
    pub fn new(cap: usize) -> (s: RecordStore)
        ensures
            s.wf(),
            s.cap == cap,
            s@ == Map::<Seq<u8>, RecordData>::empty(),
    {
        RecordStore { records: Vec::new(), cap }
    }

    /// Looks the key up locally; `None` is a locally answerable miss,
    /// distinct from any network failure.
    pub fn get(&self, key: &Vec<u8>) -> (r: Option<Record>)
        requires
            self.wf(),
        ensures
            match r {
                Some(rec) => self@.contains_key(key@) && rec.key@ == key@ && rec.data()
                    == self@[key@],
                None => !self@.contains_key(key@),
            },
    {
        proof {
            lemma_map_of_props(self.records@);
        }
        let mut j: usize = 0;
        while j < self.records.len()
            invariant
                self.wf(),
                j <= self.records@.len(),
                forall|m: int| 0 <= m < j ==> (#[trigger] self.records@[m]).key@ != key@,
            decreases self.records@.len() - j,
        {
            if bytes_eq(&self.records[j].key, key) {
                proof {
                    lemma_map_of_props(self.records@);
                }
                return Some(self.records[j].clone());
            }
            j = j + 1;
        }
        None
    }

    /// Inserts or replaces by key, trusted as local truth. Fails, and
    /// leaves the store unchanged, exactly when the key is new and the
    /// store is full.
    pub fn put(&mut self, rec: Record) -> (r: Result<(), DhtError>)
        requires
            old(self).wf(),
        ensures
            final(self).wf(),
            final(self).cap == old(self).cap,
            match r {
                Ok(()) => final(self)@ == old(self)@.insert(rec.key@, rec.data()),
                Err(e) => {
                    &&& e == DhtError::LocalStoreFailure
                    &&& *final(self) == *old(self)
                },
            },
            r is Ok <==> (old(self)@.contains_key(rec.key@) || old(self).records@.len() < old(
                self,
            ).cap),
    {
        proof {
            lemma_map_of_props(self.records@);
        }
        let mut j: usize = 0;
        while j < self.records.len()
            invariant
                *self == *old(self),
                self.wf(),
                j <= self.records@.len(),
                forall|m: int| 0 <= m < j ==> (#[trigger] self.records@[m]).key@ != rec.key@,
            decreases self.records@.len() - j,
        {
            if bytes_eq(&self.records[j].key, &rec.key) {
                proof {
                    lemma_map_of_update(self.records@, j as int, rec);
                    lemma_map_of_props(self.records@);
                    assert(self.records@[j as int].key@ == rec.key@);
                    assert(old(self)@.contains_key(rec.key@));
                }
                let slot = record_mut(&mut self.records, j);
                *slot = rec;
                return Ok(());
            }
            j = j + 1;
        }
        if self.records.len() < self.cap {
            proof {
                lemma_map_of_push(self.records@, rec);
            }
            self.records.push(rec);
            Ok(())
        } else {
            proof {
                lemma_map_of_props(self.records@);
            }
            Err(DhtError::LocalStoreFailure)
        }
    }
}

/// Borrows record `j` mutably.
fn record_mut(v: &mut Vec<Record>, j: usize) -> (r: &mut Record)
    requires
        j < old(v).len(),
    ensures
        *r == old(v)@[j as int],
        final(v)@ == old(v)@.update(j as int, *final(r)),
{
    &mut v[j]
}

/// Local read-after-write consistency: storing a record and then
/// reading its key back yields exactly the stored data, and no other
/// key's binding moves.
pub proof fn lemma_read_after_write(m: Map<Seq<u8>, RecordData>, key: Seq<u8>, d: RecordData)
    ensures
        m.insert(key, d).contains_key(key),
        m.insert(key, d)[key] == d,
        forall|k2: Seq<u8>| k2 != key ==> m.insert(key, d).contains_key(k2) == m.contains_key(k2),
        forall|k2: Seq<u8>|
            k2 != key && m.contains_key(k2) ==> m.insert(key, d)[k2] == m[k2],
{
}

} // verus!
