//! The record store: the key-value substrate holding records at derived
//! addresses. Records are created at an unoccupied address, read, and
//! rewritten in place; a record may grow on write up to the store's
//! per-record byte limit. Lookup scans the entries in order; well-formed
//! stores never hold two entries at one address.

use vstd::prelude::*;
use crate::address::{Address, AddressV};
use crate::records::{UserProfile, UserProfileV, Network, NetworkV, ErrorCode};

verus! {

/// A record held by the store: either a user profile or a network.
pub enum StoredRecord {
    User(UserProfile),
    Network(Network),
}

/// The mathematical view of a `StoredRecord`.
#[verifier::ext_equal]
pub enum StoredRecordV {
    User(UserProfileV),
    Network(NetworkV),
}

impl View for StoredRecord {
    type V = StoredRecordV;

    open spec fn view(&self) -> StoredRecordV {
        match self {
            StoredRecord::User(u) => StoredRecordV::User(u@),
            StoredRecord::Network(n) => StoredRecordV::Network(n@),
        }
    }
}

/// One slot of the store: a derived address and the record it holds.
pub struct Entry {
    pub address: Address,
    pub record: StoredRecord,
}

/// The mathematical view of an `Entry`.
#[verifier::ext_equal]
pub struct EntryV {
    pub address: AddressV,
    pub record: StoredRecordV,
}

impl View for Entry {
    type V = EntryV;

    open spec fn view(&self) -> EntryV {
        EntryV { address: self.address@, record: self.record@ }
    }
}

/// An entry is well formed when the record kind matches the address
/// namespace, the record is well formed, and the record's own key field
/// equals the seed its address was derived from.
pub open spec fn entry_wf(e: EntryV) -> bool {
    match (e.address, e.record) {
        (AddressV::User { key }, StoredRecordV::User(u)) => u.wf() && u.authority == key,
        (AddressV::Network { name }, StoredRecordV::Network(n)) => n.wf() && n.name == name,
        _ => false,
    }
}

/// A store is well formed when every entry is, and no two entries share an
/// address.
pub open spec fn store_wf(s: Seq<EntryV>) -> bool {
    &&& forall|i: int| 0 <= i < s.len() ==> entry_wf(#[trigger] s[i])
    &&& forall|i: int, j: int|
        0 <= i < j < s.len() ==> (#[trigger] s[i]).address != (#[trigger] s[j]).address
}

/// The record held at address `a`: the first entry whose address matches.
pub open spec fn spec_lookup(s: Seq<EntryV>, a: AddressV) -> Option<StoredRecordV>
    decreases s.len(),
{
    if s.len() == 0 {
        None
    } else if s[0].address == a {
        Some(s[0].record)
    } else {
        spec_lookup(s.drop_first(), a)
    }
}

/// The store after replacing the record held at `a` with `r`: the first
/// matching entry changes, everything else stays. When `a` is unoccupied the
/// store is unchanged.
pub open spec fn spec_store_update(s: Seq<EntryV>, a: AddressV, r: StoredRecordV) -> Seq<EntryV>
    decreases s.len(),
{
    if s.len() == 0 {
        s
    } else if s[0].address == a {
        seq![EntryV { address: a, record: r }] + s.drop_first()
    } else {
        seq![s[0]] + spec_store_update(s.drop_first(), a, r)
    }
}

/// Replacing the record at the first index that carries `a` is a pointwise
/// update of the entry sequence.
pub proof fn lemma_store_update_is_seq_update(s: Seq<EntryV>, a: AddressV, r: StoredRecordV, i: int)
    requires
        0 <= i < s.len(),
        s[i].address == a,
        forall|j: int| 0 <= j < i ==> (#[trigger] s[j]).address != a,
    ensures
        spec_store_update(s, a, r) == s.update(i, EntryV { address: a, record: r }),
    decreases i,
{
    let e = EntryV { address: a, record: r };
    if i == 0 {
        assert(spec_store_update(s, a, r) =~= s.update(0, e));
    } else {
        assert(s[0].address != a);
        assert(s.drop_first()[i - 1] == s[i]);
        assert forall|j: int| 0 <= j < i - 1 implies (#[trigger] s.drop_first()[j]).address
            != a by {
            assert(s.drop_first()[j] == s[j + 1]);
        }
        lemma_store_update_is_seq_update(s.drop_first(), a, r, i - 1);
        assert(seq![s[0]] + s.drop_first().update(i - 1, e) =~= s.update(i, e));
    }
}

/// Looking up after replacing an occupied address: that address now holds the
/// new record, every other address is untouched.
pub proof fn lemma_lookup_store_update(s: Seq<EntryV>, a: AddressV, r: StoredRecordV, b: AddressV)
    requires
        spec_lookup(s, a) is Some,
    ensures
        spec_lookup(spec_store_update(s, a, r), b) == if b == a {
            Some(r)
        } else {
            spec_lookup(s, b)
        },
    decreases s.len(),
{
    if s.len() > 0 {
        if s[0].address == a {
            let t = seq![EntryV { address: a, record: r }] + s.drop_first();
            assert(t[0] == (EntryV { address: a, record: r }));
            assert(t.drop_first() =~= s.drop_first());
            if b == a {
                assert(spec_lookup(t, b) == Some(r));
            } else {
                assert(spec_lookup(t, b) == spec_lookup(s.drop_first(), b));
                assert(spec_lookup(s, b) == spec_lookup(s.drop_first(), b));
            }
        } else {
            let t = seq![s[0]] + spec_store_update(s.drop_first(), a, r);
            assert(t[0] == s[0]);
            assert(t.drop_first() =~= spec_store_update(s.drop_first(), a, r));
            lemma_lookup_store_update(s.drop_first(), a, r, b);
            if b == s[0].address {
                assert(spec_lookup(t, b) == Some(s[0].record));
                assert(spec_lookup(s, b) == Some(s[0].record));
            } else {
                assert(spec_lookup(t, b) == spec_lookup(t.drop_first(), b));
                assert(spec_lookup(s, b) == spec_lookup(s.drop_first(), b));
            }
        }
    }
}

/// Looking up after appending a fresh entry: occupied addresses keep their
/// record, the new address now holds the new record.
pub proof fn lemma_lookup_push(s: Seq<EntryV>, e: EntryV, a: AddressV)
    ensures
        spec_lookup(s.push(e), a) == if spec_lookup(s, a) is Some {
            spec_lookup(s, a)
        } else if a == e.address {
            Some(e.record)
        } else {
            None::<StoredRecordV>
        },
    decreases s.len(),
{
    let p = s.push(e);
    if s.len() == 0 {
        assert(p[0] == e);
        assert(p.drop_first() =~= Seq::<EntryV>::empty());
        assert(spec_lookup(s, a) is None);
        if a == e.address {
            assert(spec_lookup(p, a) == Some(e.record));
        } else {
            assert(spec_lookup(p, a) == spec_lookup(p.drop_first(), a));
            assert(spec_lookup(p.drop_first(), a) is None);
        }
    } else {
        assert(p[0] == s[0]);
        assert(p.drop_first() =~= s.drop_first().push(e));
        lemma_lookup_push(s.drop_first(), e, a);
        if s[0].address == a {
            assert(spec_lookup(p, a) == Some(s[0].record));
            assert(spec_lookup(s, a) == Some(s[0].record));
        } else {
            assert(spec_lookup(p, a) == spec_lookup(s.drop_first().push(e), a));
            assert(spec_lookup(s, a) == spec_lookup(s.drop_first(), a));
        }
    }
}

/// If no entry carries address `a`, lookup misses.
pub proof fn lemma_no_match_lookup_none(s: Seq<EntryV>, a: AddressV)
    requires
        forall|j: int| 0 <= j < s.len() ==> (#[trigger] s[j]).address != a,
    ensures
        spec_lookup(s, a) is None,
    decreases s.len(),
{
    if s.len() > 0 {
        assert forall|j: int| 0 <= j < s.drop_first().len() implies (#[trigger] s.drop_first()[j]).address
            != a by {
            assert(s.drop_first()[j] == s[j + 1]);
        }
        lemma_no_match_lookup_none(s.drop_first(), a);
    }
}

/// If lookup misses, no entry carries address `a`.
pub proof fn lemma_lookup_none_no_match(s: Seq<EntryV>, a: AddressV)
    requires
        spec_lookup(s, a) is None,
    ensures
        forall|j: int| 0 <= j < s.len() ==> (#[trigger] s[j]).address != a,
    decreases s.len(),
{
    if s.len() > 0 {
        lemma_lookup_none_no_match(s.drop_first(), a);
        assert forall|j: int| 0 <= j < s.len() implies (#[trigger] s[j]).address != a by {
            if j > 0 {
                assert(s[j] == s.drop_first()[j - 1]);
            }
        }
    }
}

/// Lookup finds the first matching entry.
pub proof fn lemma_lookup_first(s: Seq<EntryV>, a: AddressV, i: int)
    requires
        0 <= i < s.len(),
        s[i].address == a,
        forall|j: int| 0 <= j < i ==> (#[trigger] s[j]).address != a,
    ensures
        spec_lookup(s, a) == Some(s[i].record),
    decreases i,
{
    if i > 0 {
        assert(s[0].address != a);
        assert(s.drop_first()[i - 1] == s[i]);
        assert forall|j: int| 0 <= j < i - 1 implies (#[trigger] s.drop_first()[j]).address
            != a by {
            assert(s.drop_first()[j] == s[j + 1]);
        }
        lemma_lookup_first(s.drop_first(), a, i - 1);
    }
}

/// A well-formed tail of a well-formed store.
pub proof fn lemma_store_wf_drop_first(s: Seq<EntryV>)
    requires
        store_wf(s),
        s.len() > 0,
    ensures
        store_wf(s.drop_first()),
{
    let t = s.drop_first();
    assert forall|i: int| 0 <= i < t.len() implies entry_wf(#[trigger] t[i]) by {
        assert(t[i] == s[i + 1]);
    }
    assert forall|i: int, j: int| 0 <= i < j < t.len() implies (#[trigger] t[i]).address != (
    #[trigger] t[j]).address by {
        assert(t[i] == s[i + 1] && t[j] == s[j + 1]);
    }
}

/// In a well-formed store, a found record has the kind its address names, is
/// well formed, and carries the address's seed as its own key.
pub proof fn lemma_lookup_wf(s: Seq<EntryV>, a: AddressV)
    requires
        store_wf(s),
        spec_lookup(s, a) is Some,
    ensures
        entry_wf(EntryV { address: a, record: spec_lookup(s, a)->Some_0 }),
    decreases s.len(),
{
    if s.len() > 0 {
        if s[0].address == a {
            assert(entry_wf(s[0]));
            assert(s[0] == (EntryV { address: a, record: s[0].record }));
        } else {
            lemma_store_wf_drop_first(s);
            lemma_lookup_wf(s.drop_first(), a);
        }
    }
}

/// Appending a fresh, well-formed entry keeps the store well formed.
pub proof fn lemma_wf_push(s: Seq<EntryV>, e: EntryV)
    requires
        store_wf(s),
        entry_wf(e),
        spec_lookup(s, e.address) is None,
    ensures
        store_wf(s.push(e)),
{
    lemma_lookup_none_no_match(s, e.address);
    let p = s.push(e);
    assert forall|i: int| 0 <= i < p.len() implies entry_wf(#[trigger] p[i]) by {
        if i < s.len() {
            assert(p[i] == s[i]);
        }
    }
    assert forall|i: int, j: int| 0 <= i < j < p.len() implies (#[trigger] p[i]).address != (
    #[trigger] p[j]).address by {
        if j < s.len() {
            assert(p[i] == s[i] && p[j] == s[j]);
        } else {
            assert(p[j] == e && p[i] == s[i]);
        }
    }
}

/// Replacing the record at a slot (same address, well-formed record) keeps
/// the store well formed.
pub proof fn lemma_wf_update(s: Seq<EntryV>, i: int, e: EntryV)
    requires
        store_wf(s),
        0 <= i < s.len(),
        e.address == s[i].address,
        entry_wf(e),
    ensures
        store_wf(s.update(i, e)),
{
    let t = s.update(i, e);
    assert forall|k: int| 0 <= k < t.len() implies entry_wf(#[trigger] t[k]) by {
        if k != i {
            assert(t[k] == s[k]);
        }
    }
    assert forall|k: int, j: int| 0 <= k < j < t.len() implies (#[trigger] t[k]).address != (
    #[trigger] t[j]).address by {
        assert(t[k].address == s[k].address && t[j].address == s[j].address);
    }
}

/// The record store. `max_record_bytes` is the host limit a record may grow
/// to on write.
pub struct RecordStore {
    pub entries: Vec<Entry>,
    pub max_record_bytes: usize,
}

impl View for RecordStore {
    type V = Seq<EntryV>;

    open spec fn view(&self) -> Seq<EntryV> {
        self.entries@.map_values(|e: Entry| e@)
    }
}

impl RecordStore {
    /// The store's invariant.
    pub open spec fn wf(&self) -> bool {
        store_wf(self@)
    }

    /// An empty store whose records may grow to `max_record_bytes` on write.
    pub fn new(max_record_bytes: usize) -> (s: Self)
        ensures
            s@ == Seq::<EntryV>::empty(),
            s.wf(),
            s.max_record_bytes == max_record_bytes,
    {
        let s = RecordStore { entries: Vec::new(), max_record_bytes };
        proof {
            assert(s@ =~= Seq::<EntryV>::empty());
        }
        s
    }

    /// The position of the entry at `addr`, if the address is occupied.
    pub fn find_index(&self, addr: &Address) -> (r: Option<usize>)
        ensures
            match r {
                Some(i) => i < self@.len() && self@[i as int].address == addr@ && (forall|j: int|
                    0 <= j < i ==> (#[trigger] self@[j]).address != addr@) && spec_lookup(
                    self@,
                    addr@,
                ) == Some(self@[i as int].record),
                None => spec_lookup(self@, addr@) is None,
            },
    {
        let mut i: usize = 0;
        while i < self.entries.len()
            invariant
                i <= self@.len(),
                self@.len() == self.entries@.len(),
                forall|j: int| 0 <= j < i ==> (#[trigger] self@[j]).address != addr@,
            decreases self@.len() - i,
        {
            let e = &self.entries[i];
            proof {
                assert(self@[i as int] == self.entries@[i as int]@);
            }
            if e.address.addr_eq(addr) {
                proof {
                    lemma_lookup_first(self@, addr@, i as int);
                }
                return Some(i);
            }
            i = i + 1;
        }
        proof {
            lemma_no_match_lookup_none(self@, addr@);
        }
        None
    }

    /// Whether the address is occupied.
    pub fn contains(&self, addr: &Address) -> (r: bool)
        ensures
            r == (spec_lookup(self@, addr@) is Some),
    {
        match self.find_index(addr) {
            Some(_) => true,
            None => false,
        }
    }

    /// The record at `addr`, if the address is occupied.
    pub fn read(&self, addr: &Address) -> (r: Option<&StoredRecord>)
        ensures
            match r {
                Some(rec) => spec_lookup(self@, addr@) == Some(rec@),
                None => spec_lookup(self@, addr@) is None,
            },
    {
        match self.find_index(addr) {
            Some(i) => {
                let e = &self.entries[i];
                proof {
                    assert(self@[i as int] == self.entries@[i as int]@);
                }
                Some(&e.record)
            },
            None => None,
        }
    }

    /// Allocates a record at `address`: fails with `AlreadyExists` when the
    /// address is occupied, otherwise appends the entry and leaves every
    /// other address untouched.
    pub fn create(&mut self, address: Address, record: StoredRecord) -> (r: Result<(), ErrorCode>)
        requires
            old(self).wf(),
            entry_wf(EntryV { address: address@, record: record@ }),
        ensures
            final(self).wf(),
            final(self).max_record_bytes == old(self).max_record_bytes,
            match r {
                Ok(()) => spec_lookup(old(self)@, address@) is None && final(self)@ == old(
                    self,
                )@.push(EntryV { address: address@, record: record@ }) && spec_lookup(
                    final(self)@,
                    address@,
                ) == Some(record@) && (forall|b: AddressV|
                    b != address@ ==> #[trigger] spec_lookup(final(self)@, b) == spec_lookup(
                        old(self)@,
                        b,
                    )),
                Err(e) => e == ErrorCode::AlreadyExists && spec_lookup(old(self)@, address@)
                    is Some && final(self)@ == old(self)@,
            },
    {
        if self.contains(&address) {
            return Err(ErrorCode::AlreadyExists);
        }
        let ghost oldv = self@;
        let ghost ev = EntryV { address: address@, record: record@ };
        self.entries.push(Entry { address, record });
        proof {
            assert(self@ =~= oldv.push(ev));
            lemma_wf_push(oldv, ev);
            lemma_lookup_push(oldv, ev, ev.address);
            assert forall|b: AddressV| b != ev.address implies #[trigger] spec_lookup(self@, b)
                == spec_lookup(oldv, b) by {
                lemma_lookup_push(oldv, ev, b);
            }
        }
        Ok(())
    }
}

} // verus!
