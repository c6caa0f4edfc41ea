//! Derived-index store facades.
//!
//! Six independent key-value views consume decoded transactions. Each
//! view is a `get`/`put` lookup with last-write-wins semantics: a
//! repeated write of the same value changes nothing, and a later write
//! to the same key replaces the earlier one. `TransactionDb`, which
//! holds the canonical encoded bytes of each transaction, is the
//! source of truth; the other five are rebuildable projections of it.

use vstd::prelude::*;

use crate::codec::StateUpdate;
use crate::codec::Transaction;
use crate::codec::enc_state_update;
use crate::codec::enc_transaction;
use crate::wire::subvec;

verus! {

struct Entry {
    key: Vec<u8>,
    value: Vec<u8>,
}

/// The mapping described by an entry log: later entries win.
spec fn map_of(s: Seq<Entry>) -> Map<Seq<u8>, Seq<u8>>
    decreases s.len(),
{
    if s.len() == 0 {
        Map::empty()
    } else {
        map_of(s.drop_last()).insert(s.last().key@, s.last().value@)
    }
}

proof fn lemma_map_of_found(s: Seq<Entry>, j: int, k: Seq<u8>)
    requires
        0 <= j < s.len(),
        s[j].key@ == k,
        forall|m: int| j < m < s.len() ==> (#[trigger] s[m]).key@ != k,
    ensures
        map_of(s).contains_key(k),
        map_of(s)[k] == s[j].value@,
    decreases s.len(),
{
    if j < s.len() - 1 {
        assert(s.last().key@ != k);
        assert(forall|m: int| j < m < s.drop_last().len()
            ==> (#[trigger] s.drop_last()[m]).key@ != k);
        lemma_map_of_found(s.drop_last(), j, k);
    }
}

proof fn lemma_map_of_absent(s: Seq<Entry>, k: Seq<u8>)
    requires
        forall|m: int| 0 <= m < s.len() ==> (#[trigger] s[m]).key@ != k,
    ensures
        !map_of(s).contains_key(k),
    decreases s.len(),
{
    if s.len() > 0 {
        assert(forall|m: int| 0 <= m < s.drop_last().len()
            ==> (#[trigger] s.drop_last()[m]).key@ != k);
        lemma_map_of_absent(s.drop_last(), k);
    }
}

fn bytes_eq(a: &Vec<u8>, b: &Vec<u8>) -> (r: bool)
    ensures
        r == (a@ == b@),
{
    if a.len() != b.len() {
        return false;
    }
    let mut i: usize = 0;
    while i < a.len()
        invariant
            i <= a.len(),
            a@.len() == b@.len(),
            forall|m: int| 0 <= m < i ==> a@[m] == b@[m],
        decreases a.len() - i,
    {
        if a[i] != b[i] {
            return false;
        }
        i += 1;
    }
    proof {
        assert(a@ =~= b@);
    }
    true
}

/// Why a store operation failed: a mandatory read found no binding.
/// In-memory writes always succeed, so only reads can fail.
#[derive(Debug, PartialEq, Eq)]
pub enum StoreError {
    NotFound,
}

/// A byte-keyed key-value store with last-write-wins semantics, seen
/// in contracts as a `Map` from key bytes to value bytes.
pub struct KvStore {
    entries: Vec<Entry>,
}

impl View for KvStore {
    type V = Map<Seq<u8>, Seq<u8>>;

    closed spec fn view(&self) -> Map<Seq<u8>, Seq<u8>> {
        map_of(self.entries@)
    }
}

impl KvStore {
    /// An empty store: no key is bound.
    pub fn new() -> (r: KvStore)
        ensures
            r@ == Map::<Seq<u8>, Seq<u8>>::empty(),
    {
        let r = KvStore { entries: Vec::new() };
        proof {
            assert(r.entries@.len() == 0);
        }
        r
    }

    /// Binds `key` to `value`, replacing any earlier binding.
    pub fn put(&mut self, key: Vec<u8>, value: Vec<u8>)
        ensures
            final(self)@ == old(self)@.insert(key@, value@),
    {
        let ghost before = self.entries@;
        self.entries.push(Entry { key, value });
        proof {
            assert(self.entries@.drop_last() =~= before);
        }
    }

    /// Looks `key` up: the most recently written value, or `None`
    /// where the key was never written.
    pub fn get(&self, key: &Vec<u8>) -> (r: Option<Vec<u8>>)
        ensures
            match r {
                Some(v) => self@.contains_key(key@) && v@ == self@[key@],
                None => !self@.contains_key(key@),
            },
    {
        let mut j: usize = self.entries.len();
        while j > 0
            invariant
                j <= self.entries@.len(),
                forall|m: int| j <= m < self.entries@.len()
                    ==> (#[trigger] self.entries@[m]).key@ != key@,
            decreases j,
        {
            j -= 1;
            if bytes_eq(&self.entries[j].key, key) {
                proof {
                    lemma_map_of_found(self.entries@, j as int, key@);
                }
                let v = subvec(&self.entries[j].value, 0, self.entries[j].value.len());
                proof {
                    assert(v@ =~= self.entries@[j as int].value@);
                }
                return Some(v);
            }
        }
        proof {
            lemma_map_of_absent(self.entries@, key@);
        }
        None
    }

    /// Looks `key` up where the binding is mandatory: a missing key is
    /// a `StoreError`.
    pub fn get_required(&self, key: &Vec<u8>) -> (r: Result<Vec<u8>, StoreError>)
        ensures
            match r {
                Ok(v) => self@.contains_key(key@) && v@ == self@[key@],
                Err(e) => !self@.contains_key(key@) && e == StoreError::NotFound,
            },
    {
        match self.get(key) {
            Some(v) => Ok(v),
            None => Err(StoreError::NotFound),
        }
    }
}

/// Law: a repeated `put` of the same value is idempotent, a later
/// `put` to the same key wins, and `get` returns the value written
/// last, stated over the map view that `put` and `get` ensure.
pub proof fn lemma_store_last_write_wins(
    m: Map<Seq<u8>, Seq<u8>>,
    k: Seq<u8>,
    v1: Seq<u8>,
    v2: Seq<u8>,
)
    ensures
        m.insert(k, v1).insert(k, v1) == m.insert(k, v1),
        m.insert(k, v1).insert(k, v2) == m.insert(k, v2),
        m.insert(k, v2).contains_key(k),
        m.insert(k, v2)[k] == v2,
{
    assert(m.insert(k, v1).insert(k, v1) =~= m.insert(k, v1));
    assert(m.insert(k, v1).insert(k, v2) =~= m.insert(k, v2));
}

/// Channel id to channel participant/state record.
pub struct ChannelDb {
    store: KvStore,
}

impl View for ChannelDb {
    type V = Map<Seq<u8>, Seq<u8>>;

    closed spec fn view(&self) -> Map<Seq<u8>, Seq<u8>> {
        self.store@
    }
}

impl ChannelDb {
    pub fn new() -> (r: ChannelDb)
        ensures
            r@ == Map::<Seq<u8>, Seq<u8>>::empty(),
    {
        ChannelDb { store: KvStore::new() }
    }

    pub fn put(&mut self, key: Vec<u8>, value: Vec<u8>)
        ensures
            final(self)@ == old(self)@.insert(key@, value@),
    {
        self.store.put(key, value);
    }

    pub fn get(&self, key: &Vec<u8>) -> (r: Option<Vec<u8>>)
        ensures
            match r {
                Some(v) => self@.contains_key(key@) && v@ == self@[key@],
                None => !self@.contains_key(key@),
            },
    {
        self.store.get(key)
    }
}

/// Message id to off-chain signalling payload.
pub struct MessageDb {
    store: KvStore,
}

impl View for MessageDb {
    type V = Map<Seq<u8>, Seq<u8>>;

    closed spec fn view(&self) -> Map<Seq<u8>, Seq<u8>> {
        self.store@
    }
}

impl MessageDb {
    pub fn new() -> (r: MessageDb)
        ensures
            r@ == Map::<Seq<u8>, Seq<u8>>::empty(),
    {
        MessageDb { store: KvStore::new() }
    }

    pub fn put(&mut self, key: Vec<u8>, value: Vec<u8>)
        ensures
            final(self)@ == old(self)@.insert(key@, value@),
    {
        self.store.put(key, value);
    }

    pub fn get(&self, key: &Vec<u8>) -> (r: Option<Vec<u8>>)
        ensures
            match r {
                Some(v) => self@.contains_key(key@) && v@ == self@[key@],
                None => !self@.contains_key(key@),
            },
    {
        self.store.get(key)
    }
}

/// Hash digest to preimage bytes. The digest is computed by an
/// external hasher; this view only binds digest to preimage.
pub struct HashPreimageDb {
    store: KvStore,
}

impl View for HashPreimageDb {
    type V = Map<Seq<u8>, Seq<u8>>;

    closed spec fn view(&self) -> Map<Seq<u8>, Seq<u8>> {
        self.store@
    }
}

impl HashPreimageDb {
    pub fn new() -> (r: HashPreimageDb)
        ensures
            r@ == Map::<Seq<u8>, Seq<u8>>::empty(),
    {
        HashPreimageDb { store: KvStore::new() }
    }

    pub fn put(&mut self, key: Vec<u8>, value: Vec<u8>)
        ensures
            final(self)@ == old(self)@.insert(key@, value@),
    {
        self.store.put(key, value);
    }

    pub fn get(&self, key: &Vec<u8>) -> (r: Option<Vec<u8>>)
        ensures
            match r {
                Some(v) => self@.contains_key(key@) && v@ == self@[key@],
                None => !self@.contains_key(key@),
            },
    {
        self.store.get(key)
    }
}

/// Signer id to the record of transaction ids signed by that signer.
pub struct SignedByDb {
    store: KvStore,
}

impl View for SignedByDb {
    type V = Map<Seq<u8>, Seq<u8>>;

    closed spec fn view(&self) -> Map<Seq<u8>, Seq<u8>> {
        self.store@
    }
}

impl SignedByDb {
    pub fn new() -> (r: SignedByDb)
        ensures
            r@ == Map::<Seq<u8>, Seq<u8>>::empty(),
    {
        SignedByDb { store: KvStore::new() }
    }

    pub fn put(&mut self, key: Vec<u8>, value: Vec<u8>)
        ensures
            final(self)@ == old(self)@.insert(key@, value@),
    {
        self.store.put(key, value);
    }

    pub fn get(&self, key: &Vec<u8>) -> (r: Option<Vec<u8>>)
        ensures
            match r {
                Some(v) => self@.contains_key(key@) && v@ == self@[key@],
                None => !self@.contains_key(key@),
            },
    {
        self.store.get(key)
    }
}

/// The key of a range record: block height, then range start, each as
/// eight fixed big-endian bytes, so that distinct pairs give distinct
/// keys.
pub open spec fn fixed8(n: u64) -> Seq<u8> {
    Seq::new(8, |i: int| ((n >> ((7 - i) as u64 * 8)) & 0xff) as u8)
}

pub open spec fn range_key(block: u64, start: u64) -> Seq<u8> {
    fixed8(block) + fixed8(start)
}

fn fixed8_bytes(n: u64) -> (r: Vec<u8>)
    ensures
        r@ == fixed8(n),
{
    let mut r: Vec<u8> = Vec::new();
    let mut i: usize = 0;
    while i < 8
        invariant
            i <= 8,
            r@ == fixed8(n).take(i as int),
        decreases 8 - i,
    {
        r.push(((n >> ((7 - i) as u64 * 8)) & 0xff) as u8);
        assert(r@ =~= fixed8(n).take(i + 1));
        i += 1;
    }
    proof {
        assert(fixed8(n).take(8) =~= fixed8(n));
    }
    r
}

/// `(block, range start)` to the state update valid for that
/// sub-range, stored as its canonical encoding.
pub struct RangeAtBlockDb {
    store: KvStore,
}

impl View for RangeAtBlockDb {
    type V = Map<Seq<u8>, Seq<u8>>;

    closed spec fn view(&self) -> Map<Seq<u8>, Seq<u8>> {
        self.store@
    }
}

impl RangeAtBlockDb {
    pub fn new() -> (r: RangeAtBlockDb)
        ensures
            r@ == Map::<Seq<u8>, Seq<u8>>::empty(),
    {
        RangeAtBlockDb { store: KvStore::new() }
    }

    /// Records `su` as the state of the sub-range starting at `start`
    /// as of `block`, keyed by the derived range key.
    pub fn put_state_update(&mut self, block: u64, start: u64, su: &StateUpdate)
        ensures
            final(self)@ == old(self)@.insert(range_key(block, start), enc_state_update(su@)),
    {
        let mut key = fixed8_bytes(block);
        let mut tail = fixed8_bytes(start);
        key.append(&mut tail);
        let value = su.encode();
        self.store.put(key, value);
    }

    pub fn get_bytes(&self, block: u64, start: u64) -> (r: Option<Vec<u8>>)
        ensures
            match r {
                Some(v) => self@.contains_key(range_key(block, start))
                    && v@ == self@[range_key(block, start)],
                None => !self@.contains_key(range_key(block, start)),
            },
    {
        let mut key = fixed8_bytes(block);
        let mut tail = fixed8_bytes(start);
        key.append(&mut tail);
        self.store.get(&key)
    }
}

/// Transaction id to the canonical encoded transaction bytes; the
/// source of truth from which the other five views can be re-derived.
pub struct TransactionDb {
    store: KvStore,
}

impl View for TransactionDb {
    type V = Map<Seq<u8>, Seq<u8>>;

    closed spec fn view(&self) -> Map<Seq<u8>, Seq<u8>> {
        self.store@
    }
}

impl TransactionDb {
    pub fn new() -> (r: TransactionDb)
        ensures
            r@ == Map::<Seq<u8>, Seq<u8>>::empty(),
    {
        TransactionDb { store: KvStore::new() }
    }

    /// Persists the canonical encoding of `tx` under `tx_id`.
    pub fn put_transaction(&mut self, tx_id: Vec<u8>, tx: &Transaction)
        ensures
            final(self)@ == old(self)@.insert(tx_id@, enc_transaction(tx@)),
    {
        let value = tx.encode();
        self.store.put(tx_id, value);
    }

    pub fn get_bytes(&self, tx_id: &Vec<u8>) -> (r: Option<Vec<u8>>)
        ensures
            match r {
                Some(v) => self@.contains_key(tx_id@) && v@ == self@[tx_id@],
                None => !self@.contains_key(tx_id@),
            },
    {
        self.store.get(tx_id)
    }
}

} // verus!
