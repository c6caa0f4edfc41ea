use plasma_codec::codec::Address;
use plasma_codec::codec::StateObject;
use plasma_codec::codec::StateUpdate;
use plasma_codec::codec::Transaction;
use plasma_codec::store::ChannelDb;
use plasma_codec::store::HashPreimageDb;
use plasma_codec::store::KvStore;
use plasma_codec::store::MessageDb;
use plasma_codec::store::RangeAtBlockDb;
use plasma_codec::store::SignedByDb;
use plasma_codec::store::TransactionDb;

fn make_state_update(start: u64, end: u64, block: u64) -> StateUpdate {
    StateUpdate {
        start,
        end,
        block,
        plasma_contract: Address::zero(),
        new_state: StateObject {
            predicate: Address::zero(),
            parameters: b"params".to_vec(),
        },
    }
}

#[test]
fn put_is_idempotent_and_last_write_wins() {
    let mut store = KvStore::new();
    let k = b"key".to_vec();
    let v = b"value".to_vec();
    store.put(k.clone(), v.clone());
    store.put(k.clone(), v.clone());
    assert_eq!(store.get(&k), Some(v));

    let v2 = b"other value".to_vec();
    store.put(k.clone(), v2.clone());
    assert_eq!(store.get(&k), Some(v2));
}

#[test]
fn missing_key_reads_none() {
    let store = KvStore::new();
    assert_eq!(store.get(&b"absent".to_vec()), None);
    let mut store = store;
    store.put(b"present".to_vec(), b"v".to_vec());
    assert_eq!(store.get(&b"absent".to_vec()), None);
}

#[test]
fn disjoint_keys_do_not_interfere() {
    let mut store = KvStore::new();
    store.put(b"a".to_vec(), b"1".to_vec());
    store.put(b"b".to_vec(), b"2".to_vec());
    store.put(b"a".to_vec(), b"3".to_vec());
    assert_eq!(store.get(&b"a".to_vec()), Some(b"3".to_vec()));
    assert_eq!(store.get(&b"b".to_vec()), Some(b"2".to_vec()));
}

#[test]
fn channel_message_preimage_signer_views_are_plain_lookups() {
    let mut channels = ChannelDb::new();
    channels.put(b"channel-1".to_vec(), b"participants".to_vec());
    assert_eq!(channels.get(&b"channel-1".to_vec()), Some(b"participants".to_vec()));

    let mut messages = MessageDb::new();
    messages.put(b"message-1".to_vec(), b"signal".to_vec());
    assert_eq!(messages.get(&b"message-1".to_vec()), Some(b"signal".to_vec()));

    let mut preimages = HashPreimageDb::new();
    preimages.put(b"digest".to_vec(), b"preimage".to_vec());
    assert_eq!(preimages.get(&b"digest".to_vec()), Some(b"preimage".to_vec()));

    let mut signers = SignedByDb::new();
    signers.put(b"signer".to_vec(), b"tx-ids".to_vec());
    assert_eq!(signers.get(&b"signer".to_vec()), Some(b"tx-ids".to_vec()));
}

#[test]
fn range_at_block_view_stores_canonical_state_update() {
    let mut ranges = RangeAtBlockDb::new();
    let su = make_state_update(10, 20, 5);
    ranges.put_state_update(5, 10, &su);
    let stored = ranges.get_bytes(5, 10).unwrap();
    assert_eq!(stored, su.encode());
    assert_eq!(ranges.get_bytes(5, 11), None);
    assert_eq!(ranges.get_bytes(6, 10), None);
}

#[test]
fn transaction_view_stores_canonical_bytes_that_decode_back() {
    let mut txs = TransactionDb::new();
    let tx = Transaction {
        state_update: make_state_update(1, 2, 3),
        transaction_witness: b"witness".to_vec(),
    };
    txs.put_transaction(b"tx-id".to_vec(), &tx);
    let stored = txs.get_bytes(&b"tx-id".to_vec()).unwrap();
    assert_eq!(stored, tx.encode());
    let decoded = Transaction::decode(&stored).unwrap();
    assert_eq!(decoded.state_update.start, 1);
    assert_eq!(decoded.state_update.end, 2);
    assert_eq!(decoded.state_update.block, 3);
    assert_eq!(decoded.transaction_witness, b"witness".to_vec());
}

#[test]
fn mandatory_read_of_missing_key_is_a_store_error() {
    let mut store = KvStore::new();
    assert_eq!(
        store.get_required(&b"k".to_vec()),
        Err(plasma_codec::store::StoreError::NotFound)
    );
    store.put(b"k".to_vec(), b"v".to_vec());
    assert_eq!(store.get_required(&b"k".to_vec()), Ok(b"v".to_vec()));
}
