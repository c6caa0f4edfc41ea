use plasma_codec::codec::Address;
use plasma_codec::codec::DecodeError;
use plasma_codec::codec::SignedTransaction;
use plasma_codec::codec::StateObject;
use plasma_codec::codec::StateUpdate;
use plasma_codec::codec::Transaction;
use plasma_codec::wire::encode_str;
use plasma_codec::wire::wrap_list;

fn make_transaction(params: &[u8], witness: &[u8]) -> Transaction {
    let state_object = StateObject {
        predicate: Address::zero(),
        parameters: params.to_vec(),
    };
    let state_update = StateUpdate {
        start: 0,
        end: 0,
        block: 0,
        plasma_contract: Address::zero(),
        new_state: state_object,
    };
    Transaction {
        state_update,
        transaction_witness: witness.to_vec(),
    }
}

#[test]
fn test_rlp_encode() {
    let signed_transaction = SignedTransaction {
        transactions: vec![make_transaction(b"parameters", b"witness")],
    };
    let encoded = signed_transaction.encode();
    let decoded = SignedTransaction::decode(&encoded).unwrap();
    assert_eq!(
        decoded.transactions.len(),
        signed_transaction.transactions.len()
    );
}

#[test]
fn fail_to_decode() {
    let animal = "failtodecode";
    let encoded = rlp::encode(&animal).to_vec();
    let decoded = SignedTransaction::decode(&encoded);
    assert_eq!(decoded.is_err(), true);
}

#[test]
fn concrete_example_round_trips_field_for_field() {
    let signed = SignedTransaction {
        transactions: vec![make_transaction(b"parameters", b"witness")],
    };
    let encoded = signed.encode();
    let decoded = SignedTransaction::decode(&encoded).unwrap();
    assert_eq!(decoded.transactions.len(), 1);
    let t = &decoded.transactions[0];
    assert_eq!(t.state_update.start, 0);
    assert_eq!(t.state_update.end, 0);
    assert_eq!(t.state_update.block, 0);
    assert_eq!(t.state_update.plasma_contract.bytes, vec![0u8; 20]);
    assert_eq!(t.state_update.new_state.predicate.bytes, vec![0u8; 20]);
    assert_eq!(t.state_update.new_state.parameters, b"parameters".to_vec());
    assert_eq!(t.transaction_witness, b"witness".to_vec());
}

#[test]
fn empty_bundle_round_trips() {
    let signed = SignedTransaction { transactions: vec![] };
    let encoded = signed.encode();
    assert_eq!(encoded, vec![0xc0]);
    let decoded = SignedTransaction::decode(&encoded).unwrap();
    assert_eq!(decoded.transactions.len(), 0);
}

#[test]
fn multi_transaction_bundle_round_trips() {
    let mut witness = Vec::new();
    for i in 0..100u8 {
        witness.push(i);
    }
    let t0 = make_transaction(b"", b"w0");
    let mut t1 = make_transaction(&witness, &witness);
    t1.state_update.start = 7;
    t1.state_update.end = u64::MAX;
    t1.state_update.block = 56;
    t1.state_update.plasma_contract = Address::from_bytes(vec![0xabu8; 20]);
    let signed = SignedTransaction { transactions: vec![t0, t1] };
    let encoded = signed.encode();
    let decoded = SignedTransaction::decode(&encoded).unwrap();
    assert_eq!(decoded.transactions.len(), 2);
    assert_eq!(decoded.transactions[0].transaction_witness, b"w0".to_vec());
    assert_eq!(decoded.transactions[0].state_update.new_state.parameters, Vec::<u8>::new());
    assert_eq!(decoded.transactions[1].state_update.start, 7);
    assert_eq!(decoded.transactions[1].state_update.end, u64::MAX);
    assert_eq!(decoded.transactions[1].state_update.block, 56);
    assert_eq!(decoded.transactions[1].state_update.plasma_contract.bytes, vec![0xabu8; 20]);
    assert_eq!(decoded.transactions[1].transaction_witness, witness);
    assert_eq!(decoded.encode(), encoded);
}

#[test]
fn scalar_string_is_rejected_with_shape_error() {
    let payload = b"not a bundle".to_vec();
    let encoded = encode_str(&payload);
    let decoded = SignedTransaction::decode(&encoded);
    assert_eq!(decoded, Err(DecodeError::ShapeError));
}

#[test]
fn transaction_with_wrong_arity_is_rejected_with_arity_error() {
    // A list of one element (an empty string) where two are required.
    let one_item = wrap_list(&encode_str(&Vec::new()));
    assert_eq!(Transaction::decode(&one_item), Err(DecodeError::ArityError));

    // A list of three elements.
    let mut payload = Vec::new();
    for _ in 0..3 {
        payload.extend_from_slice(&encode_str(&Vec::new()));
    }
    let three_items = wrap_list(&payload);
    assert_eq!(Transaction::decode(&three_items), Err(DecodeError::ArityError));
}

#[test]
fn bad_second_transaction_fails_whole_bundle() {
    let good = make_transaction(b"p", b"w").encode();
    // A one-element list is transaction-shaped but has the wrong arity.
    let bad = wrap_list(&encode_str(&Vec::new()));
    let mut payload = Vec::new();
    payload.extend_from_slice(&good);
    payload.extend_from_slice(&bad);
    payload.extend_from_slice(&good);
    let bundle = wrap_list(&payload);
    let decoded = SignedTransaction::decode(&bundle);
    assert_eq!(decoded, Err(DecodeError::ArityError));
}

#[test]
fn non_minimal_integer_field_is_rejected() {
    // Rebuild a transaction encoding whose start field carries a
    // leading zero byte: [0x00, 0x01] instead of [0x01].
    let zero = plasma_codec::wire::be_encode(0);
    let so_payload = [encode_str(&vec![0u8; 20]), encode_str(&b"p".to_vec())].concat();
    let su_payload = [
        encode_str(&vec![0x00, 0x01]),
        encode_str(&zero),
        encode_str(&zero),
        encode_str(&vec![0u8; 20]),
        wrap_list(&so_payload),
    ]
    .concat();
    let tx_payload = [wrap_list(&su_payload), encode_str(&b"w".to_vec())].concat();
    let bytes = wrap_list(&tx_payload);
    let decoded = Transaction::decode(&bytes);
    assert!(matches!(decoded, Err(DecodeError::FieldDecodeError(_))));
}

#[test]
fn truncated_input_is_rejected() {
    let signed = SignedTransaction {
        transactions: vec![make_transaction(b"parameters", b"witness")],
    };
    let mut encoded = signed.encode();
    encoded.pop();
    assert!(SignedTransaction::decode(&encoded).is_err());
}

#[test]
fn trailing_bytes_are_rejected() {
    let signed = SignedTransaction {
        transactions: vec![make_transaction(b"parameters", b"witness")],
    };
    let mut encoded = signed.encode();
    encoded.push(0x00);
    assert!(SignedTransaction::decode(&encoded).is_err());
}

#[test]
fn long_payloads_use_long_form_and_round_trip() {
    // 55 bytes sits on the short-form boundary, 56 just over it.
    for n in [55usize, 56, 300] {
        let t = make_transaction(&vec![0x41u8; n], b"w");
        let signed = SignedTransaction { transactions: vec![t] };
        let encoded = signed.encode();
        let decoded = SignedTransaction::decode(&encoded).unwrap();
        assert_eq!(decoded.transactions[0].state_update.new_state.parameters, vec![0x41u8; n]);
    }
}

#[test]
fn encoding_matches_reference_rlp_stream() {
    let signed = SignedTransaction {
        transactions: vec![make_transaction(b"parameters", b"witness")],
    };
    let encoded = signed.encode();

    let mut s = rlp::RlpStream::new();
    s.begin_list(1);
    s.begin_list(2);
    s.begin_list(5);
    s.append(&0u64);
    s.append(&0u64);
    s.append(&0u64);
    s.append(&ethereum_types::Address::zero());
    s.begin_list(2);
    s.append(&ethereum_types::Address::zero());
    s.append(&&b"parameters"[..]);
    s.append(&&b"witness"[..]);
    let reference = s.out().to_vec();

    assert_eq!(encoded, reference);
}

#[test]
fn reference_rlp_reader_sees_one_element_list() {
    let signed = SignedTransaction {
        transactions: vec![make_transaction(b"parameters", b"witness")],
    };
    let encoded = signed.encode();
    let r = rlp::Rlp::new(&encoded);
    assert!(r.is_list());
    assert_eq!(r.item_count().unwrap(), 1);
    let first = r.at(0).unwrap();
    assert!(first.is_list());
    assert_eq!(first.item_count().unwrap(), 2);
}

#[test]
fn integer_encoding_is_minimal_big_endian() {
    assert_eq!(plasma_codec::wire::be_encode(0), Vec::<u8>::new());
    assert_eq!(plasma_codec::wire::be_encode(1), vec![0x01]);
    assert_eq!(plasma_codec::wire::be_encode(0x0100), vec![0x01, 0x00]);
    assert_eq!(
        plasma_codec::wire::be_encode(u64::MAX),
        vec![0xff; 8]
    );
}
