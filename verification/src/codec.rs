//! The transaction hierarchy and its canonical codec.
//!
//! A `SignedTransaction` is an ordered bundle of `Transaction`s; each
//! transaction carries a `StateUpdate` (a coin-range ownership record)
//! and opaque witness bytes; a state update carries a `StateObject`
//! (a predicate identifier plus opaque parameter bytes).
//!
//! Every value has exactly one encoding, given by the `enc_*` spec
//! functions, and `decode` accepts exactly those byte sequences:
//! together the contracts state that `decode(encode(x))` returns `x`
//! and that nothing malformed is ever silently accepted.

use vstd::prelude::*;

use crate::wire::ItemV;
use crate::wire::RawItem;
use crate::wire::be_bytes;
use crate::wire::frames_seq;
use crate::wire::items_view;
use crate::wire::lemma_be_bytes_first;
use crate::wire::lemma_be_bytes_len;
use crate::wire::lemma_be_bytes_val;
use crate::wire::lemma_be_val_be_bytes;
use crate::wire::lemma_frame_unique;
use crate::wire::lemma_frames_seq_push;
use crate::wire::lemma_frames_seq_unique;
use crate::wire::lemma_parse_frame;
use crate::wire::lemma_parse_sound;
use crate::wire::lemma_pow256_values;
use crate::wire::be_decode;
use crate::wire::be_encode;
use crate::wire::encode_str;
use crate::wire::parse_header;
use crate::wire::rlp_frame;
use crate::wire::rlp_list;
use crate::wire::rlp_str;
use crate::wire::split_items;
use crate::wire::subvec;
use crate::wire::wrap_list;

verus! {

// ------------------------------------------------------------------
// Errors
// ------------------------------------------------------------------

/// Why a decode was rejected. Decoding never panics and never yields
/// a partial value: a malformed input is always one of these.
#[derive(Debug, PartialEq, Eq)]
pub enum DecodeError {
    /// The value has the wrong structural kind, for instance a scalar
    /// byte string where a list was required, or bytes that frame no
    /// canonical value at all.
    ShapeError,
    /// A list has the wrong element count for the target entity.
    ArityError,
    /// A field's sub-decode failed; wraps the underlying cause.
    FieldDecodeError(Box<DecodeError>),
}

// ------------------------------------------------------------------
// Data model
// ------------------------------------------------------------------

/// A fixed-size owner/predicate or chain/contract identifier.
#[derive(Debug, PartialEq, Eq)]
pub struct Address {
    pub bytes: Vec<u8>,
}

impl View for Address {
    type V = Seq<u8>;

    open spec fn view(&self) -> Seq<u8> {
        self.bytes@
    }
}

/// Number of bytes in an identifier.
pub const ADDRESS_LEN: usize = 20;

impl Address {
    pub open spec fn wf(&self) -> bool {
        self@.len() == ADDRESS_LEN
    }

    /// The all-zero identifier.
    pub fn zero() -> (r: Address)
        ensures
            r.wf(),
            r@ == Seq::new(ADDRESS_LEN as nat, |i: int| 0u8),
    {
        let mut bytes: Vec<u8> = Vec::new();
        let mut i: usize = 0;
        while i < ADDRESS_LEN
            invariant
                i <= ADDRESS_LEN,
                bytes@ =~= Seq::new(i as nat, |j: int| 0u8),
            decreases ADDRESS_LEN - i,
        {
            bytes.push(0);
            assert(bytes@ =~= Seq::new((i + 1) as nat, |j: int| 0u8));
            i += 1;
        }
        Address { bytes }
    }

    /// Wraps exactly `ADDRESS_LEN` bytes as an identifier.
    pub fn from_bytes(bytes: Vec<u8>) -> (r: Address)
        requires
            bytes@.len() == ADDRESS_LEN,
        ensures
            r.wf(),
            r@ == bytes@,
    {
        Address { bytes }
    }
}

/// An owner/predicate identifier plus opaque parameter bytes.
#[derive(Debug, PartialEq, Eq)]
pub struct StateObject {
    pub predicate: Address,
    pub parameters: Vec<u8>,
}

#[verifier::ext_equal]
pub ghost struct StateObjectV {
    pub predicate: Seq<u8>,
    pub parameters: Seq<u8>,
}

impl View for StateObject {
    type V = StateObjectV;

    open spec fn view(&self) -> StateObjectV {
        StateObjectV { predicate: self.predicate@, parameters: self.parameters@ }
    }
}

pub open spec fn so_wf(v: StateObjectV) -> bool {
    v.predicate.len() == ADDRESS_LEN
}

/// A coin-range ownership record: range `[start, end)` is owned per
/// `new_state` as of block `block` on chain contract `plasma_contract`.
#[derive(Debug, PartialEq, Eq)]
pub struct StateUpdate {
    pub start: u64,
    pub end: u64,
    pub block: u64,
    pub plasma_contract: Address,
    pub new_state: StateObject,
}

#[verifier::ext_equal]
pub ghost struct StateUpdateV {
    pub start: u64,
    pub end: u64,
    pub block: u64,
    pub plasma_contract: Seq<u8>,
    pub new_state: StateObjectV,
}

impl View for StateUpdate {
    type V = StateUpdateV;

    open spec fn view(&self) -> StateUpdateV {
        StateUpdateV {
            start: self.start,
            end: self.end,
            block: self.block,
            plasma_contract: self.plasma_contract@,
            new_state: self.new_state@,
        }
    }
}

pub open spec fn su_wf(v: StateUpdateV) -> bool {
    v.plasma_contract.len() == ADDRESS_LEN && so_wf(v.new_state)
}

/// A state update plus opaque witness bytes; exactly two positional
/// fields, `state_update` before `transaction_witness`.
#[derive(Debug, PartialEq, Eq)]
pub struct Transaction {
    pub state_update: StateUpdate,
    pub transaction_witness: Vec<u8>,
}

#[verifier::ext_equal]
pub ghost struct TransactionV {
    pub state_update: StateUpdateV,
    pub transaction_witness: Seq<u8>,
}

impl View for Transaction {
    type V = TransactionV;

    open spec fn view(&self) -> TransactionV {
        TransactionV {
            state_update: self.state_update@,
            transaction_witness: self.transaction_witness@,
        }
    }
}

pub open spec fn tx_wf(v: TransactionV) -> bool {
    su_wf(v.state_update)
}

/// An ordered bundle of transactions, accepted or rejected as a unit.
/// The empty bundle is valid.
#[derive(Debug, PartialEq, Eq)]
pub struct SignedTransaction {
    pub transactions: Vec<Transaction>,
}

#[verifier::ext_equal]
pub ghost struct SignedTransactionV {
    pub transactions: Seq<TransactionV>,
}

impl View for SignedTransaction {
    type V = SignedTransactionV;

    open spec fn view(&self) -> SignedTransactionV {
        SignedTransactionV {
            transactions: self.transactions@.map_values(|t: Transaction| t@),
        }
    }
}

pub open spec fn signed_wf(v: SignedTransactionV) -> bool {
    forall|i: int| 0 <= i < v.transactions.len() ==> tx_wf(#[trigger] v.transactions[i])
}

// ------------------------------------------------------------------
// Canonical encodings, at the specification level
// ------------------------------------------------------------------

/// List payload of a state object: predicate, then parameters.
pub open spec fn so_payload(v: StateObjectV) -> Seq<u8> {
    rlp_str(v.predicate) + rlp_str(v.parameters)
}

pub open spec fn enc_state_object(v: StateObjectV) -> Seq<u8> {
    rlp_list(so_payload(v))
}

/// List payload of a state update: start, end, block, contract,
/// new state, in declared order; integers as minimal big-endian.
pub open spec fn su_payload(v: StateUpdateV) -> Seq<u8> {
    rlp_str(be_bytes(v.start as nat)) + rlp_str(be_bytes(v.end as nat))
        + rlp_str(be_bytes(v.block as nat)) + rlp_str(v.plasma_contract)
        + enc_state_object(v.new_state)
}

pub open spec fn enc_state_update(v: StateUpdateV) -> Seq<u8> {
    rlp_list(su_payload(v))
}

/// List payload of a transaction: the encoded state update, then the
/// witness as a raw byte string.
pub open spec fn tx_payload(v: TransactionV) -> Seq<u8> {
    enc_state_update(v.state_update) + rlp_str(v.transaction_witness)
}

pub open spec fn enc_transaction(v: TransactionV) -> Seq<u8> {
    rlp_list(tx_payload(v))
}

/// Concatenation of the encodings of a bundle's members, in order.
pub open spec fn enc_transactions(s: Seq<TransactionV>) -> Seq<u8>
    decreases s.len(),
{
    if s.len() == 0 {
        Seq::empty()
    } else {
        enc_transaction(s[0]) + enc_transactions(s.drop_first())
    }
}

pub open spec fn enc_signed_transaction(v: SignedTransactionV) -> Seq<u8> {
    rlp_list(enc_transactions(v.transactions))
}

// ------------------------------------------------------------------
// The frames that make up each list payload
// ------------------------------------------------------------------

pub open spec fn so_items(v: StateObjectV) -> Seq<ItemV> {
    seq![
        ItemV { is_list: false, payload: v.predicate },
        ItemV { is_list: false, payload: v.parameters },
    ]
}

pub open spec fn su_items(v: StateUpdateV) -> Seq<ItemV> {
    seq![
        ItemV { is_list: false, payload: be_bytes(v.start as nat) },
        ItemV { is_list: false, payload: be_bytes(v.end as nat) },
        ItemV { is_list: false, payload: be_bytes(v.block as nat) },
        ItemV { is_list: false, payload: v.plasma_contract },
        ItemV { is_list: true, payload: so_payload(v.new_state) },
    ]
}

pub open spec fn tx_payload_items(v: TransactionV) -> Seq<ItemV> {
    seq![
        ItemV { is_list: true, payload: su_payload(v.state_update) },
        ItemV { is_list: false, payload: v.transaction_witness },
    ]
}

pub open spec fn tx_items(s: Seq<TransactionV>) -> Seq<ItemV> {
    s.map_values(|t: TransactionV| ItemV { is_list: true, payload: tx_payload(t) })
}

proof fn lemma_frames_seq2(a: ItemV, b: ItemV)
    ensures
        frames_seq(seq![a, b]) == rlp_frame(a.is_list, a.payload) + rlp_frame(b.is_list, b.payload),
{
    let s = seq![a, b];
    assert(s[0] == a);
    assert(s.drop_first() =~= seq![b]);
    assert(seq![b][0] == b);
    assert(seq![b].drop_first() =~= Seq::<ItemV>::empty());
    assert(frames_seq(Seq::<ItemV>::empty()) == Seq::<u8>::empty());
    assert(frames_seq(seq![b]) =~= rlp_frame(b.is_list, b.payload));
    assert(frames_seq(s) =~= rlp_frame(a.is_list, a.payload) + rlp_frame(b.is_list, b.payload));
}

proof fn lemma_frames_seq5(a: ItemV, b: ItemV, c: ItemV, d: ItemV, e: ItemV)
    ensures
        frames_seq(seq![a, b, c, d, e]) == rlp_frame(a.is_list, a.payload)
            + rlp_frame(b.is_list, b.payload) + rlp_frame(c.is_list, c.payload)
            + rlp_frame(d.is_list, d.payload) + rlp_frame(e.is_list, e.payload),
{
    let s = seq![a, b, c, d, e];
    assert(s[0] == a);
    assert(s.drop_first() =~= seq![b, c, d, e]);
    assert(seq![b, c, d, e][0] == b);
    assert(seq![b, c, d, e].drop_first() =~= seq![c, d, e]);
    assert(seq![c, d, e][0] == c);
    assert(seq![c, d, e].drop_first() =~= seq![d, e]);
    lemma_frames_seq2(d, e);
    assert(frames_seq(seq![c, d, e]) == rlp_frame(c.is_list, c.payload) + frames_seq(seq![d, e]));
    assert(frames_seq(seq![b, c, d, e]) == rlp_frame(b.is_list, b.payload) + frames_seq(seq![c, d, e]));
    assert(frames_seq(s) == rlp_frame(a.is_list, a.payload) + frames_seq(seq![b, c, d, e]));
    assert(frames_seq(s) =~= rlp_frame(a.is_list, a.payload)
        + rlp_frame(b.is_list, b.payload) + rlp_frame(c.is_list, c.payload)
        + rlp_frame(d.is_list, d.payload) + rlp_frame(e.is_list, e.payload));
}

pub proof fn lemma_so_payload_items(v: StateObjectV)
    ensures
        so_payload(v) == frames_seq(so_items(v)),
{
    lemma_frames_seq2(so_items(v)[0], so_items(v)[1]);
    assert(so_items(v) =~= seq![so_items(v)[0], so_items(v)[1]]);
}

pub proof fn lemma_su_payload_items(v: StateUpdateV)
    ensures
        su_payload(v) == frames_seq(su_items(v)),
{
    let s = su_items(v);
    lemma_frames_seq5(s[0], s[1], s[2], s[3], s[4]);
    assert(s =~= seq![s[0], s[1], s[2], s[3], s[4]]);
}

pub proof fn lemma_tx_payload_items(v: TransactionV)
    ensures
        tx_payload(v) == frames_seq(tx_payload_items(v)),
{
    lemma_frames_seq2(tx_payload_items(v)[0], tx_payload_items(v)[1]);
    assert(tx_payload_items(v) =~= seq![tx_payload_items(v)[0], tx_payload_items(v)[1]]);
}

pub proof fn lemma_enc_transactions_items(s: Seq<TransactionV>)
    ensures
        enc_transactions(s) == frames_seq(tx_items(s)),
    decreases s.len(),
{
    if s.len() == 0 {
        assert(tx_items(s) =~= Seq::<ItemV>::empty());
    } else {
        lemma_enc_transactions_items(s.drop_first());
        assert(tx_items(s).drop_first() =~= tx_items(s.drop_first()));
        assert(tx_items(s)[0] == ItemV { is_list: true, payload: tx_payload(s[0]) });
        assert(frames_seq(tx_items(s)) == rlp_frame(true, tx_payload(s[0]))
            + frames_seq(tx_items(s).drop_first()));
        assert(enc_transactions(s) =~= frames_seq(tx_items(s)));
    }
}

pub proof fn lemma_enc_transactions_push(s: Seq<TransactionV>, t: TransactionV)
    ensures
        enc_transactions(s.push(t)) == enc_transactions(s) + enc_transaction(t),
{
    lemma_enc_transactions_items(s.push(t));
    lemma_enc_transactions_items(s);
    assert(tx_items(s.push(t)) =~= tx_items(s).push(ItemV { is_list: true, payload: tx_payload(t) }));
    lemma_frames_seq_push(tx_items(s), ItemV { is_list: true, payload: tx_payload(t) });
}

// ------------------------------------------------------------------
// Canonicity: distinct values never share an encoding
// ------------------------------------------------------------------

proof fn lemma_so_payload_unique(v1: StateObjectV, v2: StateObjectV)
    requires
        so_payload(v1) == so_payload(v2),
        so_payload(v1).len() < 0x1_0000_0000_0000_0000,
    ensures
        v1 == v2,
{
    lemma_so_payload_items(v1);
    lemma_so_payload_items(v2);
    lemma_frames_seq_unique(so_items(v1), so_items(v2));
    assert(so_items(v1)[0] == so_items(v2)[0]);
    assert(so_items(v1)[1] == so_items(v2)[1]);
    assert(v1 =~= v2);
}

proof fn lemma_su_payload_unique(v1: StateUpdateV, v2: StateUpdateV)
    requires
        su_payload(v1) == su_payload(v2),
        su_payload(v1).len() < 0x1_0000_0000_0000_0000,
    ensures
        v1 == v2,
{
    lemma_su_payload_items(v1);
    lemma_su_payload_items(v2);
    lemma_frames_seq_unique(su_items(v1), su_items(v2));
    assert(su_items(v1)[0] == su_items(v2)[0]);
    assert(su_items(v1)[1] == su_items(v2)[1]);
    assert(su_items(v1)[2] == su_items(v2)[2]);
    assert(su_items(v1)[3] == su_items(v2)[3]);
    assert(su_items(v1)[4] == su_items(v2)[4]);
    lemma_be_bytes_val(v1.start as nat);
    lemma_be_bytes_val(v2.start as nat);
    lemma_be_bytes_val(v1.end as nat);
    lemma_be_bytes_val(v2.end as nat);
    lemma_be_bytes_val(v1.block as nat);
    lemma_be_bytes_val(v2.block as nat);
    crate::wire::lemma_frames_seq_len_ge(su_items(v1), 4);
    lemma_so_payload_unique(v1.new_state, v2.new_state);
    assert(v1 =~= v2);
}

proof fn lemma_tx_payload_unique(v1: TransactionV, v2: TransactionV)
    requires
        tx_payload(v1) == tx_payload(v2),
        tx_payload(v1).len() < 0x1_0000_0000_0000_0000,
    ensures
        v1 == v2,
{
    lemma_tx_payload_items(v1);
    lemma_tx_payload_items(v2);
    lemma_frames_seq_unique(tx_payload_items(v1), tx_payload_items(v2));
    assert(tx_payload_items(v1)[0] == tx_payload_items(v2)[0]);
    assert(tx_payload_items(v1)[1] == tx_payload_items(v2)[1]);
    crate::wire::lemma_frames_seq_len_ge(tx_payload_items(v1), 0);
    lemma_su_payload_unique(v1.state_update, v2.state_update);
    assert(v1 =~= v2);
}

/// Law: the encoding is canonical. Each bundle has exactly one byte
/// representation, and no two bundles share one: equal encodings mean
/// equal values, so identity derived from the encoded bytes (a hash of
/// them, deduplication over them) identifies the logical value. The
/// length bound is the machine limit on any byte buffer that can hold
/// an encoding.
pub proof fn lemma_encoding_canonical(v1: SignedTransactionV, v2: SignedTransactionV)
    requires
        enc_signed_transaction(v1) == enc_signed_transaction(v2),
        enc_signed_transaction(v1).len() < 0x1_0000_0000_0000_0000,
    ensures
        v1 == v2,
{
    let p1 = enc_transactions(v1.transactions);
    let p2 = enc_transactions(v2.transactions);
    assert((rlp_frame(true, p1) + Seq::<u8>::empty()) =~= (rlp_frame(true, p2) + Seq::<u8>::empty()));
    lemma_frame_unique(true, p1, Seq::<u8>::empty(), true, p2, Seq::<u8>::empty());
    lemma_enc_transactions_items(v1.transactions);
    lemma_enc_transactions_items(v2.transactions);
    lemma_frames_seq_unique(tx_items(v1.transactions), tx_items(v2.transactions));
    assert(v1.transactions.len() == v2.transactions.len());
    assert forall|j: int| 0 <= j < v1.transactions.len()
        implies v1.transactions[j] == v2.transactions[j] by {
        assert(tx_items(v1.transactions)[j] == tx_items(v2.transactions)[j]);
        assert(tx_payload(v1.transactions[j]) == tx_payload(v2.transactions[j]));
        crate::wire::lemma_frames_seq_len_ge(tx_items(v1.transactions), j);
        lemma_tx_payload_unique(v1.transactions[j], v2.transactions[j]);
    }
    assert(v1.transactions =~= v2.transactions);
    assert(v1 =~= v2);
}

// ------------------------------------------------------------------
// Encoding
// ------------------------------------------------------------------

/// Frames a value as a byte string: integers first become their
/// minimal big-endian bytes.
fn encode_u64(n: u64) -> (r: Vec<u8>)
    ensures
        r@ == rlp_str(be_bytes(n as nat)),
{
    let be = be_encode(n);
    encode_str(&be)
}

impl StateObject {
    pub open spec fn wf(&self) -> bool {
        so_wf(self@)
    }

    /// Emits the canonical encoding: a two-element list of predicate
    /// and parameters.
    pub fn encode(&self) -> (r: Vec<u8>)
        ensures
            r@ == enc_state_object(self@),
    {
        let mut payload = encode_str(&self.predicate.bytes);
        let mut params = encode_str(&self.parameters);
        payload.append(&mut params);
        wrap_list(&payload)
    }
}

impl StateUpdate {
    pub open spec fn wf(&self) -> bool {
        su_wf(self@)
    }

    /// Emits the canonical encoding: a five-element list of start,
    /// end, block, contract and new state, in declared order.
    pub fn encode(&self) -> (r: Vec<u8>)
        ensures
            r@ == enc_state_update(self@),
    {
        let mut payload = encode_u64(self.start);
        let mut part = encode_u64(self.end);
        payload.append(&mut part);
        let mut part = encode_u64(self.block);
        payload.append(&mut part);
        let mut part = encode_str(&self.plasma_contract.bytes);
        payload.append(&mut part);
        let mut part = self.new_state.encode();
        payload.append(&mut part);
        proof {
            assert(payload@ =~= su_payload(self@));
        }
        wrap_list(&payload)
    }
}

impl Transaction {
    pub open spec fn wf(&self) -> bool {
        tx_wf(self@)
    }

    /// Emits the canonical encoding: a two-element list of the encoded
    /// state update and the raw witness bytes.
    pub fn encode(&self) -> (r: Vec<u8>)
        ensures
            r@ == enc_transaction(self@),
    {
        let mut payload = self.state_update.encode();
        let mut part = encode_str(&self.transaction_witness);
        payload.append(&mut part);
        wrap_list(&payload)
    }
}

impl SignedTransaction {
    pub open spec fn wf(&self) -> bool {
        signed_wf(self@)
    }

    /// Emits the canonical encoding: one list element per bundled
    /// transaction, preserving order; the empty bundle encodes too.
    pub fn encode(&self) -> (r: Vec<u8>)
        ensures
            r@ == enc_signed_transaction(self@),
    {
        let mut payload: Vec<u8> = Vec::new();
        let mut i: usize = 0;
        proof {
            assert(self@.transactions.take(0) =~= Seq::<TransactionV>::empty());
        }
        while i < self.transactions.len()
            invariant
                i <= self.transactions.len(),
                payload@ == enc_transactions(self@.transactions.take(i as int)),
            decreases self.transactions.len() - i,
        {
            let mut part = (&self.transactions[i]).encode();
            proof {
                lemma_enc_transactions_push(self@.transactions.take(i as int), self@.transactions[i as int]);
                assert(self@.transactions.take(i + 1)
                    =~= self@.transactions.take(i as int).push(self@.transactions[i as int]));
            }
            payload.append(&mut part);
            i += 1;
        }
        proof {
            assert(self@.transactions.take(self.transactions@.len() as int) =~= self@.transactions);
        }
        wrap_list(&payload)
    }
}

// ------------------------------------------------------------------
// Decoding
// ------------------------------------------------------------------

/// Reads a canonically encoded unsigned integer from one list item:
/// a byte string of at most eight bytes with no leading zero.
fn decode_u64_item(it: &RawItem) -> (r: Result<u64, DecodeError>)
    ensures
        r is Ok ==> it@ == (ItemV { is_list: false, payload: be_bytes(r->Ok_0 as nat) }),
        forall|n: u64| it@ == (ItemV { is_list: false, payload: be_bytes(n as nat) })
            ==> r is Ok && r->Ok_0 == n,
{
    if it.is_list {
        return Err(DecodeError::FieldDecodeError(Box::new(DecodeError::ShapeError)));
    }
    let len = it.payload.len();
    if len > 8 {
        proof {
            assert forall|n: u64|
                it@ == (ItemV { is_list: false, payload: be_bytes(n as nat) }) implies false by {
                lemma_pow256_values();
                lemma_be_bytes_len(n as nat, 8);
            }
        }
        return Err(DecodeError::FieldDecodeError(Box::new(DecodeError::ShapeError)));
    }
    if len > 0 && it.payload[0] == 0 {
        proof {
            assert forall|n: u64|
                it@ == (ItemV { is_list: false, payload: be_bytes(n as nat) }) implies false by {
                assert(n > 0);
                lemma_be_bytes_first(n as nat);
            }
        }
        return Err(DecodeError::FieldDecodeError(Box::new(DecodeError::ShapeError)));
    }
    let val = be_decode(&it.payload, 0, len);
    proof {
        assert(it.payload@.subrange(0, len as int) =~= it.payload@);
        lemma_be_val_be_bytes(it.payload@);
        assert(it@ =~= (ItemV { is_list: false, payload: be_bytes(val as nat) }));
        assert forall|n: u64|
            it@ == (ItemV { is_list: false, payload: be_bytes(n as nat) }) implies val == n by {
            lemma_be_bytes_val(n as nat);
        }
    }
    Ok(val)
}

/// Decodes a state object from the payload of its list frame.
pub fn decode_so_payload(p: &Vec<u8>) -> (r: Result<StateObject, DecodeError>)
    ensures
        r is Ok ==> r->Ok_0.wf() && p@ == so_payload(r->Ok_0@),
        forall|v: StateObjectV| so_wf(v) && p@ == #[trigger] so_payload(v)
            ==> r is Ok && r->Ok_0@ == v,
        forall|items: Seq<ItemV>| p@ == #[trigger] frames_seq(items) && items.len() != 2
            ==> r == Err::<StateObject, DecodeError>(DecodeError::ArityError),
{
    let plen = p.len();
    assert(plen < 0x1_0000_0000_0000_0000);
    let items = split_items(p);
    match items {
        None => {
            proof {
                assert forall|v: StateObjectV| so_wf(v) && p@ == #[trigger] so_payload(v)
                    implies false by {
                    lemma_so_payload_items(v);
                }
            }
            Err(DecodeError::ShapeError)
        },
        Some(mut items) => {
            let ghost iv = items_view(items@);
            if items.len() != 2 {
                proof {
                    assert forall|v: StateObjectV| so_wf(v) && p@ == #[trigger] so_payload(v)
                        implies false by {
                        lemma_so_payload_items(v);
                        lemma_frames_seq_unique(iv, so_items(v));
                    }
                }
                return Err(DecodeError::ArityError);
            }
            let it1 = items.pop().unwrap();
            let it0 = items.pop().unwrap();
            proof {
                assert(iv =~= seq![it0@, it1@]);
                assert forall|items2: Seq<ItemV>| p@ == #[trigger] frames_seq(items2)
                    implies items2.len() == 2 by {
                    lemma_frames_seq_unique(iv, items2);
                }
            }
            if it0.is_list || it1.is_list || it0.payload.len() != ADDRESS_LEN {
                proof {
                    assert forall|v: StateObjectV| so_wf(v) && p@ == #[trigger] so_payload(v)
                        implies false by {
                        lemma_so_payload_items(v);
                        lemma_frames_seq_unique(iv, so_items(v));
                        assert(iv[0] == so_items(v)[0]);
                        assert(iv[1] == so_items(v)[1]);
                    }
                }
                return Err(DecodeError::FieldDecodeError(Box::new(DecodeError::ShapeError)));
            }
            let so = StateObject {
                predicate: Address { bytes: it0.payload },
                parameters: it1.payload,
            };
            proof {
                lemma_frames_seq2(it0@, it1@);
                assert(p@ =~= so_payload(so@));
                assert forall|v: StateObjectV| so_wf(v) && p@ == #[trigger] so_payload(v)
                    implies so@ == v by {
                    lemma_so_payload_items(v);
                    lemma_frames_seq_unique(iv, so_items(v));
                    assert(iv[0] == so_items(v)[0]);
                    assert(iv[1] == so_items(v)[1]);
                    assert(so@ =~= v);
                }
            }
            Ok(so)
        },
    }
}

/// Decodes a state update from the payload of its list frame.
pub fn decode_su_payload(p: &Vec<u8>) -> (r: Result<StateUpdate, DecodeError>)
    ensures
        r is Ok ==> r->Ok_0.wf() && p@ == su_payload(r->Ok_0@),
        forall|v: StateUpdateV| su_wf(v) && p@ == #[trigger] su_payload(v)
            ==> r is Ok && r->Ok_0@ == v,
        forall|items: Seq<ItemV>| p@ == #[trigger] frames_seq(items) && items.len() != 5
            ==> r == Err::<StateUpdate, DecodeError>(DecodeError::ArityError),
{
    let plen = p.len();
    assert(plen < 0x1_0000_0000_0000_0000);
    let items = split_items(p);
    match items {
        None => {
            proof {
                assert forall|v: StateUpdateV| su_wf(v) && p@ == #[trigger] su_payload(v)
                    implies false by {
                    lemma_su_payload_items(v);
                }
            }
            Err(DecodeError::ShapeError)
        },
        Some(mut items) => {
            let ghost iv = items_view(items@);
            if items.len() != 5 {
                proof {
                    assert forall|v: StateUpdateV| su_wf(v) && p@ == #[trigger] su_payload(v)
                        implies false by {
                        lemma_su_payload_items(v);
                        lemma_frames_seq_unique(iv, su_items(v));
                    }
                }
                return Err(DecodeError::ArityError);
            }
            let it4 = items.pop().unwrap();
            let it3 = items.pop().unwrap();
            let it2 = items.pop().unwrap();
            let it1 = items.pop().unwrap();
            let it0 = items.pop().unwrap();
            proof {
                assert(iv =~= seq![it0@, it1@, it2@, it3@, it4@]);
                assert forall|items2: Seq<ItemV>| p@ == #[trigger] frames_seq(items2)
                    implies items2.len() == 5 by {
                    lemma_frames_seq_unique(iv, items2);
                }
                assert forall|v: StateUpdateV| su_wf(v) && p@ == #[trigger] su_payload(v)
                    implies iv == su_items(v) by {
                    lemma_su_payload_items(v);
                    lemma_frames_seq_unique(iv, su_items(v));
                }
            }
            let start = match decode_u64_item(&it0) {
                Ok(n) => n,
                Err(e) => {
                    proof {
                        assert forall|v: StateUpdateV| su_wf(v) && p@ == #[trigger] su_payload(v)
                            implies false by {
                            assert(iv[0] == su_items(v)[0]);
                        }
                    }
                    return Err(e);
                },
            };
            let end = match decode_u64_item(&it1) {
                Ok(n) => n,
                Err(e) => {
                    proof {
                        assert forall|v: StateUpdateV| su_wf(v) && p@ == #[trigger] su_payload(v)
                            implies false by {
                            assert(iv[1] == su_items(v)[1]);
                        }
                    }
                    return Err(e);
                },
            };
            let block = match decode_u64_item(&it2) {
                Ok(n) => n,
                Err(e) => {
                    proof {
                        assert forall|v: StateUpdateV| su_wf(v) && p@ == #[trigger] su_payload(v)
                            implies false by {
                            assert(iv[2] == su_items(v)[2]);
                        }
                    }
                    return Err(e);
                },
            };
            if it3.is_list || it3.payload.len() != ADDRESS_LEN {
                proof {
                    assert forall|v: StateUpdateV| su_wf(v) && p@ == #[trigger] su_payload(v)
                        implies false by {
                        assert(iv[3] == su_items(v)[3]);
                    }
                }
                return Err(DecodeError::FieldDecodeError(Box::new(DecodeError::ShapeError)));
            }
            if !it4.is_list {
                proof {
                    assert forall|v: StateUpdateV| su_wf(v) && p@ == #[trigger] su_payload(v)
                        implies false by {
                        assert(iv[4] == su_items(v)[4]);
                    }
                }
                return Err(DecodeError::FieldDecodeError(Box::new(DecodeError::ShapeError)));
            }
            let new_state = match decode_so_payload(&it4.payload) {
                Ok(so) => so,
                Err(e) => {
                    proof {
                        assert forall|v: StateUpdateV| su_wf(v) && p@ == #[trigger] su_payload(v)
                            implies false by {
                            assert(iv[4] == su_items(v)[4]);
                        }
                    }
                    return Err(DecodeError::FieldDecodeError(Box::new(e)));
                },
            };
            let su = StateUpdate {
                start,
                end,
                block,
                plasma_contract: Address { bytes: it3.payload },
                new_state,
            };
            proof {
                lemma_frames_seq5(it0@, it1@, it2@, it3@, it4@);
                assert(p@ =~= su_payload(su@));
                assert forall|v: StateUpdateV| su_wf(v) && p@ == #[trigger] su_payload(v)
                    implies su@ == v by {
                    assert(iv[0] == su_items(v)[0]);
                    assert(iv[1] == su_items(v)[1]);
                    assert(iv[2] == su_items(v)[2]);
                    assert(iv[3] == su_items(v)[3]);
                    assert(iv[4] == su_items(v)[4]);
                    assert(su@ =~= v);
                }
            }
            Ok(su)
        },
    }
}

/// Decodes a transaction from the payload of its list frame: exactly
/// two positions, the element count checked before either field.
pub fn decode_tx_payload(p: &Vec<u8>) -> (r: Result<Transaction, DecodeError>)
    ensures
        r is Ok ==> r->Ok_0.wf() && p@ == tx_payload(r->Ok_0@),
        forall|v: TransactionV| tx_wf(v) && p@ == #[trigger] tx_payload(v)
            ==> r is Ok && r->Ok_0@ == v,
        forall|items: Seq<ItemV>| p@ == #[trigger] frames_seq(items) && items.len() != 2
            ==> r == Err::<Transaction, DecodeError>(DecodeError::ArityError),
{
    let plen = p.len();
    assert(plen < 0x1_0000_0000_0000_0000);
    let items = split_items(p);
    match items {
        None => {
            proof {
                assert forall|v: TransactionV| tx_wf(v) && p@ == #[trigger] tx_payload(v)
                    implies false by {
                    lemma_tx_payload_items(v);
                }
            }
            Err(DecodeError::ShapeError)
        },
        Some(mut items) => {
            let ghost iv = items_view(items@);
            if items.len() != 2 {
                proof {
                    assert forall|v: TransactionV| tx_wf(v) && p@ == #[trigger] tx_payload(v)
                        implies false by {
                        lemma_tx_payload_items(v);
                        lemma_frames_seq_unique(iv, tx_payload_items(v));
                    }
                }
                return Err(DecodeError::ArityError);
            }
            let it1 = items.pop().unwrap();
            let it0 = items.pop().unwrap();
            proof {
                assert(iv =~= seq![it0@, it1@]);
                assert forall|items2: Seq<ItemV>| p@ == #[trigger] frames_seq(items2)
                    implies items2.len() == 2 by {
                    lemma_frames_seq_unique(iv, items2);
                }
                assert forall|v: TransactionV| tx_wf(v) && p@ == #[trigger] tx_payload(v)
                    implies iv == tx_payload_items(v) by {
                    lemma_tx_payload_items(v);
                    lemma_frames_seq_unique(iv, tx_payload_items(v));
                }
            }
            if !it0.is_list {
                proof {
                    assert forall|v: TransactionV| tx_wf(v) && p@ == #[trigger] tx_payload(v)
                        implies false by {
                        assert(iv[0] == tx_payload_items(v)[0]);
                    }
                }
                return Err(DecodeError::FieldDecodeError(Box::new(DecodeError::ShapeError)));
            }
            let state_update = match decode_su_payload(&it0.payload) {
                Ok(su) => su,
                Err(e) => {
                    proof {
                        assert forall|v: TransactionV| tx_wf(v) && p@ == #[trigger] tx_payload(v)
                            implies false by {
                            assert(iv[0] == tx_payload_items(v)[0]);
                        }
                    }
                    return Err(DecodeError::FieldDecodeError(Box::new(e)));
                },
            };
            if it1.is_list {
                proof {
                    assert forall|v: TransactionV| tx_wf(v) && p@ == #[trigger] tx_payload(v)
                        implies false by {
                        assert(iv[1] == tx_payload_items(v)[1]);
                    }
                }
                return Err(DecodeError::FieldDecodeError(Box::new(DecodeError::ShapeError)));
            }
            let t = Transaction { state_update, transaction_witness: it1.payload };
            proof {
                lemma_frames_seq2(it0@, it1@);
                assert(p@ =~= tx_payload(t@));
                assert forall|v: TransactionV| tx_wf(v) && p@ == #[trigger] tx_payload(v)
                    implies t@ == v by {
                    assert(iv[0] == tx_payload_items(v)[0]);
                    assert(iv[1] == tx_payload_items(v)[1]);
                    assert(t@ =~= v);
                }
            }
            Ok(t)
        },
    }
}

impl Transaction {
    /// Decodes a complete encoded transaction. Accepts exactly the
    /// canonical encodings; a wrong element count is an arity error,
    /// reported before any field is examined.
    pub fn decode(bytes: &Vec<u8>) -> (r: Result<Transaction, DecodeError>)
        ensures
            r is Ok ==> r->Ok_0.wf() && bytes@ == enc_transaction(r->Ok_0@),
            forall|v: TransactionV| tx_wf(v) && bytes@ == #[trigger] enc_transaction(v)
                ==> r is Ok && r->Ok_0@ == v,
            forall|items: Seq<ItemV>| bytes@ == rlp_list(#[trigger] frames_seq(items))
                && items.len() != 2 ==> r == Err::<Transaction, DecodeError>(DecodeError::ArityError),
    {
        let blen = bytes.len();
        assert(blen < 0x1_0000_0000_0000_0000);
        let ghost s = bytes@.skip(0);
        proof {
            assert(s =~= bytes@);
        }
        match parse_header(bytes, 0) {
            None => {
                proof {
                    assert forall|v: TransactionV| tx_wf(v) && bytes@ == #[trigger] enc_transaction(v)
                        implies false by {
                        lemma_parse_frame(true, tx_payload(v), Seq::<u8>::empty());
                        assert(rlp_frame(true, tx_payload(v)) + Seq::<u8>::empty() =~= bytes@);
                    }
                    assert forall|items: Seq<ItemV>| bytes@ == rlp_list(#[trigger] frames_seq(items))
                        implies false by {
                        lemma_parse_frame(true, frames_seq(items), Seq::<u8>::empty());
                        assert(rlp_frame(true, frames_seq(items)) + Seq::<u8>::empty() =~= bytes@);
                    }
                }
                Err(DecodeError::ShapeError)
            },
            Some((is_list, hl, pl)) => {
                if !is_list || hl + pl != bytes.len() {
                    proof {
                        assert forall|v: TransactionV| tx_wf(v) && bytes@ == #[trigger] enc_transaction(v)
                            implies false by {
                            lemma_parse_frame(true, tx_payload(v), Seq::<u8>::empty());
                            assert(rlp_frame(true, tx_payload(v)) + Seq::<u8>::empty() =~= bytes@);
                        }
                        assert forall|items: Seq<ItemV>| bytes@ == rlp_list(#[trigger] frames_seq(items))
                            implies false by {
                            lemma_parse_frame(true, frames_seq(items), Seq::<u8>::empty());
                            assert(rlp_frame(true, frames_seq(items)) + Seq::<u8>::empty() =~= bytes@);
                        }
                    }
                    return Err(DecodeError::ShapeError);
                }
                let payload = subvec(bytes, hl, hl + pl);
                proof {
                    lemma_parse_sound(s);
                    assert(s.subrange(0, (hl + pl) as int) =~= bytes@);
                    assert(s.subrange(hl as int, (hl + pl) as int) =~= payload@);
                    assert(bytes@ == rlp_list(payload@));
                    assert forall|v: TransactionV| tx_wf(v) && bytes@ == #[trigger] enc_transaction(v)
                        implies payload@ == tx_payload(v) by {
                        assert((rlp_frame(true, payload@) + Seq::<u8>::empty())
                            =~= (rlp_frame(true, tx_payload(v)) + Seq::<u8>::empty()));
                        lemma_frame_unique(
                            true, payload@, Seq::<u8>::empty(),
                            true, tx_payload(v), Seq::<u8>::empty(),
                        );
                    }
                    assert forall|items: Seq<ItemV>| bytes@ == rlp_list(#[trigger] frames_seq(items))
                        implies payload@ == frames_seq(items) by {
                        assert((rlp_frame(true, payload@) + Seq::<u8>::empty())
                            =~= (rlp_frame(true, frames_seq(items)) + Seq::<u8>::empty()));
                        lemma_frame_unique(
                            true, payload@, Seq::<u8>::empty(),
                            true, frames_seq(items), Seq::<u8>::empty(),
                        );
                    }
                }
                decode_tx_payload(&payload)
            },
        }
    }
}

impl SignedTransaction {
    /// Decodes a complete encoded bundle. A non-list input is rejected
    /// as a shape error before any element is examined; the first
    /// element failure aborts the whole decode, so no partial bundle
    /// is ever produced.
    #[verifier::rlimit(60)]
    pub fn decode(bytes: &Vec<u8>) -> (r: Result<SignedTransaction, DecodeError>)
        ensures
            r is Ok ==> r->Ok_0.wf() && bytes@ == enc_signed_transaction(r->Ok_0@),
            forall|v: SignedTransactionV| signed_wf(v) && bytes@ == #[trigger] enc_signed_transaction(v)
                ==> r is Ok && r->Ok_0@ == v,
            forall|p: Seq<u8>| bytes@ == #[trigger] rlp_str(p)
                ==> r == Err::<SignedTransaction, DecodeError>(DecodeError::ShapeError),
    {
        let blen = bytes.len();
        assert(blen < 0x1_0000_0000_0000_0000);
        let ghost s = bytes@.skip(0);
        proof {
            assert(s =~= bytes@);
        }
        match parse_header(bytes, 0) {
            None => {
                proof {
                    assert forall|v: SignedTransactionV|
                        signed_wf(v) && bytes@ == #[trigger] enc_signed_transaction(v)
                        implies false by {
                        lemma_parse_frame(true, enc_transactions(v.transactions), Seq::<u8>::empty());
                        assert(rlp_frame(true, enc_transactions(v.transactions)) + Seq::<u8>::empty()
                            =~= bytes@);
                    }
                }
                Err(DecodeError::ShapeError)
            },
            Some((is_list, hl, pl)) => {
                if !is_list || hl + pl != bytes.len() {
                    proof {
                        assert forall|v: SignedTransactionV|
                            signed_wf(v) && bytes@ == #[trigger] enc_signed_transaction(v)
                            implies false by {
                            lemma_parse_frame(true, enc_transactions(v.transactions), Seq::<u8>::empty());
                            assert(rlp_frame(true, enc_transactions(v.transactions)) + Seq::<u8>::empty()
                                =~= bytes@);
                        }
                    }
                    return Err(DecodeError::ShapeError);
                }
                let payload = subvec(bytes, hl, hl + pl);
                proof {
                    lemma_parse_sound(s);
                    assert(s.subrange(0, (hl + pl) as int) =~= bytes@);
                    assert(s.subrange(hl as int, (hl + pl) as int) =~= payload@);
                    assert(bytes@ == rlp_list(payload@));
                    assert forall|v: SignedTransactionV|
                        signed_wf(v) && bytes@ == #[trigger] enc_signed_transaction(v)
                        implies payload@ == enc_transactions(v.transactions) by {
                        assert((rlp_frame(true, payload@) + Seq::<u8>::empty())
                            =~= (rlp_frame(true, enc_transactions(v.transactions)) + Seq::<u8>::empty()));
                        lemma_frame_unique(
                            true, payload@, Seq::<u8>::empty(),
                            true, enc_transactions(v.transactions), Seq::<u8>::empty(),
                        );
                    }
                    assert forall|p2: Seq<u8>| bytes@ == #[trigger] rlp_str(p2) implies false by {
                        lemma_parse_frame(false, p2, Seq::<u8>::empty());
                        assert(rlp_frame(false, p2) + Seq::<u8>::empty() =~= bytes@);
                    }
                }
                let items = match split_items(&payload) {
                    None => {
                        proof {
                            assert forall|v: SignedTransactionV|
                                signed_wf(v) && bytes@ == #[trigger] enc_signed_transaction(v)
                                implies false by {
                                lemma_enc_transactions_items(v.transactions);
                            }
                        }
                        return Err(DecodeError::ShapeError);
                    },
                    Some(items) => items,
                };
                let ghost iv = items_view(items@);
                proof {
                    assert forall|v: SignedTransactionV|
                        signed_wf(v) && bytes@ == #[trigger] enc_signed_transaction(v)
                        implies iv == tx_items(v.transactions) && v.transactions.len() == iv.len() by {
                        lemma_enc_transactions_items(v.transactions);
                        lemma_frames_seq_unique(iv, tx_items(v.transactions));
                    }
                }
                let mut txs: Vec<Transaction> = Vec::new();
                let mut i: usize = 0;
                while i < items.len()
                    invariant
                        i <= items.len(),
                        txs@.len() == i,
                        iv == items_view(items@),
                        iv.len() == items@.len(),
                        forall|v: SignedTransactionV|
                            signed_wf(v) && bytes@ == #[trigger] enc_signed_transaction(v)
                                ==> iv == tx_items(v.transactions) && v.transactions.len() == iv.len(),
                        forall|p2: Seq<u8>| bytes@ != #[trigger] rlp_str(p2),
                        forall|j: int| 0 <= j < i ==> (#[trigger] iv[j]).is_list
                            && tx_wf(txs@[j]@) && iv[j].payload == tx_payload(txs@[j]@),
                        forall|j: int, v2: TransactionV|
                            #![trigger iv[j], tx_payload(v2)]
                            0 <= j < i && tx_wf(v2) && iv[j].payload == tx_payload(v2)
                                ==> txs@[j]@ == v2,
                    decreases items.len() - i,
                {
                    let it = &items[i];
                    if !it.is_list {
                        proof {
                            assert forall|v: SignedTransactionV|
                                signed_wf(v) && bytes@ == #[trigger] enc_signed_transaction(v)
                                implies false by {
                                assert(iv[i as int] == tx_items(v.transactions)[i as int]);
                            }
                        }
                        return Err(DecodeError::ShapeError);
                    }
                    let t = match decode_tx_payload(&it.payload) {
                        Ok(t) => t,
                        Err(e) => {
                            proof {
                                assert forall|v: SignedTransactionV|
                                    signed_wf(v) && bytes@ == #[trigger] enc_signed_transaction(v)
                                    implies false by {
                                    assert(iv[i as int] == tx_items(v.transactions)[i as int]);
                                    assert(tx_wf(v.transactions[i as int]));
                                }
                            }
                            return Err(e);
                        },
                    };
                    txs.push(t);
                    i += 1;
                }
                let out = SignedTransaction { transactions: txs };
                proof {
                    assert(iv =~= tx_items(out@.transactions)) by {
                        assert(out@.transactions.len() == iv.len());
                        assert(forall|j: int| 0 <= j < iv.len()
                            ==> tx_items(out@.transactions)[j]
                                == (ItemV { is_list: true, payload: tx_payload(out@.transactions[j]) }));
                    }
                    lemma_enc_transactions_items(out@.transactions);
                    assert(payload@ == enc_transactions(out@.transactions));
                    assert forall|j: int| 0 <= j < out@.transactions.len()
                        implies tx_wf(out@.transactions[j]) by {
                        assert(iv[j].is_list);
                        assert(out@.transactions[j] == txs@[j]@);
                    }
                    assert(out.wf());
                    assert forall|v: SignedTransactionV|
                        signed_wf(v) && bytes@ == #[trigger] enc_signed_transaction(v)
                        implies out@ == v by {
                        assert(iv == tx_items(v.transactions));
                        assert(out@.transactions.len() == v.transactions.len());
                        assert forall|j: int| 0 <= j < v.transactions.len()
                            implies out@.transactions[j] == v.transactions[j] by {
                            assert(iv[j] == tx_items(v.transactions)[j]);
                            assert(iv[j].payload == tx_payload(v.transactions[j]));
                            assert(tx_wf(v.transactions[j]));
                        }
                        assert(out@.transactions =~= v.transactions);
                        assert(out@ =~= v);
                    }
                }
                Ok(out)
            },
        }
    }
}

} // verus!
