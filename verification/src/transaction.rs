//! Transactions, as the leader proposes them and as clients ask for them.
use crate::wire::{field_bytes, le_bytes, lemma_le_bytes_len, lemma_prefix_rest, lemma_regroup};
use crate::wire::{lemma_split_field, lemma_split_integer, lemma_word_ranges, InvalidData};
use bytes::Bytes;
use vstd::prelude::*;
use vstd::utf8::{encode_utf8, encode_utf8_decode_utf8};

verus! {

/// The transaction that peers append to the block log.
#[derive(Debug, PartialEq, Eq)]
pub struct Transaction {
    pub consensus_stage: String,
    pub tx_hash: [u8; 32],
    pub seq_counter: u32,
    pub view_number: u32,
    pub client_key: u64,
    pub source: Vec<u8>,
    pub key: Vec<u8>,
    pub value: Vec<u8>,
}

#[verifier::ext_equal]
pub struct TransactionView {
    pub consensus_stage: Seq<char>,
    pub tx_hash: Seq<u8>,
    pub seq_counter: u32,
    pub view_number: u32,
    pub client_key: u64,
    pub source: Seq<u8>,
    pub key: Seq<u8>,
    pub value: Seq<u8>,
}

impl View for Transaction {
    type V = TransactionView;

    open spec fn view(&self) -> TransactionView {
        TransactionView {
            consensus_stage: self.consensus_stage@,
            tx_hash: self.tx_hash@,
            seq_counter: self.seq_counter,
            view_number: self.view_number,
            client_key: self.client_key,
            source: self.source@,
            key: self.key@,
            value: self.value@,
        }
    }
}

impl TransactionView {
    /// A transaction carries a hash of 32 bytes.
    pub open spec fn well_formed(self) -> bool {
        self.tx_hash.len() == 32
    }

    /// The transaction as it is sent: its fields in order, the hash as it is,
    /// the counters in four bytes and the client's key in eight.
    pub open spec fn wire(self) -> Seq<u8> {
        field_bytes(encode_utf8(self.consensus_stage)) + self.tx_hash
            + le_bytes(self.seq_counter as nat, 4) + le_bytes(self.view_number as nat, 4)
            + le_bytes(self.client_key as nat, 8) + field_bytes(self.source)
            + field_bytes(self.key) + field_bytes(self.value)
    }

    /// `input` starts with this transaction.
    pub open spec fn starts(self, input: Seq<u8>) -> bool {
        self.well_formed() && self.wire().is_prefix_of(input)
    }

    /// The transaction that `input` starts with, if it starts with one.
    pub open spec fn read(input: Seq<u8>) -> Option<TransactionView> {
        if exists|tx: TransactionView| tx.starts(input) {
            Some(choose|tx: TransactionView| tx.starts(input))
        } else {
            None
        }
    }
}

/// A transaction and what follows it, field after field from the front.
spec fn fields_then(tx: TransactionView, rest: Seq<u8>) -> Seq<u8> {
    field_bytes(encode_utf8(tx.consensus_stage)) + (tx.tx_hash + counters_then(tx, rest))
}

spec fn counters_then(tx: TransactionView, rest: Seq<u8>) -> Seq<u8> {
    le_bytes(tx.seq_counter as nat, 4) + (le_bytes(tx.view_number as nat, 4) + (le_bytes(
        tx.client_key as nat,
        8,
    ) + strings_then(tx, rest)))
}

spec fn strings_then(tx: TransactionView, rest: Seq<u8>) -> Seq<u8> {
    field_bytes(tx.source) + (field_bytes(tx.key) + (field_bytes(tx.value) + rest))
}

proof fn lemma_fields_then(tx: TransactionView, rest: Seq<u8>)
    ensures
        tx.wire() + rest == fields_then(tx, rest),
{
    let w1 = field_bytes(encode_utf8(tx.consensus_stage));
    let w2 = w1 + tx.tx_hash;
    let w3 = w2 + le_bytes(tx.seq_counter as nat, 4);
    let w4 = w3 + le_bytes(tx.view_number as nat, 4);
    let w5 = w4 + le_bytes(tx.client_key as nat, 8);
    let w6 = w5 + field_bytes(tx.source);
    let w7 = w6 + field_bytes(tx.key);
    let t7 = field_bytes(tx.value) + rest;
    let t6 = field_bytes(tx.key) + t7;
    let t5 = strings_then(tx, rest);
    let t4 = le_bytes(tx.client_key as nat, 8) + t5;
    let t3 = le_bytes(tx.view_number as nat, 4) + t4;
    lemma_regroup(w7, field_bytes(tx.value), rest);
    lemma_regroup(w6, field_bytes(tx.key), t7);
    lemma_regroup(w5, field_bytes(tx.source), t6);
    lemma_regroup(w4, le_bytes(tx.client_key as nat, 8), t5);
    lemma_regroup(w3, le_bytes(tx.view_number as nat, 4), t4);
    lemma_regroup(w2, le_bytes(tx.seq_counter as nat, 4), t3);
    lemma_regroup(w1, tx.tx_hash, counters_then(tx, rest));
}

proof fn lemma_strings_agree(a: TransactionView, b: TransactionView, rest_a: Seq<u8>, rest_b: Seq<u8>)
    requires
        strings_then(a, rest_a).len() <= u64::MAX,
        strings_then(a, rest_a) == strings_then(b, rest_b),
    ensures
        a.source == b.source,
        a.key == b.key,
        a.value == b.value,
{
    let (a7, b7) = (field_bytes(a.value) + rest_a, field_bytes(b.value) + rest_b);
    let (a6, b6) = (field_bytes(a.key) + a7, field_bytes(b.key) + b7);
    lemma_split_field(a.source, b.source, a6, b6);
    lemma_split_field(a.key, b.key, a7, b7);
    lemma_split_field(a.value, b.value, rest_a, rest_b);
}

proof fn lemma_counters_agree(a: TransactionView, b: TransactionView, rest_a: Seq<u8>, rest_b: Seq<u8>)
    requires
        counters_then(a, rest_a) == counters_then(b, rest_b),
    ensures
        a.seq_counter == b.seq_counter,
        a.view_number == b.view_number,
        a.client_key == b.client_key,
        strings_then(a, rest_a) == strings_then(b, rest_b),
{
    lemma_word_ranges();
    let (a5, b5) = (strings_then(a, rest_a), strings_then(b, rest_b));
    let (a4, b4) = (le_bytes(a.client_key as nat, 8) + a5, le_bytes(b.client_key as nat, 8) + b5);
    let (a3, b3) = (le_bytes(a.view_number as nat, 4) + a4, le_bytes(b.view_number as nat, 4) + b4);
    lemma_split_integer(a.seq_counter as nat, b.seq_counter as nat, 4, a3, b3);
    lemma_split_integer(a.view_number as nat, b.view_number as nat, 4, a4, b4);
    lemma_split_integer(a.client_key as nat, b.client_key as nat, 8, a5, b5);
}

/// Bytes start with at most one transaction.
pub proof fn law_transaction_is_unique(a: TransactionView, b: TransactionView, input: Seq<u8>)
    requires
        input.len() <= u64::MAX,
        a.starts(input),
        b.starts(input),
    ensures
        a == b,
{
    lemma_prefix_rest(a.wire(), input);
    lemma_prefix_rest(b.wire(), input);
    let (rest_a, rest_b) = (input.skip(a.wire().len() as int), input.skip(b.wire().len() as int));
    lemma_fields_then(a, rest_a);
    lemma_fields_then(b, rest_b);
    let (stage_a, stage_b) = (encode_utf8(a.consensus_stage), encode_utf8(b.consensus_stage));
    let (a1, b1) = (a.tx_hash + counters_then(a, rest_a), b.tx_hash + counters_then(b, rest_b));
    lemma_split_field(stage_a, stage_b, a1, b1);
    encode_utf8_decode_utf8(a.consensus_stage);
    encode_utf8_decode_utf8(b.consensus_stage);
    assert(a1.take(32) =~= a.tx_hash && b1.take(32) =~= b.tx_hash);
    assert(a1.skip(32) =~= counters_then(a, rest_a) && b1.skip(32) =~= counters_then(b, rest_b));
    lemma_counters_agree(a, b, rest_a, rest_b);
    lemma_strings_agree(a, b, rest_a, rest_b);
}

/// A well-formed transaction takes eighty bytes more than its texts.
proof fn lemma_transaction_len(tx: TransactionView)
    requires
        tx.well_formed(),
    ensures
        tx.wire().len() == 80 + encode_utf8(tx.consensus_stage).len() + tx.source.len() + tx.key.len()
            + tx.value.len(),
{
    lemma_le_bytes_len(encode_utf8(tx.consensus_stage).len(), 8);
    lemma_le_bytes_len(tx.seq_counter as nat, 4);
    lemma_le_bytes_len(tx.view_number as nat, 4);
    lemma_le_bytes_len(tx.client_key as nat, 8);
    lemma_le_bytes_len(tx.source.len(), 8);
    lemma_le_bytes_len(tx.key.len(), 8);
    lemma_le_bytes_len(tx.value.len(), 8);
}

impl Transaction {
    /// Whether the transaction, as it is sent, fits in one vector.
    pub fn fits(&self) -> (fits: bool)
        ensures
            fits == (self@.wire().len() <= isize::MAX),
    {
        proof {
            lemma_transaction_len(self@);
        }
        let stage = self.consensus_stage.as_str().as_bytes().len();
        let texts = stage as u128 + self.source.len() as u128 + self.key.len() as u128
            + self.value.len() as u128;
        80 + texts <= isize::MAX as u128
    }
}

/// Reading gives back the transaction that was written, whatever was sent after it.
pub proof fn law_transaction_round_trip(tx: TransactionView, rest: Seq<u8>)
    requires
        tx.well_formed(),
        (tx.wire() + rest).len() <= u64::MAX,
    ensures
        TransactionView::read(tx.wire() + rest) == Some(tx),
{
    let input = tx.wire() + rest;
    assert(tx.wire() =~= input.subrange(0, tx.wire().len() as int));
    assert(tx.starts(input));
    let found = choose|t: TransactionView| t.starts(input);
    law_transaction_is_unique(tx, found, input);
}

/// A transaction that is cut short is not read as anything.
pub proof fn law_cut_transaction_is_refused(tx: TransactionView, kept: int)
    requires
        tx.well_formed(),
        tx.wire().len() <= u64::MAX,
        0 <= kept < tx.wire().len(),
    ensures
        TransactionView::read(tx.wire().take(kept)) is None,
{
    let (whole, cut) = (tx.wire(), tx.wire().take(kept));
    assert(whole.is_prefix_of(whole)) by {
        assert(whole =~= whole.subrange(0, whole.len() as int));
    }
    assert forall|other: TransactionView| !other.starts(cut) by {
        if other.starts(cut) {
            let end = other.wire().len() as int;
            assert(whole.subrange(0, end) =~= cut.subrange(0, end));
            law_transaction_is_unique(tx, other, whole);
        }
    }
}

/// Bytes none of which is zero, and that fit in a frame, start with no transaction.
pub proof fn law_text_is_no_transaction(input: Seq<u8>)
    requires
        input.len() <= u16::MAX,
        forall|i: int| 0 <= i < input.len() ==> #[trigger] input[i] != 0,
    ensures
        TransactionView::read(input) is None,
{
    assert forall|tx: TransactionView| !tx.starts(input) by {
        if tx.starts(input) {
            lemma_transaction_len(tx);
            let rest = input.skip(tx.wire().len() as int);
            lemma_prefix_rest(tx.wire(), input);
            lemma_fields_then(tx, rest);
            let length = encode_utf8(tx.consensus_stage).len();
            assert(le_bytes(length, 8)[7] == 0) by {
                reveal_with_fuel(le_bytes, 9);
            }
            lemma_le_bytes_len(length, 8);
            assert(input[7] == le_bytes(length, 8)[7]);
        }
    }
}

/// `bincode::serialize` of the tuple of the transaction's fields, its byte
/// strings as `bytes::Bytes`.
///
/// Claims that it succeeds and gives the fields in order: strings and byte
/// strings behind their length as an eight-byte little-endian integer, the hash
/// as its 32 bytes, integers little-endian in their own width. The size is
/// bounded by what one vector can hold, which `serialize` allocates up front.
#[verifier::external_body]
fn bincode_write_transaction(tx: &Transaction) -> (written: Result<Vec<u8>, bincode::Error>)
    requires
        tx@.wire().len() <= isize::MAX,
    ensures
        written is Ok,
        written->Ok_0@ == tx@.wire(),
{
    bincode::serialize(&(
        &tx.consensus_stage,
        tx.tx_hash,
        tx.seq_counter,
        tx.view_number,
        tx.client_key,
        Bytes::copy_from_slice(&tx.source),
        Bytes::copy_from_slice(&tx.key),
        Bytes::copy_from_slice(&tx.value),
    ))
}

/// `bincode::deserialize` of the tuple of a transaction's fields.
///
/// Claims that it gives the fields that the input starts with, ignores what
/// follows them, and fails only where the input starts with no such fields: it
/// ends early, or the first field is not UTF-8.
#[verifier::external_body]
fn bincode_read_transaction(input: &[u8]) -> (read: Result<Transaction, bincode::Error>)
    ensures
        match read {
            Ok(tx) => tx@.starts(input@),
            Err(_) => forall|tx: TransactionView| !tx.starts(input@),
        },
{
    let fields = bincode::deserialize::<(String, [u8; 32], u32, u32, u64, Bytes, Bytes, Bytes)>(input);
    match fields {
        Ok((consensus_stage, tx_hash, seq_counter, view_number, client_key, source, key, value)) => {
            let (source, key, value) = (source.to_vec(), key.to_vec(), value.to_vec());
            Ok(Transaction { consensus_stage, tx_hash, seq_counter, view_number, client_key, source, key, value })
        },
        Err(error) => Err(error),
    }
}

/// Writes a transaction.
pub fn serialize_transaction(tx: &Transaction) -> (bytes: Vec<u8>)
    requires
        tx@.wire().len() <= isize::MAX,
    ensures
        bytes@ == tx@.wire(),
{
    bincode_write_transaction(tx).unwrap()
}

/// Reads the transaction at the start of `buffer`; what follows it is ignored.
pub fn deserialize_transaction(buffer: &[u8]) -> (tx: Result<Transaction, InvalidData>)
    ensures
        match tx {
            Ok(tx) => TransactionView::read(buffer@) == Some(tx@),
            Err(InvalidData) => TransactionView::read(buffer@) is None,
        },
{
    match bincode_read_transaction(buffer) {
        Ok(tx) => {
            proof {
                assert(buffer@.len() == buffer.len());
                let found = choose|t: TransactionView| t.starts(buffer@);
                law_transaction_is_unique(tx@, found, buffer@);
            }
            Ok(tx)
        },
        Err(_) => Err(InvalidData),
    }
}

/// What a client sends to a peer to have a key changed.
#[derive(Debug, PartialEq, Eq)]
pub struct ClientTransaction {
    pub key: Vec<u8>,
    pub value: Vec<u8>,
    pub client_key: Vec<u8>,
}

#[verifier::ext_equal]
pub struct ClientTransactionView {
    pub key: Seq<u8>,
    pub value: Seq<u8>,
    pub client_key: Seq<u8>,
}

impl View for ClientTransaction {
    type V = ClientTransactionView;

    open spec fn view(&self) -> ClientTransactionView {
        ClientTransactionView { key: self.key@, value: self.value@, client_key: self.client_key@ }
    }
}

impl ClientTransactionView {
    /// The request as it is sent: its three fields, each behind its length.
    pub open spec fn wire(self) -> Seq<u8> {
        field_bytes(self.key) + field_bytes(self.value) + field_bytes(self.client_key)
    }

    /// The request that `input` starts with, if it starts with one.
    pub open spec fn read(input: Seq<u8>) -> Option<ClientTransactionView> {
        if exists|tx: ClientTransactionView| (#[trigger] tx.wire()).is_prefix_of(input) {
            Some(choose|tx: ClientTransactionView| (#[trigger] tx.wire()).is_prefix_of(input))
        } else {
            None
        }
    }
}

/// Bytes start with at most one client request.
pub proof fn law_client_transaction_is_unique(
    a: ClientTransactionView,
    b: ClientTransactionView,
    input: Seq<u8>,
)
    requires
        input.len() <= u64::MAX,
        a.wire().is_prefix_of(input),
        b.wire().is_prefix_of(input),
    ensures
        a == b,
{
    lemma_prefix_rest(a.wire(), input);
    lemma_prefix_rest(b.wire(), input);
    let (a3, b3) = (input.skip(a.wire().len() as int), input.skip(b.wire().len() as int));
    let (a2, b2) = (field_bytes(a.client_key) + a3, field_bytes(b.client_key) + b3);
    let (a1, b1) = (field_bytes(a.value) + a2, field_bytes(b.value) + b2);
    assert(input =~= field_bytes(a.key) + a1);
    assert(input =~= field_bytes(b.key) + b1);
    lemma_split_field(a.key, b.key, a1, b1);
    lemma_split_field(a.value, b.value, a2, b2);
    lemma_split_field(a.client_key, b.client_key, a3, b3);
}

/// Reading gives back the client request that was sent, whatever was sent after it.
pub proof fn law_client_transaction_round_trip(tx: ClientTransactionView, rest: Seq<u8>)
    requires
        (tx.wire() + rest).len() <= u64::MAX,
    ensures
        ClientTransactionView::read(tx.wire() + rest) == Some(tx),
{
    let input = tx.wire() + rest;
    assert(tx.wire() =~= input.subrange(0, tx.wire().len() as int));
    assert(tx.wire().is_prefix_of(input));
    let found = choose|t: ClientTransactionView| (#[trigger] t.wire()).is_prefix_of(input);
    law_client_transaction_is_unique(tx, found, input);
}

/// A client request that is cut short is not read as anything.
pub proof fn law_cut_client_transaction_is_refused(tx: ClientTransactionView, kept: int)
    requires
        tx.wire().len() <= u64::MAX,
        0 <= kept < tx.wire().len(),
    ensures
        ClientTransactionView::read(tx.wire().take(kept)) is None,
{
    let (whole, cut) = (tx.wire(), tx.wire().take(kept));
    assert(whole.is_prefix_of(whole)) by {
        assert(whole =~= whole.subrange(0, whole.len() as int));
    }
    assert forall|other: ClientTransactionView| !(#[trigger] other.wire()).is_prefix_of(cut) by {
        if other.wire().is_prefix_of(cut) {
            let end = other.wire().len() as int;
            assert(whole.subrange(0, end) =~= cut.subrange(0, end));
            law_client_transaction_is_unique(tx, other, whole);
        }
    }
}

/// `bincode::deserialize` of a triple of `bytes::Bytes`.
///
/// Claims that it gives the three fields that the input starts with, ignores
/// what follows them, and fails only where the input starts with no such triple.
#[verifier::external_body]
fn bincode_read_client_transaction(input: &[u8]) -> (read: Result<ClientTransaction, bincode::Error>)
    ensures
        match read {
            Ok(tx) => tx@.wire().is_prefix_of(input@),
            Err(_) => forall|tx: ClientTransactionView| !(#[trigger] tx.wire()).is_prefix_of(input@),
        },
{
    match bincode::deserialize::<(Bytes, Bytes, Bytes)>(input) {
        Ok((key, value, client_key)) => Ok(
            ClientTransaction { key: key.to_vec(), value: value.to_vec(), client_key: client_key.to_vec() },
        ),
        Err(error) => Err(error),
    }
}

/// Reads the client request at the start of `buffer`; what follows it is ignored.
pub fn deserialize_client_transaction(buffer: &[u8]) -> (tx: Result<ClientTransaction, InvalidData>)
    ensures
        match tx {
            Ok(tx) => ClientTransactionView::read(buffer@) == Some(tx@),
            Err(InvalidData) => ClientTransactionView::read(buffer@) is None,
        },
{
    match bincode_read_client_transaction(buffer) {
        Ok(tx) => {
            proof {
                assert(buffer@.len() == buffer.len());
                let found = choose|t: ClientTransactionView| (#[trigger] t.wire()).is_prefix_of(buffer@);
                law_client_transaction_is_unique(tx@, found, buffer@);
            }
            Ok(tx)
        },
        Err(_) => Err(InvalidData),
    }
}

/// A transaction is sent as its fields in order: texts and byte strings behind their
/// length in eight bytes, the hash as it is, the counters in four bytes and the client's
/// key in eight.
pub proof fn law_transaction_layout(tx: TransactionView)
    ensures
        tx.wire() == le_bytes(encode_utf8(tx.consensus_stage).len(), 8) + encode_utf8(tx.consensus_stage)
            + tx.tx_hash + le_bytes(tx.seq_counter as nat, 4) + le_bytes(tx.view_number as nat, 4)
            + le_bytes(tx.client_key as nat, 8) + (le_bytes(tx.source.len(), 8) + tx.source) + (le_bytes(
            tx.key.len(),
            8,
        ) + tx.key) + (le_bytes(tx.value.len(), 8) + tx.value),
{
}

/// What is written is the transaction as it is sent.
pub proof fn law_transactions_are_written(tx: &Transaction, bytes: Vec<u8>)
    requires
        call_ensures(serialize_transaction, (tx,), bytes),
    ensures
        bytes@ == le_bytes(encode_utf8(tx.consensus_stage@).len(), 8) + encode_utf8(tx.consensus_stage@)
            + tx.tx_hash@ + le_bytes(tx.seq_counter as nat, 4) + le_bytes(tx.view_number as nat, 4)
            + le_bytes(tx.client_key as nat, 8) + (le_bytes(tx.source@.len(), 8) + tx.source@) + (
        le_bytes(tx.key@.len(), 8) + tx.key@) + (le_bytes(tx.value@.len(), 8) + tx.value@),
        80 + encode_utf8(tx.consensus_stage@).len() + tx.source@.len() + tx.key@.len() + tx.value@.len()
            <= isize::MAX ==> call_requires(serialize_transaction, (tx,)),
{
    lemma_transaction_len(tx@);
}

/// What is read is the transaction that the bytes start with, and only bytes that start
/// with no transaction are refused.
pub proof fn law_transactions_are_read(buffer: &[u8], read: Result<Transaction, InvalidData>)
    requires
        call_ensures(deserialize_transaction, (buffer,), read),
    ensures
        match read {
            Ok(tx) => tx@.wire().is_prefix_of(buffer@),
            Err(_) => forall|tx: TransactionView|
                tx.tx_hash.len() == 32 ==> !(#[trigger] tx.wire()).is_prefix_of(buffer@),
        },
        call_requires(deserialize_transaction, (buffer,)),
{
    if let Ok(tx) = read {
        assert(tx@.starts(buffer@));
    } else {
        assert forall|tx: TransactionView| tx.tx_hash.len() == 32 implies !(
        #[trigger] tx.wire()).is_prefix_of(buffer@) by {
            assert(!tx.starts(buffer@));
        }
    }
}

/// A transaction fits exactly if its texts and the eighty bytes around them do.
pub proof fn law_fitting_transactions(tx: &Transaction, fits: bool)
    requires
        call_ensures(Transaction::fits, (tx,), fits),
    ensures
        fits <==> 80 + encode_utf8(tx.consensus_stage@).len() + tx.source@.len() + tx.key@.len()
            + tx.value@.len() <= isize::MAX,
        call_requires(Transaction::fits, (tx,)),
{
    lemma_transaction_len(tx@);
}

/// A client's request is three byte strings, each behind its length in eight bytes: the
/// key, the value and the client's own key. What is read is the request that the bytes
/// start with, and only bytes that start with none are refused.
pub proof fn law_client_requests_are_read(
    buffer: &[u8],
    read: Result<ClientTransaction, InvalidData>,
    tx: ClientTransactionView,
)
    requires
        call_ensures(deserialize_client_transaction, (buffer,), read),
    ensures
        read matches Ok(found) ==> (le_bytes(found.key@.len(), 8) + found.key@ + (le_bytes(
            found.value@.len(),
            8,
        ) + found.value@) + (le_bytes(found.client_key@.len(), 8) + found.client_key@)).is_prefix_of(
            buffer@,
        ),
        read is Err ==> !(le_bytes(tx.key.len(), 8) + tx.key + (le_bytes(tx.value.len(), 8) + tx.value) + (
        le_bytes(tx.client_key.len(), 8) + tx.client_key)).is_prefix_of(buffer@),
        call_requires(deserialize_client_transaction, (buffer,)),
{
    assert(tx.wire() == le_bytes(tx.key.len(), 8) + tx.key + (le_bytes(tx.value.len(), 8) + tx.value) + (
    le_bytes(tx.client_key.len(), 8) + tx.client_key));
    if let Ok(found) = read {
        assert(found@.wire().is_prefix_of(buffer@));
    }
}

} // verus!
