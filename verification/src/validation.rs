//! The leader's own vote: whether a proposed transaction is in order.
use crate::transaction::{Transaction, TransactionView};
use crate::wire::{be_bytes, law_big_endian, same_bytes};
use bytes::BufMut;
use sha2::{Digest, Sha256};
use vstd::prelude::*;

verus! {

/// The SHA-256 digest of `data`.
pub uninterp spec fn sha256(data: Seq<u8>) -> Seq<u8>;

/// `sha2::Sha256`: a new hasher, updated once with `data` and finalized.
///
/// Claims only that the digest is determined by `data`.
#[verifier::external_body]
fn sha256_digest(data: &[u8]) -> (digest: [u8; 32])
    ensures
        digest@ == sha256(data@),
{
    let mut hasher = Sha256::new();
    hasher.update(data);
    hasher.finalize().into()
}

/// `bytes::BufMut::put_u64` on a vector.
///
/// Claims that it appends the eight bytes of `n`, most significant first. The
/// bound keeps the vector, which doubles when it grows, within what it can hold.
#[verifier::external_body]
fn put_u64(buffer: &mut Vec<u8>, n: u64)
    requires
        old(buffer)@.len() + 8 <= isize::MAX / 2,
    ensures
        final(buffer)@ == old(buffer)@ + be_bytes(n as nat, 8),
{
    buffer.put_u64(n)
}

/// What a transaction's hash is taken of: who asked, which key, what value.
pub open spec fn hashed_content(tx: TransactionView) -> Seq<u8> {
    be_bytes(tx.client_key as nat, 8) + tx.key + tx.value
}

/// `tx` is the next transaction in order and carries the hash `digest`.
pub open spec fn matches_digest(
    tx: TransactionView,
    digest: Seq<u8>,
    seq_counter: u32,
    view_number: u32,
) -> bool {
    &&& tx.tx_hash == digest
    &&& tx.seq_counter == seq_counter
    &&& tx.view_number == view_number
}

/// `tx` is the next transaction in order and carries the hash of its content.
pub open spec fn is_valid(tx: TransactionView, seq_counter: u32, view_number: u32) -> bool {
    matches_digest(tx, sha256(hashed_content(tx)), seq_counter, view_number)
}

/// Adds the leader's vote if the transaction carries the hash `digest` and the
/// leader's own sequence counter and view number.
pub fn verify_digest(
    transaction: &Transaction,
    digest: &[u8; 32],
    quorum_counter: &mut i32,
    seq_counter: u32,
    view_number: u32,
)
    requires
        matches_digest(transaction@, digest@, seq_counter, view_number) ==> *old(quorum_counter)
            < i32::MAX,
    ensures
        *final(quorum_counter) == *old(quorum_counter) + (if matches_digest(
            transaction@,
            digest@,
            seq_counter,
            view_number,
        ) {
            1int
        } else {
            0int
        }),
{
    let counter_valid = seq_counter == transaction.seq_counter && view_number
        == transaction.view_number;
    if same_bytes(digest.as_slice(), transaction.tx_hash.as_slice()) && counter_valid {
        *quorum_counter = *quorum_counter + 1;
    }
}

/// Adds the leader's vote if the transaction carries the hash of its content and
/// the leader's own sequence counter and view number.
pub fn verify_transaction(
    transaction: &Transaction,
    quorum_counter: &mut i32,
    seq_counter: u32,
    view_number: u32,
)
    requires
        is_valid(transaction@, seq_counter, view_number) ==> *old(quorum_counter) < i32::MAX,
    ensures
        *final(quorum_counter) == *old(quorum_counter) + (if is_valid(
            transaction@,
            seq_counter,
            view_number,
        ) {
            1int
        } else {
            0int
        }),
{
    let mut content: Vec<u8> = Vec::new();
    put_u64(&mut content, transaction.client_key);
    content.extend_from_slice(transaction.key.as_slice());
    content.extend_from_slice(transaction.value.as_slice());
    assert(content@ =~= hashed_content(transaction@));
    let digest = sha256_digest(content.as_slice());
    verify_digest(transaction, &digest, quorum_counter, seq_counter, view_number);
}

/// What is hashed is the client's key in eight bytes, most significant first, then all
/// of the key, then all of the value, and nothing else.
pub proof fn law_whole_content_is_hashed(tx: TransactionView, content: Seq<u8>)
    ensures
        content == hashed_content(tx) <==> {
            &&& content.len() == 8 + tx.key.len() + tx.value.len()
            &&& 0x100_0000_0000_0000 * content[0] + 0x1_0000_0000_0000 * content[1] + 0x100_0000_0000
                * content[2] + 0x1_0000_0000 * content[3] + 0x100_0000 * content[4] + 0x1_0000
                * content[5] + 0x100 * content[6] + content[7] == tx.client_key
            &&& content.subrange(8, 8int + tx.key.len()) == tx.key
            &&& content.skip(8int + tx.key.len()) == tx.value
        },
{
    let held = hashed_content(tx);
    let (front, front_held) = (content.take(8), held.take(8));
    law_big_endian(tx.client_key, front);
    law_big_endian(tx.client_key, be_bytes(tx.client_key as nat, 8));
    assert(front_held =~= be_bytes(tx.client_key as nat, 8));
    assert(held.subrange(8, 8int + tx.key.len()) =~= tx.key);
    assert(held.skip(8int + tx.key.len()) =~= tx.value);
    if content.len() == held.len() && front == front_held && content.subrange(8, 8int + tx.key.len()) == tx.key
        && content.skip(8int + tx.key.len()) == tx.value {
        assert(content =~= front + content.subrange(8, 8int + tx.key.len()) + content.skip(
            8int + tx.key.len(),
        ));
        assert(content =~= held);
    }
}

/// What a client asks for is hashed so that nothing of it can be changed: of two
/// transactions of which the same is hashed, with keys of the same length, client, key
/// and value are the same.
pub proof fn law_changes_show_in_the_hashed_content(a: TransactionView, b: TransactionView)
    requires
        hashed_content(a) == hashed_content(b),
        a.key.len() == b.key.len(),
    ensures
        a.client_key == b.client_key,
        a.key == b.key,
        a.value == b.value,
{
    law_whole_content_is_hashed(a, hashed_content(a));
    law_whole_content_is_hashed(b, hashed_content(b));
}

/// The leader has a vote for a transaction exactly if its hash is that of the client's
/// key in eight bytes, its key and its value, and both of its counters are the leader's.
/// Nothing else counts, and the vote is one.
pub proof fn law_leader_votes_for_what_is_in_order(
    transaction: &Transaction,
    quorum_counter: &mut i32,
    seq_counter: u32,
    view_number: u32,
    content: Seq<u8>,
)
    requires
        call_ensures(verify_transaction, (transaction, quorum_counter, seq_counter, view_number), ()),
        content.len() == 8 + transaction.key@.len() + transaction.value@.len(),
        0x100_0000_0000_0000 * content[0] + 0x1_0000_0000_0000 * content[1] + 0x100_0000_0000 * content[2]
            + 0x1_0000_0000 * content[3] + 0x100_0000 * content[4] + 0x1_0000 * content[5] + 0x100
            * content[6] + content[7] == transaction.client_key,
        content.subrange(8, 8int + transaction.key@.len()) == transaction.key@,
        content.skip(8int + transaction.key@.len()) == transaction.value@,
    ensures
        transaction.tx_hash@ == sha256(content) && transaction.seq_counter == seq_counter
            && transaction.view_number == view_number ==> *final(quorum_counter) == *old(
            quorum_counter,
        ) + 1,
        transaction.tx_hash@ != sha256(content) || transaction.seq_counter != seq_counter
            || transaction.view_number != view_number ==> *final(quorum_counter) == *old(quorum_counter),
        *old(quorum_counter) < i32::MAX ==> call_requires(
            verify_transaction,
            (transaction, quorum_counter, seq_counter, view_number),
        ),
{
    law_whole_content_is_hashed(transaction@, content);
}

/// With the hash at hand, the leader votes exactly if the transaction carries it and
/// both of the leader's counters.
pub proof fn law_digest_decides(
    transaction: &Transaction,
    digest: &[u8; 32],
    quorum_counter: &mut i32,
    seq_counter: u32,
    view_number: u32,
)
    requires
        call_ensures(verify_digest, (transaction, digest, quorum_counter, seq_counter, view_number), ()),
    ensures
        transaction.tx_hash@ == digest@ && transaction.seq_counter == seq_counter
            && transaction.view_number == view_number ==> *final(quorum_counter) == *old(
            quorum_counter,
        ) + 1,
        transaction.tx_hash@ != digest@ || transaction.seq_counter != seq_counter
            || transaction.view_number != view_number ==> *final(quorum_counter) == *old(quorum_counter),
        *old(quorum_counter) < i32::MAX ==> call_requires(
            verify_digest,
            (transaction, digest, quorum_counter, seq_counter, view_number),
        ),
{
}

} // verus!
