//! The key-space encoder: one byte of prefix partitions the shared ordered
//! key space into classes, and two reserved string keys plus the two
//! global-order classes live above the prefix range.

use vstd::prelude::*;
use vstd::utf8::{decode_utf8, encode_utf8, encode_utf8_decode_utf8};

use crate::bytes::{be8, lemma_be8_injective, u64_to_be_bytes};

verus! {

/// Prefix for a key to the latest sequence number of a stored feed.
pub const PREFIX_LATEST_SEQ: u8 = 0;

/// Prefix for a key to a stored message record (key, value, timestamp).
pub const PREFIX_MSG_KVT: u8 = 1;

/// Prefix for a key to a message reference (author and sequence).
pub const PREFIX_MSG_VAL: u8 = 2;

/// Prefix for a key to a blob status.
pub const PREFIX_BLOB: u8 = 3;

/// Prefix for a key to a peer.
pub const PREFIX_PEER: u8 = 4;

/// UTF-8 encoding is injective: equal encodings come from equal texts.
pub proof fn lemma_utf8_injective(a: Seq<char>, b: Seq<char>)
    requires
        encode_utf8(a) == encode_utf8(b),
    ensures
        a == b,
{
    encode_utf8_decode_utf8(a);
    encode_utf8_decode_utf8(b);
    assert(decode_utf8(encode_utf8(a)) == a);
    assert(decode_utf8(encode_utf8(b)) == b);
}

/// The key holding the latest sequence number of `author`'s feed.
pub open spec fn spec_key_latest_seq(author: Seq<char>) -> Seq<u8> {
    seq![PREFIX_LATEST_SEQ] + encode_utf8(author)
}

/// The key holding the stored record of `author`'s message `seq_num`. The
/// sequence comes before the author, big-endian, so iteration within the
/// class is not per-author-clustered.
pub open spec fn spec_key_msg_kvt(author: Seq<char>, seq_num: u64) -> Seq<u8> {
    seq![PREFIX_MSG_KVT] + be8(seq_num) + encode_utf8(author)
}

/// The key holding the reference record of the message with canonical id
/// `id`.
pub open spec fn spec_key_msg_val(id: Seq<char>) -> Seq<u8> {
    seq![PREFIX_MSG_VAL] + encode_utf8(id)
}

/// The key holding the status of blob `id`.
pub open spec fn spec_key_blob(id: Seq<char>) -> Seq<u8> {
    seq![PREFIX_BLOB] + encode_utf8(id)
}

/// The key holding the peer record of `author`.
pub open spec fn spec_key_peer(author: Seq<char>) -> Seq<u8> {
    seq![PREFIX_PEER] + encode_utf8(author)
}

/// The reserved key `solar:global_seq` holding the global-order counter.
pub open spec fn spec_counter_key() -> Seq<u8> {
    seq![115u8, 111, 108, 97, 114, 58, 103, 108, 111, 98, 97, 108, 95, 115, 101, 113]
}

/// The reserved key `solar:global_order` holding the bootstrap flag.
pub open spec fn spec_order_flag_key() -> Seq<u8> {
    seq![115u8, 111, 108, 97, 114, 58, 103, 108, 111, 98, 97, 108, 95, 111, 114, 100, 101, 114]
}

/// The forward global-order key `global_seq:` followed by the global
/// sequence as eight big-endian bytes — a fixed-width rendering chosen so
/// that lexicographic iteration of the family matches numeric order; its
/// value is a message id.
pub open spec fn spec_key_global_fwd(n: u64) -> Seq<u8> {
    seq![103u8, 108, 111, 98, 97, 108, 95, 115, 101, 113, 58] + be8(n)
}

/// The reverse global-order key `global_seq_rev:` followed by a message id;
/// its value is the big-endian global sequence.
pub open spec fn spec_key_global_rev(id: Seq<char>) -> Seq<u8> {
    seq![103u8, 108, 111, 98, 97, 108, 95, 115, 101, 113, 95, 114, 101, 118, 58] + encode_utf8(
        id,
    )
}

/// A prefixed class key: appends the encoded text to the one-byte prefix.
fn prefixed_key(prefix: u8, text: &str) -> (r: Vec<u8>)
    ensures
        r@ == seq![prefix] + encode_utf8(text@),
{
    let mut key: Vec<u8> = Vec::new();
    key.push(prefix);
    let mut body = text.as_bytes_vec();
    key.append(&mut body);
    proof {
        assert(key@ =~= seq![prefix] + encode_utf8(text@));
    }
    key
}

/// Build the latest-sequence key of `author`.
pub fn key_latest_seq(user_id: &str) -> (r: Vec<u8>)
    ensures
        r@ == spec_key_latest_seq(user_id@),
{
    prefixed_key(PREFIX_LATEST_SEQ, user_id)
}

/// Build the stored-record key of `author`'s message `msg_seq`.
pub fn key_msg_kvt(user_id: &str, msg_seq: u64) -> (r: Vec<u8>)
    ensures
        r@ == spec_key_msg_kvt(user_id@, msg_seq),
{
    let mut key: Vec<u8> = Vec::new();
    key.push(PREFIX_MSG_KVT);
    let mut seq_bytes = u64_to_be_bytes(msg_seq);
    key.append(&mut seq_bytes);
    let mut body = user_id.as_bytes_vec();
    key.append(&mut body);
    proof {
        assert(key@ =~= spec_key_msg_kvt(user_id@, msg_seq));
    }
    key
}

/// Build the reference key of the message with canonical id `msg_id`.
pub fn key_msg_val(msg_id: &str) -> (r: Vec<u8>)
    ensures
        r@ == spec_key_msg_val(msg_id@),
{
    prefixed_key(PREFIX_MSG_VAL, msg_id)
}

/// Build the status key of blob `blob_id`.
pub fn key_blob(blob_id: &str) -> (r: Vec<u8>)
    ensures
        r@ == spec_key_blob(blob_id@),
{
    prefixed_key(PREFIX_BLOB, blob_id)
}

/// Build the peer key of `author`.
pub fn key_peer(user_id: &str) -> (r: Vec<u8>)
    ensures
        r@ == spec_key_peer(user_id@),
{
    prefixed_key(PREFIX_PEER, user_id)
}

/// Build the reserved global-order counter key.
pub fn counter_key() -> (r: Vec<u8>)
    ensures
        r@ == spec_counter_key(),
{
    let key: Vec<u8> = vec![115u8, 111, 108, 97, 114, 58, 103, 108, 111, 98, 97, 108, 95, 115, 101, 113];
    proof {
        assert(key@ =~= spec_counter_key());
    }
    key
}

/// Build the reserved bootstrap-flag key.
pub fn order_flag_key() -> (r: Vec<u8>)
    ensures
        r@ == spec_order_flag_key(),
{
    let key: Vec<u8> = vec![115u8, 111, 108, 97, 114, 58, 103, 108, 111, 98, 97, 108, 95, 111, 114, 100, 101, 114];
    proof {
        assert(key@ =~= spec_order_flag_key());
    }
    key
}

/// Build the forward global-order key of global sequence `n`.
pub fn key_global_fwd(n: u64) -> (r: Vec<u8>)
    ensures
        r@ == spec_key_global_fwd(n),
{
    let mut key: Vec<u8> = vec![103u8, 108, 111, 98, 97, 108, 95, 115, 101, 113, 58];
    let mut seq_bytes = u64_to_be_bytes(n);
    key.append(&mut seq_bytes);
    proof {
        assert(key@ =~= spec_key_global_fwd(n));
    }
    key
}

/// Build the reverse global-order key of the message with id `msg_id`.
pub fn key_global_rev(msg_id: &str) -> (r: Vec<u8>)
    ensures
        r@ == spec_key_global_rev(msg_id@),
{
    let mut key: Vec<u8> = vec![103u8, 108, 111, 98, 97, 108, 95, 115, 101, 113, 95, 114, 101, 118, 58];
    let mut body = msg_id.as_bytes_vec();
    key.append(&mut body);
    proof {
        assert(key@ =~= spec_key_global_rev(msg_id@));
    }
    key
}

/// Every key kind opens with a distinct first byte (or a distinct byte
/// soon after), so keys of different kinds are never equal, and keys of one
/// kind are equal only for equal components.
pub proof fn lemma_key_kinds_disjoint(a: Seq<char>, b: Seq<char>, s: u64, n: u64)
    ensures
        spec_key_latest_seq(a)[0] == 0,
        spec_key_msg_kvt(a, s)[0] == 1,
        spec_key_msg_val(a)[0] == 2,
        spec_key_blob(a)[0] == 3,
        spec_key_peer(a)[0] == 4,
        spec_counter_key()[0] == 115,
        spec_order_flag_key()[0] == 115,
        spec_key_global_fwd(n)[0] == 103,
        spec_key_global_rev(a)[0] == 103,
        spec_counter_key() != spec_order_flag_key(),
        spec_key_global_fwd(n) != spec_key_global_rev(a),
        spec_key_global_fwd(n) != spec_counter_key(),
        spec_key_global_rev(a) != spec_counter_key(),
        spec_key_global_fwd(n) != spec_order_flag_key(),
        spec_key_global_rev(a) != spec_order_flag_key(),
        spec_key_latest_seq(a) == spec_key_latest_seq(b) ==> a == b,
        spec_key_peer(a) == spec_key_peer(b) ==> a == b,
        spec_key_blob(a) == spec_key_blob(b) ==> a == b,
        spec_key_msg_val(a) == spec_key_msg_val(b) ==> a == b,
{
    assert(spec_counter_key()[13] == 115 && spec_order_flag_key()[13] == 111);
    assert(spec_key_global_fwd(n)[10] == 58 && spec_key_global_rev(a)[10] == 95);
    assert(spec_counter_key()[0] == 115 && spec_key_global_fwd(n)[0] == 103
        && spec_key_global_rev(a)[0] == 103 && spec_order_flag_key()[0] == 115);
    if spec_key_latest_seq(a) == spec_key_latest_seq(b) {
        assert(encode_utf8(a) =~= spec_key_latest_seq(a).skip(1));
        assert(encode_utf8(b) =~= spec_key_latest_seq(b).skip(1));
        lemma_utf8_injective(a, b);
    }
    if spec_key_peer(a) == spec_key_peer(b) {
        assert(encode_utf8(a) =~= spec_key_peer(a).skip(1));
        assert(encode_utf8(b) =~= spec_key_peer(b).skip(1));
        lemma_utf8_injective(a, b);
    }
    if spec_key_blob(a) == spec_key_blob(b) {
        assert(encode_utf8(a) =~= spec_key_blob(a).skip(1));
        assert(encode_utf8(b) =~= spec_key_blob(b).skip(1));
        lemma_utf8_injective(a, b);
    }
    if spec_key_msg_val(a) == spec_key_msg_val(b) {
        assert(encode_utf8(a) =~= spec_key_msg_val(a).skip(1));
        assert(encode_utf8(b) =~= spec_key_msg_val(b).skip(1));
        lemma_utf8_injective(a, b);
    }
}

/// Stored-record keys are equal only for equal author and sequence.
pub proof fn lemma_kvt_key_injective(a: Seq<char>, s: u64, b: Seq<char>, t: u64)
    requires
        spec_key_msg_kvt(a, s) == spec_key_msg_kvt(b, t),
    ensures
        a == b && s == t,
{
    let ka = spec_key_msg_kvt(a, s);
    let kb = spec_key_msg_kvt(b, t);
    assert(be8(s) =~= ka.subrange(1, 9));
    assert(be8(t) =~= kb.subrange(1, 9));
    lemma_be8_injective(s, t);
    assert(encode_utf8(a) =~= ka.skip(9));
    assert(encode_utf8(b) =~= kb.skip(9));
    lemma_utf8_injective(a, b);
}

/// Forward global-order keys are equal only for equal global sequence.
pub proof fn lemma_global_fwd_injective(n: u64, p: u64)
    requires
        spec_key_global_fwd(n) == spec_key_global_fwd(p),
    ensures
        n == p,
{
    assert(be8(n) =~= spec_key_global_fwd(n).skip(11));
    assert(be8(p) =~= spec_key_global_fwd(p).skip(11));
    lemma_be8_injective(n, p);
}

} // verus!
