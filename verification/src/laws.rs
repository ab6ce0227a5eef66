//! The store's laws: what one successful append does to the entry map, and
//! what it leaves alone. Each law is stated over the same model the store's
//! contracts use, so it composes with them over any history of operations.

use vstd::prelude::*;

use crate::bytes::{be8, lemma_be8_roundtrip, lemma_lex_asymmetric, lemma_lex_irreflexive,
    lex_lt};
use crate::codec::{enc_kvt, enc_ref};
use crate::keys::{PREFIX_LATEST_SEQ, lemma_key_kinds_disjoint, lemma_kvt_key_injective,
    spec_key_latest_seq, spec_key_msg_kvt, spec_key_msg_val};
use crate::store::{append_kvt, append_map, counter_wf, covers_class, latest_or_zero, latest_wf,
    scan_keys, spec_counter, spec_latest};
use crate::types::{MessageKvtV, MessageValueV, PubKeyAndSeqNumV};

verus! {

/// The entry stored for `author`'s message `s` is a record of that author
/// at that sequence, persisted without a received timestamp.
pub open spec fn feed_entry_ok(m: Map<Seq<u8>, Seq<u8>>, author: Seq<char>, s: u64) -> bool {
    exists|x: MessageKvtV|
        m[spec_key_msg_kvt(author, s)] == #[trigger] enc_kvt(x) && x.value.author == author
            && x.value.sequence == s && x.rts is None
}

/// A well-formed feed: the latest-sequence entry, if any, is an eight-byte
/// value, and every sequence `1..=latest` has a stored record carrying that
/// author and sequence. Successful appends keep this for every author, so a
/// feed read back always yields the sequences `1..=latest`, in order and
/// without gaps.
pub open spec fn feed_ok(m: Map<Seq<u8>, Seq<u8>>, author: Seq<char>) -> bool {
    &&& latest_wf(m, author)
    &&& forall|s: u64|
        1 <= s <= latest_or_zero(m, author) ==> m.contains_key(
            #[trigger] spec_key_msg_kvt(author, s),
        ) && feed_entry_ok(m, author, s)
}

/// On an empty store no author has a latest sequence: an author becomes
/// known exactly when an append for it first succeeds.
pub proof fn lemma_empty_store_latest(author: Seq<char>)
    ensures
        spec_latest(Map::<Seq<u8>, Seq<u8>>::empty(), author) is None,
        feed_ok(Map::<Seq<u8>, Seq<u8>>::empty(), author),
{
}

/// One successful append of `mv` sets its author's latest sequence to the
/// next value and leaves every other author's latest sequence untouched:
/// an author is known exactly after an append for it succeeded.
pub proof fn lemma_append_latest(m: Map<Seq<u8>, Seq<u8>>, mv: MessageValueV, b: Seq<char>)
    requires
        latest_wf(m, mv.author),
        latest_or_zero(m, mv.author) < u64::MAX,
        mv.sequence == latest_or_zero(m, mv.author) + 1,
    ensures
        spec_latest(append_map(m, mv), mv.author) == Some(
            (latest_or_zero(m, mv.author) + 1) as u64,
        ),
        latest_wf(append_map(m, mv), mv.author),
        b != mv.author ==> spec_latest(append_map(m, mv), b) == spec_latest(m, b),
        b != mv.author ==> latest_wf(append_map(m, mv), b) == latest_wf(m, b),
{
    let n = (latest_or_zero(m, mv.author) + 1) as u64;
    let c = (spec_counter(m) + 1) as u64;
    let m1 = append_map(m, mv);
    lemma_key_kinds_disjoint(mv.author, b, n, c);
    lemma_key_kinds_disjoint(b, mv.author, n, c);
    lemma_key_kinds_disjoint(mv.id, b, n, c);
    lemma_be8_roundtrip(n);
    assert(spec_key_latest_seq(mv.author) != spec_key_msg_kvt(mv.author, n)) by {
        assert(spec_key_latest_seq(mv.author)[0] == 0);
        assert(spec_key_msg_kvt(mv.author, n)[0] == 1);
    }
    assert(m1[spec_key_latest_seq(mv.author)] == be8(n));
    assert(spec_latest(m1, mv.author) == Some(n));
    if b != mv.author {
        assert(spec_key_latest_seq(b) != spec_key_latest_seq(mv.author));
        assert(spec_latest(m1, b) == spec_latest(m, b));
    }
}

/// One successful append preserves feed well-formedness for every author:
/// after any history of successful appends, the stored sequences of each
/// author are exactly `1..=latest`, in order and without gaps.
pub proof fn lemma_append_preserves_feeds(
    m: Map<Seq<u8>, Seq<u8>>,
    mv: MessageValueV,
    b: Seq<char>,
)
    requires
        latest_wf(m, mv.author),
        latest_or_zero(m, mv.author) < u64::MAX,
        mv.sequence == latest_or_zero(m, mv.author) + 1,
        feed_ok(m, b),
    ensures
        feed_ok(append_map(m, mv), b),
{
    let n = (latest_or_zero(m, mv.author) + 1) as u64;
    let c = (spec_counter(m) + 1) as u64;
    let m1 = append_map(m, mv);
    lemma_append_latest(m, mv, b);
    lemma_be8_roundtrip(n);
    assert forall|s: u64| 1 <= s <= latest_or_zero(m1, b) implies m1.contains_key(
        #[trigger] spec_key_msg_kvt(b, s),
    ) && feed_entry_ok(m1, b, s) by {
        lemma_key_kinds_disjoint(mv.author, b, s, c);
        lemma_key_kinds_disjoint(b, mv.author, s, c);
        lemma_key_kinds_disjoint(mv.id, b, s, c);
        if b == mv.author && s == n {
            assert(m1.contains_key(spec_key_msg_kvt(mv.author, n)));
            assert(m1[spec_key_msg_kvt(mv.author, n)] == enc_kvt(append_kvt(mv)));
            assert(append_kvt(mv).value.author == b && append_kvt(mv).value.sequence == s
                && append_kvt(mv).rts is None);
        } else {
            if b != mv.author {
                assert(latest_or_zero(m1, b) == latest_or_zero(m, b));
            }
            assert(m.contains_key(spec_key_msg_kvt(b, s)));
            if spec_key_msg_kvt(b, s) == spec_key_msg_kvt(mv.author, n) {
                lemma_kvt_key_injective(b, s, mv.author, n);
            }
            assert(m1.contains_key(spec_key_msg_kvt(b, s)));
            assert(m1[spec_key_msg_kvt(b, s)] == m[spec_key_msg_kvt(b, s)]);
            let x = choose|x: MessageKvtV|
                m[spec_key_msg_kvt(b, s)] == #[trigger] enc_kvt(x) && x.value.author == b
                    && x.value.sequence == s && x.rts is None;
            assert(m1[spec_key_msg_kvt(b, s)] == enc_kvt(x));
        }
    }
}

/// One successful append advances the global-order counter by exactly one:
/// over any history of appends the counter counts the committed messages.
pub proof fn lemma_append_advances_counter(m: Map<Seq<u8>, Seq<u8>>, mv: MessageValueV)
    requires
        counter_wf(m),
        spec_counter(m) < u64::MAX,
    ensures
        counter_wf(append_map(m, mv)),
        spec_counter(append_map(m, mv)) == spec_counter(m) + 1,
{
    let n = (latest_or_zero(m, mv.author) + 1) as u64;
    let c = (spec_counter(m) + 1) as u64;
    lemma_key_kinds_disjoint(mv.author, mv.id, n, c);
    lemma_be8_roundtrip(c);
}

/// A successful append leaves the appended message retrievable by its id:
/// the reference record under the id resolves to the author and the new
/// sequence, and the stored record there holds exactly the appended value
/// with its received timestamp cleared. Together with the contract of
/// `get_msg_val`, reading the id back returns the appended value.
pub proof fn lemma_append_then_get_msg_val(m: Map<Seq<u8>, Seq<u8>>, mv: MessageValueV)
    requires
        latest_wf(m, mv.author),
        latest_or_zero(m, mv.author) < u64::MAX,
        mv.sequence == latest_or_zero(m, mv.author) + 1,
    ensures
        ({
            let m1 = append_map(m, mv);
            let n = (latest_or_zero(m, mv.author) + 1) as u64;
            &&& m1.contains_key(spec_key_msg_val(mv.id))
            &&& m1[spec_key_msg_val(mv.id)] == enc_ref(
                PubKeyAndSeqNumV { pub_key: mv.author, seq_num: n },
            )
            &&& m1.contains_key(spec_key_msg_kvt(mv.author, n))
            &&& m1[spec_key_msg_kvt(mv.author, n)] == enc_kvt(append_kvt(mv))
        }),
{
    let n = (latest_or_zero(m, mv.author) + 1) as u64;
    let c = (spec_counter(m) + 1) as u64;
    lemma_key_kinds_disjoint(mv.id, mv.author, n, c);
    assert(spec_key_msg_val(mv.id)[0] == 2 && spec_key_msg_kvt(mv.author, n)[0] == 1
        && spec_key_latest_seq(mv.author)[0] == 0);
}

/// Later appends preserve an already-stored message, provided the ids
/// differ and the appended slot is another one: the reference record under
/// `id` and the stored record at `(a, s)` keep their presence and value.
/// Message retrieval (P-style round trips) therefore survives any later
/// history of appends with distinct canonical ids.
pub proof fn lemma_append_preserves_message(
    m: Map<Seq<u8>, Seq<u8>>,
    mv: MessageValueV,
    id: Seq<char>,
    a: Seq<char>,
    s: u64,
)
    requires
        id != mv.id,
        latest_or_zero(m, mv.author) < u64::MAX,
        !(a == mv.author && s == latest_or_zero(m, mv.author) + 1),
    ensures
        ({
            let m1 = append_map(m, mv);
            &&& m1.contains_key(spec_key_msg_val(id)) == m.contains_key(spec_key_msg_val(id))
            &&& m.contains_key(spec_key_msg_val(id)) ==> m1[spec_key_msg_val(id)] == m[
                spec_key_msg_val(id)]
            &&& m1.contains_key(spec_key_msg_kvt(a, s)) == m.contains_key(spec_key_msg_kvt(a, s))
            &&& m.contains_key(spec_key_msg_kvt(a, s)) ==> m1[spec_key_msg_kvt(a, s)] == m[
                spec_key_msg_kvt(a, s)]
        }),
{
    let n = (latest_or_zero(m, mv.author) + 1) as u64;
    let c = (spec_counter(m) + 1) as u64;
    lemma_key_kinds_disjoint(id, mv.id, s, c);
    lemma_key_kinds_disjoint(mv.id, id, s, c);
    lemma_key_kinds_disjoint(a, mv.author, s, c);
    lemma_key_kinds_disjoint(mv.author, a, n, c);
    if spec_key_msg_kvt(a, s) == spec_key_msg_kvt(mv.author, n) {
        lemma_kvt_key_injective(a, s, mv.author, n);
    }
}

/// Prefix classes are isolated: inserting a key whose first byte is not
/// `p` (or the empty key) neither adds, removes nor changes any entry
/// whose key opens with `p`, so a range scan of class `p` is unchanged.
pub proof fn lemma_class_isolation(
    m: Map<Seq<u8>, Seq<u8>>,
    k: Seq<u8>,
    v: Seq<u8>,
    p: u8,
    kk: Seq<u8>,
)
    requires
        k.len() == 0 || k[0] != p,
        kk.len() > 0 && kk[0] == p,
    ensures
        m.insert(k, v).contains_key(kk) <==> m.contains_key(kk),
        m.contains_key(kk) ==> m.insert(k, v)[kk] == m[kk],
{
    assert(k != kk);
}

/// Whether `k` appears somewhere in `ks`.
pub open spec fn listed(ks: Seq<Seq<u8>>, k: Seq<u8>) -> bool {
    exists|i: int| 0 <= i < ks.len() && #[trigger] ks[i] == k
}

/// A strictly ascending sequence holding exactly a given membership is
/// unique: two of them are equal.
proof fn lemma_ascending_unique(ks1: Seq<Seq<u8>>, ks2: Seq<Seq<u8>>)
    requires
        forall|i: int, j: int| 0 <= i < j < ks1.len() ==> lex_lt(#[trigger] ks1[i], #[trigger] ks1[j]),
        forall|i: int, j: int| 0 <= i < j < ks2.len() ==> lex_lt(#[trigger] ks2[i], #[trigger] ks2[j]),
        forall|k: Seq<u8>| #![trigger listed(ks1, k)] #![trigger listed(ks2, k)] listed(ks1, k)
            <==> listed(ks2, k),
    ensures
        ks1 == ks2,
    decreases ks1.len(),
{
    if ks1.len() == 0 {
        if ks2.len() > 0 {
            assert(listed(ks2, ks2[0]));
            assert(false);
        }
        assert(ks1 =~= ks2);
    } else {
        assert(listed(ks1, ks1[0]));
        assert(listed(ks2, ks1[0]));
        let j0 = choose|j: int| 0 <= j < ks2.len() && #[trigger] ks2[j] == ks1[0];
        assert(listed(ks2, ks2[0]));
        assert(listed(ks1, ks2[0]));
        let i0 = choose|i: int| 0 <= i < ks1.len() && #[trigger] ks1[i] == ks2[0];
        if j0 > 0 {
            if i0 > 0 {
                assert(lex_lt(ks1[0], ks1[i0]) && lex_lt(ks2[0], ks2[j0]));
                lemma_lex_asymmetric(ks1[0], ks2[0]);
                assert(false);
            } else {
                assert(lex_lt(ks2[0], ks2[j0]));
                lemma_lex_irreflexive(ks1[0]);
                assert(false);
            }
        }
        assert(ks1[0] == ks2[0]);
        let t1 = ks1.skip(1);
        let t2 = ks2.skip(1);
        assert forall|k: Seq<u8>| #[trigger] listed(t1, k) implies #[trigger] listed(t2, k) by {
            let i = choose|i: int| 0 <= i < t1.len() && #[trigger] t1[i] == k;
            assert(ks1[i + 1] == k);
            assert(listed(ks1, k));
            assert(listed(ks2, k));
            let j = choose|j: int| 0 <= j < ks2.len() && #[trigger] ks2[j] == k;
            if j == 0 {
                assert(lex_lt(ks1[0], ks1[i + 1]));
                lemma_lex_irreflexive(ks1[0]);
                assert(false);
            }
            assert(t2[j - 1] == k);
        }
        assert forall|k: Seq<u8>| #[trigger] listed(t2, k) implies #[trigger] listed(t1, k) by {
            let j = choose|j: int| 0 <= j < t2.len() && #[trigger] t2[j] == k;
            assert(ks2[j + 1] == k);
            assert(listed(ks2, k));
            assert(listed(ks1, k));
            let i = choose|i: int| 0 <= i < ks1.len() && #[trigger] ks1[i] == k;
            if i == 0 {
                assert(lex_lt(ks2[0], ks2[j + 1]));
                lemma_lex_irreflexive(ks2[0]);
                assert(false);
            }
            assert(t1[i - 1] == k);
        }
        lemma_ascending_unique(t1, t2);
        assert(ks1.len() == ks2.len());
        assert forall|i: int| 0 <= i < ks1.len() implies ks1[i] == ks2[i] by {
            if i > 0 {
                assert(t1[i - 1] == ks1[i] && t2[i - 1] == ks2[i]);
            }
        }
        assert(ks1 =~= ks2);
    }
}

/// A class listing is unique: any two strictly ascending key sequences
/// that both lie within class `p` and both cover it are the same sequence.
/// The scans' contracts therefore pin their results: a scan returns the
/// one ordered listing of its class, so writes outside the class never
/// change what a scan yields.
pub proof fn lemma_scan_listing_unique(
    m: Map<Seq<u8>, Seq<u8>>,
    p: u8,
    ks1: Seq<Seq<u8>>,
    ks2: Seq<Seq<u8>>,
)
    requires
        scan_keys(m, p, ks1),
        covers_class(m, p, ks1),
        scan_keys(m, p, ks2),
        covers_class(m, p, ks2),
    ensures
        ks1 == ks2,
{
    assert forall|k: Seq<u8>| #[trigger] listed(ks1, k) implies #[trigger] listed(ks2, k) by {
        let i = choose|i: int| 0 <= i < ks1.len() && #[trigger] ks1[i] == k;
        assert(m.contains_key(k) && k.len() > 0 && k[0] == p);
    }
    assert forall|k: Seq<u8>| #[trigger] listed(ks2, k) implies #[trigger] listed(ks1, k) by {
        let j = choose|j: int| 0 <= j < ks2.len() && #[trigger] ks2[j] == k;
        assert(m.contains_key(k) && k.len() > 0 && k[0] == p);
    }
    lemma_ascending_unique(ks1, ks2);
}

/// Writes outside the latest-sequence class never change what
/// `get_latest_seq` sees for any author.
pub proof fn lemma_other_writes_keep_latest(
    m: Map<Seq<u8>, Seq<u8>>,
    k: Seq<u8>,
    v: Seq<u8>,
    author: Seq<char>,
)
    requires
        k.len() == 0 || k[0] != PREFIX_LATEST_SEQ,
    ensures
        spec_latest(m.insert(k, v), author) == spec_latest(m, author),
        latest_wf(m.insert(k, v), author) == latest_wf(m, author),
{
    assert(spec_key_latest_seq(author)[0] == PREFIX_LATEST_SEQ);
    assert(k != spec_key_latest_seq(author));
}

} // verus!
