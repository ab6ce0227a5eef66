//! The feed store: per-author append-only logs, the peer and blob-status
//! indexes and the global-order index, all over one embedded ordered
//! key-value database. Every operation's contract is stated against the
//! database's entry map.

use vstd::prelude::*;
use vstd::utf8::{decode_utf8, encode_utf8, valid_utf8};

use crate::bytes::{be8, be_val, buffer_to_u64, lex_lt, u64_to_be_bytes};
use crate::codec::{decode_blob, decode_kvt, decode_ref, enc_blob, enc_kvt, enc_ref, encode_blob,
    encode_kvt, encode_ref};
use crate::keys::{PREFIX_BLOB, PREFIX_PEER, counter_key, key_blob, key_global_fwd,
    key_global_rev, key_latest_seq, key_msg_kvt, key_msg_val, key_peer,
    lemma_key_kinds_disjoint, order_flag_key, spec_counter_key, spec_key_blob,
    spec_key_global_fwd, spec_key_global_rev, spec_key_latest_seq, spec_key_msg_kvt,
    spec_key_msg_val, spec_key_peer, spec_order_flag_key};
use crate::trusted::{db_entries, db_flush, db_get, db_insert, db_open, db_remove, db_scan,
    lossy_utf8, send_store_event, string_from_utf8_lossy};
use crate::types::{BlobStatus, BlobStatusV, MessageKvt, MessageKvtV, MessageValue, MessageValueV,
    PubKeyAndSeqNumV, StoreError, StoreKvEvent, clear_rts};

verus! {

/// Whether the latest-sequence entry of `author`, if present, is a
/// well-formed eight-byte value.
pub open spec fn latest_wf(m: Map<Seq<u8>, Seq<u8>>, author: Seq<char>) -> bool {
    m.contains_key(spec_key_latest_seq(author)) ==> m[spec_key_latest_seq(author)].len() == 8
}

/// The latest sequence number stored for `author`, `None` if the author is
/// unknown. Meaningful where `latest_wf` holds.
pub open spec fn spec_latest(m: Map<Seq<u8>, Seq<u8>>, author: Seq<char>) -> Option<u64> {
    if m.contains_key(spec_key_latest_seq(author)) {
        Some(be_val(m[spec_key_latest_seq(author)]))
    } else {
        None
    }
}

/// The latest sequence number stored for `author`, 0 if the author is
/// unknown.
pub open spec fn latest_or_zero(m: Map<Seq<u8>, Seq<u8>>, author: Seq<char>) -> u64 {
    match spec_latest(m, author) {
        Some(n) => n,
        None => 0,
    }
}

/// Whether the global-order counter entry, if present, is a well-formed
/// eight-byte value.
pub open spec fn counter_wf(m: Map<Seq<u8>, Seq<u8>>) -> bool {
    m.contains_key(spec_counter_key()) ==> m[spec_counter_key()].len() == 8
}

/// The global-order counter, 0 if absent. Meaningful where `counter_wf`
/// holds.
pub open spec fn spec_counter(m: Map<Seq<u8>, Seq<u8>>) -> u64 {
    if m.contains_key(spec_counter_key()) {
        be_val(m[spec_counter_key()])
    } else {
        0
    }
}

/// The record persisted for an appended message: its id as key, the value,
/// and no received timestamp.
pub open spec fn append_kvt(mv: MessageValueV) -> MessageKvtV {
    MessageKvtV { key: mv.id, value: mv, rts: None }
}

/// What one successful append writes, in write order: the feed reference,
/// the forward and reverse global-order entries and the counter, the
/// stored record, the latest-sequence entry and the peer entry.
pub open spec fn append_map(m: Map<Seq<u8>, Seq<u8>>, mv: MessageValueV) -> Map<Seq<u8>, Seq<u8>> {
    let n = (latest_or_zero(m, mv.author) + 1) as u64;
    let c = (spec_counter(m) + 1) as u64;
    m.insert(spec_key_msg_val(mv.id), enc_ref(PubKeyAndSeqNumV { pub_key: mv.author, seq_num: n }))
        .insert(spec_key_global_fwd(c), encode_utf8(mv.id))
        .insert(spec_key_global_rev(mv.id), be8(c))
        .insert(spec_counter_key(), be8(c))
        .insert(spec_key_msg_kvt(mv.author, n), enc_kvt(append_kvt(mv)))
        .insert(spec_key_latest_seq(mv.author), be8(n))
        .insert(spec_key_peer(mv.author), be8(n))
}

/// Keys one range scan of class `p` yields: each within the class and
/// present in the map, in strictly ascending lexicographic order — so no
/// key appears twice.
pub open spec fn scan_keys(m: Map<Seq<u8>, Seq<u8>>, p: u8, ks: Seq<Seq<u8>>) -> bool {
    &&& forall|i: int|
        0 <= i < ks.len() ==> (#[trigger] ks[i]).len() > 0 && ks[i][0] == p && m.contains_key(
            ks[i],
        )
    &&& forall|i: int, j: int| 0 <= i < j < ks.len() ==> lex_lt(#[trigger] ks[i], #[trigger] ks[j])
}

/// Every key of class `p` appears among `ks`.
pub open spec fn covers_class(m: Map<Seq<u8>, Seq<u8>>, p: u8, ks: Seq<Seq<u8>>) -> bool {
    forall|k: Seq<u8>|
        #[trigger] m.contains_key(k) && k.len() > 0 && k[0] == p ==> exists|i: int|
            0 <= i < ks.len() && ks[i] == k
}

/// One peer element decoded from key `k`: the author identity is the lossy
/// decoding of the key's suffix (the exact decoding where the suffix is
/// valid UTF-8), and the sequence is that author's latest, resolved from
/// the latest-sequence class, 0 if absent.
pub open spec fn peer_elem(m: Map<Seq<u8>, Seq<u8>>, k: Seq<u8>, p: (Seq<char>, u64)) -> bool {
    &&& p.0 == lossy_utf8(k.skip(1))
    &&& valid_utf8(k.skip(1)) ==> p.0 == decode_utf8(k.skip(1))
    &&& latest_wf(m, p.0)
    &&& p.1 == latest_or_zero(m, p.0)
}

/// `v` decodes `ks` position by position into peer elements.
pub open spec fn peers_from_keys(
    m: Map<Seq<u8>, Seq<u8>>,
    ks: Seq<Seq<u8>>,
    v: Seq<(Seq<char>, u64)>,
) -> bool {
    &&& v.len() == ks.len()
    &&& forall|i: int| 0 <= i < v.len() ==> #[trigger] peer_elem(m, ks[i], v[i])
}

/// One pending-blob element decoded from key `k`: the id is the lossy
/// decoding of the key's suffix (the exact decoding where the suffix is
/// valid UTF-8), and the stored status is an unretrieved blob.
pub open spec fn pending_elem(m: Map<Seq<u8>, Seq<u8>>, k: Seq<u8>, s: String) -> bool {
    &&& s@ == lossy_utf8(k.skip(1))
    &&& valid_utf8(k.skip(1)) ==> s@ == decode_utf8(k.skip(1))
    &&& exists|x: BlobStatusV| m[k] == #[trigger] enc_blob(x) && !x.retrieved
}

/// `v` decodes `ks` position by position into pending blob ids, and every
/// blob-class key whose status is unretrieved appears among `ks`.
pub open spec fn pending_from_keys(m: Map<Seq<u8>, Seq<u8>>, ks: Seq<Seq<u8>>, v: Seq<String>) -> bool {
    &&& v.len() == ks.len()
    &&& forall|i: int| 0 <= i < v.len() ==> #[trigger] pending_elem(m, ks[i], v[i])
    &&& forall|k: Seq<u8>, x: BlobStatusV|
        #[trigger] m.contains_key(k) && k.len() > 0 && k[0] == PREFIX_BLOB && m[k]
            == #[trigger] enc_blob(x) && !x.retrieved ==> exists|i: int|
            0 <= i < ks.len() && ks[i] == k
}

/// The view of a peer vector.
pub open spec fn pairs_view(v: Seq<(String, u64)>) -> Seq<(Seq<char>, u64)> {
    Seq::new(v.len(), |i: int| (v[i].0@, v[i].1))
}

/// The number of messages a peer listing accounts for.
pub open spec fn sum_latest(v: Seq<(Seq<char>, u64)>) -> int
    decreases v.len(),
{
    if v.len() == 0 {
        0
    } else {
        v[0].1 + sum_latest(v.skip(1))
    }
}

/// Appending one peer adds its latest count to the sum.
pub proof fn lemma_sum_latest_snoc(v: Seq<(Seq<char>, u64)>, x: (Seq<char>, u64))
    ensures
        sum_latest(v.push(x)) == sum_latest(v) + x.1,
    decreases v.len(),
{
    if v.len() == 0 {
        reveal_with_fuel(sum_latest, 3);
        assert(v.push(x)[0] == x);
        assert(v.push(x).skip(1) =~= Seq::<(Seq<char>, u64)>::empty());
    } else {
        assert(v.push(x).skip(1) =~= v.skip(1).push(x));
        lemma_sum_latest_snoc(v.skip(1), x);
        assert(v.push(x)[0] == v[0]);
    }
}

/// The sum of latest sequences is never negative.
pub proof fn lemma_sum_latest_nonneg(v: Seq<(Seq<char>, u64)>)
    ensures
        sum_latest(v) >= 0,
    decreases v.len(),
{
    if v.len() > 0 {
        lemma_sum_latest_nonneg(v.skip(1));
    }
}

/// The sum splits at any index.
pub proof fn lemma_sum_latest_split(v: Seq<(Seq<char>, u64)>, i: int)
    requires
        0 <= i <= v.len(),
    ensures
        sum_latest(v) == sum_latest(v.take(i)) + sum_latest(v.skip(i)),
    decreases i,
{
    if i == 0 {
        reveal_with_fuel(sum_latest, 2);
        assert(v.take(0) =~= Seq::<(Seq<char>, u64)>::empty());
        assert(v.skip(0) =~= v);
    } else {
        lemma_sum_latest_split(v, i - 1);
        lemma_sum_latest_snoc(v.take(i - 1), v[i - 1]);
        assert(v.take(i) =~= v.take(i - 1).push(v[i - 1]));
        assert(v.skip(i - 1)[0] == v[i - 1]);
        assert(v.skip(i - 1).skip(1) =~= v.skip(i));
        assert(sum_latest(v.skip(i - 1)) == v[i - 1].1 + sum_latest(v.skip(i)));
    }
}

/// The prefix-class entries (first byte below 5) of `m2` are exactly those
/// of `m1`: maintaining the global order touches only its own key families.
pub open spec fn classes_unchanged(m1: Map<Seq<u8>, Seq<u8>>, m2: Map<Seq<u8>, Seq<u8>>) -> bool {
    forall|k: Seq<u8>|
        k.len() > 0 && k[0] < 5 ==> ((m2.contains_key(k) <==> #[trigger] m1.contains_key(k)) && (
        m1.contains_key(k) ==> m2[k] == m1[k]))
}

/// The feed store. It owns the database handle and the commit-channel
/// sender; both are installed at `open`, so no partially-initialised store
/// is representable.
pub struct KvStorage {
    db: sled::Db,
    ch_broker: futures::channel::mpsc::UnboundedSender<StoreKvEvent>,
}

impl KvStorage {
    /// The entries of the underlying database.
    pub closed spec fn entries(self) -> Map<Seq<u8>, Seq<u8>> {
        db_entries(self.db)
    }

    /// Open the key-value database described by the configuration and
    /// record the commit channel. Reads the global-order counter; if it is
    /// zero and the bootstrap flag is unset, builds the global-order index
    /// and sets the flag so the build never re-runs.
    pub fn open(
        config: &sled::Config,
        ch_broker: futures::channel::mpsc::UnboundedSender<StoreKvEvent>,
    ) -> (r: Result<KvStorage, StoreError>)
        ensures
            r matches Ok(s) ==> counter_wf(s.entries()) && (spec_counter(s.entries()) > 0
                || s.entries().contains_key(spec_order_flag_key())),
    {
        let db = match db_open(config) {
            Ok(d) => d,
            Err(_) => {
                return Err(StoreError::StorageOpen);
            },
        };
        let mut store = KvStorage { db, ch_broker };
        let global_order_seq = match store.get_global_order_seq() {
            Ok(c) => c,
            Err(e) => {
                return Err(e);
            },
        };
        if global_order_seq == 0 {
            let flag_key = order_flag_key();
            let flag = match db_get(&store.db, &flag_key) {
                Ok(o) => o,
                Err(_) => {
                    return Err(StoreError::StorageIo);
                },
            };
            // The flag marks a completed bootstrap: once set, never re-run.
            if flag.is_none() {
                match store.build_global_order_index() {
                    Ok(_) => (),
                    Err(e) => {
                        return Err(e);
                    },
                }
                let flag_val: Vec<u8> = vec![1u8];
                match db_insert(&mut store.db, &flag_key, flag_val) {
                    Ok(()) => (),
                    Err(_) => {
                        return Err(StoreError::StorageIo);
                    },
                }
                proof {
                    lemma_key_kinds_disjoint(Seq::<char>::empty(), Seq::<char>::empty(), 0, 0);
                }
            }
        }
        Ok(store)
    }

    /// The current global-order counter; 0 if none is recorded yet.
    pub fn get_global_order_seq(&self) -> (r: Result<u64, StoreError>)
        ensures
            r matches Ok(n) ==> counter_wf(self.entries()) && n == spec_counter(self.entries()),
            r == Err::<u64, StoreError>(StoreError::StorageCorruption) ==> !counter_wf(self.entries()),
            r matches Err(e) ==> e == StoreError::StorageIo || e == StoreError::StorageCorruption,
    {
        let key = counter_key();
        match db_get(&self.db, &key) {
            Err(_) => Err(StoreError::StorageIo),
            Ok(None) => Ok(0),
            Ok(Some(v)) => {
                if v.len() == 8 {
                    Ok(buffer_to_u64(v.as_slice()))
                } else {
                    Err(StoreError::StorageCorruption)
                }
            },
        }
    }

    /// The sequence number of the latest message in `user_id`'s feed;
    /// `None` if the author is unknown.
    pub fn get_latest_seq(&self, user_id: &str) -> (r: Result<Option<u64>, StoreError>)
        ensures
            r matches Ok(o) ==> latest_wf(self.entries(), user_id@) && o == spec_latest(
                self.entries(),
                user_id@,
            ),
            r == Err::<Option<u64>, StoreError>(StoreError::StorageCorruption) ==> !latest_wf(
                self.entries(),
                user_id@,
            ),
            r matches Err(e) ==> e == StoreError::StorageIo || e == StoreError::StorageCorruption,
    {
        let key = key_latest_seq(user_id);
        match db_get(&self.db, &key) {
            Err(_) => Err(StoreError::StorageIo),
            Ok(None) => Ok(None),
            Ok(Some(v)) => {
                if v.len() == 8 {
                    Ok(Some(buffer_to_u64(v.as_slice())))
                } else {
                    Err(StoreError::StorageCorruption)
                }
            },
        }
    }

    /// The stored record of `user_id`'s message `msg_seq`, if present.
    pub fn get_msg_kvt(&self, user_id: &str, msg_seq: u64) -> (r: Result<
        Option<MessageKvt>,
        StoreError,
    >)
        ensures
            r matches Ok(o) ==> {
                let kk = spec_key_msg_kvt(user_id@, msg_seq);
                let m = self.entries();
                &&& (o is Some <==> m.contains_key(kk))
                &&& (o matches Some(k) ==> m[kk] == enc_kvt(k@) && k@.rts is None)
                &&& forall|x: MessageKvtV|
                    m.contains_key(kk) && m[kk] == #[trigger] enc_kvt(x) ==> (o matches Some(k)
                        && k@ == clear_rts(x))
            },
            r == Err::<Option<MessageKvt>, StoreError>(StoreError::SerializationFailure) ==> {
                let kk = spec_key_msg_kvt(user_id@, msg_seq);
                let m = self.entries();
                m.contains_key(kk) && forall|x: MessageKvtV| m[kk] != #[trigger] enc_kvt(x)
            },
            r matches Err(e) ==> e == StoreError::StorageIo || e == StoreError::SerializationFailure,
    {
        let key = key_msg_kvt(user_id, msg_seq);
        match db_get(&self.db, &key) {
            Err(_) => Err(StoreError::StorageIo),
            Ok(None) => Ok(None),
            Ok(Some(raw)) => match decode_kvt(raw.as_slice()) {
                None => Err(StoreError::SerializationFailure),
                Some(kvt) => Ok(Some(kvt)),
            },
        }
    }

    /// The message value stored under the canonical id `msg_id`: the
    /// reference record resolves to an author and sequence, whose stored
    /// record holds the value. A reference that resolves to a missing
    /// record is a corruption.
    pub fn get_msg_val(&self, msg_id: &str) -> (r: Result<Option<MessageValue>, StoreError>)
        ensures
            r matches Ok(o) ==> {
                let rk = spec_key_msg_val(msg_id@);
                let m = self.entries();
                &&& (o is Some <==> m.contains_key(rk))
                &&& forall|p: PubKeyAndSeqNumV, x: MessageKvtV|
                    m.contains_key(rk) && m[rk] == #[trigger] enc_ref(p) && m.contains_key(
                        spec_key_msg_kvt(p.pub_key, p.seq_num),
                    ) && m[spec_key_msg_kvt(p.pub_key, p.seq_num)] == #[trigger] enc_kvt(x) ==> (
                    o matches Some(mv) && mv@ == x.value)
            },
            r matches Ok(o) ==> (o matches Some(mv) ==> {
                let rk = spec_key_msg_val(msg_id@);
                let m = self.entries();
                exists|p: PubKeyAndSeqNumV, x: MessageKvtV|
                    m[rk] == #[trigger] enc_ref(p) && m.contains_key(
                        spec_key_msg_kvt(p.pub_key, p.seq_num),
                    ) && m[spec_key_msg_kvt(p.pub_key, p.seq_num)] == #[trigger] enc_kvt(x) && mv@
                        == x.value
            }),
            r == Err::<Option<MessageValue>, StoreError>(StoreError::StorageCorruption) ==> {
                let rk = spec_key_msg_val(msg_id@);
                let m = self.entries();
                exists|p: PubKeyAndSeqNumV|
                    m.contains_key(rk) && m[rk] == #[trigger] enc_ref(p) && !m.contains_key(
                        spec_key_msg_kvt(p.pub_key, p.seq_num),
                    )
            },
            r == Err::<Option<MessageValue>, StoreError>(StoreError::SerializationFailure) ==> {
                let rk = spec_key_msg_val(msg_id@);
                let m = self.entries();
                m.contains_key(rk) && ((forall|p: PubKeyAndSeqNumV| m[rk] != #[trigger] enc_ref(p))
                    || exists|p: PubKeyAndSeqNumV|
                    m[rk] == #[trigger] enc_ref(p) && m.contains_key(
                        spec_key_msg_kvt(p.pub_key, p.seq_num),
                    ) && forall|x: MessageKvtV|
                        m[spec_key_msg_kvt(p.pub_key, p.seq_num)] != #[trigger] enc_kvt(x))
            },
            r matches Err(e) ==> e == StoreError::StorageIo || e == StoreError::SerializationFailure
                || e == StoreError::StorageCorruption,
    {
        let rkey = key_msg_val(msg_id);
        match db_get(&self.db, &rkey) {
            Err(_) => Err(StoreError::StorageIo),
            Ok(None) => Ok(None),
            Ok(Some(raw)) => match decode_ref(raw.as_slice()) {
                None => Err(StoreError::SerializationFailure),
                Some(msg_ref) => match self.get_msg_kvt(
                    msg_ref.pub_key.as_str(),
                    msg_ref.seq_num,
                ) {
                    Err(e) => {
                        proof {
                            let m = self.entries();
                            let rk = spec_key_msg_val(msg_id@);
                            if e == StoreError::SerializationFailure {
                                assert(m[rk] == enc_ref(msg_ref@) && m.contains_key(
                                    spec_key_msg_kvt(msg_ref@.pub_key, msg_ref@.seq_num),
                                ));
                            }
                        }
                        Err(e)
                    },
                    Ok(None) => {
                        proof {
                            let m = self.entries();
                            let rk = spec_key_msg_val(msg_id@);
                            assert(m.contains_key(rk) && m[rk] == enc_ref(msg_ref@)
                                && !m.contains_key(
                                spec_key_msg_kvt(msg_ref@.pub_key, msg_ref@.seq_num),
                            ));
                        }
                        Err(StoreError::StorageCorruption)
                    },
                    Ok(Some(kvt)) => {
                        proof {
                            let m = self.entries();
                            let rk = spec_key_msg_val(msg_id@);
                            assert(m[rk] == enc_ref(msg_ref@) && m[spec_key_msg_kvt(
                                msg_ref@.pub_key,
                                msg_ref@.seq_num,
                            )] == enc_kvt(kvt@));
                        }
                        Ok(Some(kvt.value))
                    },
                },
            },
        }
    }

    /// The latest message value authored by `user_id`, if any.
    pub fn get_latest_msg_val(&self, user_id: &str) -> (r: Result<
        Option<MessageValue>,
        StoreError,
    >)
        ensures
            r matches Ok(o) ==> {
                let m = self.entries();
                &&& latest_wf(m, user_id@)
                &&& (o is Some <==> spec_latest(m, user_id@) is Some)
                &&& forall|x: MessageKvtV|
                    (spec_latest(m, user_id@) matches Some(n) && m.contains_key(
                        spec_key_msg_kvt(user_id@, n),
                    ) && m[spec_key_msg_kvt(user_id@, n)] == #[trigger] enc_kvt(x)) ==> (
                    o matches Some(mv) && mv@ == x.value)
            },
            r matches Ok(o) ==> (o matches Some(mv) ==> {
                let m = self.entries();
                spec_latest(m, user_id@) matches Some(n) && exists|x: MessageKvtV|
                    m[spec_key_msg_kvt(user_id@, n)] == #[trigger] enc_kvt(x) && mv@ == x.value
            }),
            r == Err::<Option<MessageValue>, StoreError>(StoreError::StorageCorruption) ==> {
                let m = self.entries();
                ||| !latest_wf(m, user_id@)
                ||| (spec_latest(m, user_id@) matches Some(n) && !m.contains_key(
                    spec_key_msg_kvt(user_id@, n),
                ))
            },
            r == Err::<Option<MessageValue>, StoreError>(StoreError::SerializationFailure) ==> {
                let m = self.entries();
                &&& latest_wf(m, user_id@)
                &&& spec_latest(m, user_id@) matches Some(n) && m.contains_key(
                    spec_key_msg_kvt(user_id@, n),
                ) && forall|x: MessageKvtV|
                    m[spec_key_msg_kvt(user_id@, n)] != #[trigger] enc_kvt(x)
            },
            r matches Err(e) ==> e == StoreError::StorageIo || e == StoreError::SerializationFailure
                || e == StoreError::StorageCorruption,
    {
        let latest = match self.get_latest_seq(user_id) {
            Ok(o) => o,
            Err(e) => {
                return Err(e);
            },
        };
        match latest {
            None => Ok(None),
            Some(last_id) => match self.get_msg_kvt(user_id, last_id) {
                Err(e) => Err(e),
                Ok(None) => Err(StoreError::StorageCorruption),
                Ok(Some(kvt)) => Ok(Some(kvt.value)),
            },
        }
    }

    /// All records comprising `user_id`'s feed, in sequence order
    /// `1..=latest`. A missing record within that range is a corruption.
    pub fn get_feed(&self, user_id: &str) -> (r: Result<Vec<MessageKvt>, StoreError>)
        ensures
            r matches Ok(v) ==> {
                let m = self.entries();
                &&& latest_wf(m, user_id@)
                &&& v@.len() == latest_or_zero(m, user_id@)
                &&& forall|i: int|
                    0 <= i < v@.len() ==> m.contains_key(spec_key_msg_kvt(user_id@, (i + 1) as u64))
                        && m[spec_key_msg_kvt(user_id@, (i + 1) as u64)] == enc_kvt(
                        (#[trigger] v@[i])@,
                    ) && v@[i]@.rts is None
                &&& forall|i: int, x: MessageKvtV|
                    0 <= i < v@.len() && m[spec_key_msg_kvt(user_id@, (i + 1) as u64)]
                        == #[trigger] enc_kvt(x) ==> (#[trigger] v@[i])@ == clear_rts(x)
            },
            r == Err::<Vec<MessageKvt>, StoreError>(StoreError::StorageCorruption) ==> {
                let m = self.entries();
                ||| !latest_wf(m, user_id@)
                ||| exists|s: u64|
                    1 <= s <= latest_or_zero(m, user_id@) && !m.contains_key(
                        #[trigger] spec_key_msg_kvt(user_id@, s),
                    )
            },
            r == Err::<Vec<MessageKvt>, StoreError>(StoreError::SerializationFailure) ==> {
                let m = self.entries();
                exists|s: u64|
                    1 <= s <= latest_or_zero(m, user_id@) && m.contains_key(
                        #[trigger] spec_key_msg_kvt(user_id@, s),
                    ) && forall|x: MessageKvtV| m[spec_key_msg_kvt(user_id@, s)] != enc_kvt(x)
            },
            r matches Err(e) ==> e == StoreError::StorageIo || e == StoreError::SerializationFailure
                || e == StoreError::StorageCorruption,
    {
        let mut feed: Vec<MessageKvt> = Vec::new();
        let latest = match self.get_latest_seq(user_id) {
            Ok(Some(n)) => n,
            Ok(None) => {
                return Ok(feed);
            },
            Err(e) => {
                return Err(e);
            },
        };
        let mut i: u64 = 0;
        while i < latest
            invariant
                0 <= i <= latest,
                latest_wf(self.entries(), user_id@),
                spec_latest(self.entries(), user_id@) == Some(latest),
                feed@.len() == i,
                forall|j: int|
                    0 <= j < feed@.len() ==> self.entries().contains_key(
                        spec_key_msg_kvt(user_id@, (j + 1) as u64),
                    ) && self.entries()[spec_key_msg_kvt(user_id@, (j + 1) as u64)] == enc_kvt(
                        (#[trigger] feed@[j])@,
                    ) && feed@[j]@.rts is None,
                forall|j: int, x: MessageKvtV|
                    0 <= j < feed@.len() && self.entries()[spec_key_msg_kvt(
                        user_id@,
                        (j + 1) as u64,
                    )] == #[trigger] enc_kvt(x) ==> (#[trigger] feed@[j])@ == clear_rts(x),
            decreases latest - i,
        {
            match self.get_msg_kvt(user_id, i + 1) {
                Err(e) => {
                    proof {
                        if e == StoreError::SerializationFailure {
                            assert(1 <= i + 1 <= latest_or_zero(self.entries(), user_id@)
                                && self.entries().contains_key(
                                spec_key_msg_kvt(user_id@, (i + 1) as u64),
                            ));
                        }
                    }
                    return Err(e);
                },
                Ok(None) => {
                    proof {
                        assert(1 <= i + 1 <= latest_or_zero(self.entries(), user_id@)
                            && !self.entries().contains_key(
                            spec_key_msg_kvt(user_id@, (i + 1) as u64),
                        ));
                    }
                    return Err(StoreError::StorageCorruption);
                },
                Ok(Some(kvt)) => {
                    feed.push(kvt);
                },
            }
            i = i + 1;
        }
        Ok(feed)
    }

    /// Record `user_id` as a peer with the given latest sequence.
    pub fn set_peer(&mut self, user_id: &str, latest_seq: u64) -> (r: Result<(), StoreError>)
        ensures
            r is Ok ==> final(self).entries() == old(self).entries().insert(
                spec_key_peer(user_id@),
                be8(latest_seq),
            ),
            r matches Err(e) ==> e == StoreError::StorageIo,
    {
        let key = key_peer(user_id);
        let value = u64_to_be_bytes(latest_seq);
        match db_insert(&mut self.db, &key, value) {
            Ok(()) => Ok(()),
            Err(_) => Err(StoreError::StorageIo),
        }
    }

    /// The status of blob `blob_id`, if one is recorded.
    pub fn get_blob(&self, blob_id: &str) -> (r: Result<Option<BlobStatus>, StoreError>)
        ensures
            r matches Ok(o) ==> {
                let kb = spec_key_blob(blob_id@);
                let m = self.entries();
                &&& (o is Some <==> m.contains_key(kb))
                &&& (o matches Some(v) ==> m[kb] == enc_blob(v@))
                &&& forall|x: BlobStatusV|
                    m.contains_key(kb) && m[kb] == #[trigger] enc_blob(x) ==> (o matches Some(v)
                        && v@ == x)
            },
            r == Err::<Option<BlobStatus>, StoreError>(StoreError::SerializationFailure) ==> {
                let kb = spec_key_blob(blob_id@);
                let m = self.entries();
                m.contains_key(kb) && forall|x: BlobStatusV| m[kb] != #[trigger] enc_blob(x)
            },
            r matches Err(e) ==> e == StoreError::StorageIo
                || e == StoreError::SerializationFailure,
    {
        let key = key_blob(blob_id);
        match db_get(&self.db, &key) {
            Err(_) => Err(StoreError::StorageIo),
            Ok(None) => Ok(None),
            Ok(Some(raw)) => match decode_blob(raw.as_slice()) {
                None => Err(StoreError::SerializationFailure),
                Some(blob) => Ok(Some(blob)),
            },
        }
    }

    /// Record the status of blob `blob_id`.
    pub fn set_blob(&mut self, blob_id: &str, blob: &BlobStatus) -> (r: Result<(), StoreError>)
        ensures
            r is Ok ==> final(self).entries() == old(self).entries().insert(
                spec_key_blob(blob_id@),
                enc_blob(blob@),
            ),
            r matches Err(e) ==> e == StoreError::StorageIo,
    {
        let key = key_blob(blob_id);
        let value = encode_blob(blob);
        match db_insert(&mut self.db, &key, value) {
            Ok(()) => Ok(()),
            Err(_) => Err(StoreError::StorageIo),
        }
    }

    /// Insert a raw entry, bypassing the key-space encoder. Range scans of
    /// a prefix class are unaffected by raw keys outside that class.
    pub fn insert_raw(&mut self, key: Vec<u8>, value: Vec<u8>) -> (r: Result<(), StoreError>)
        ensures
            r is Ok ==> final(self).entries() == old(self).entries().insert(key@, value@),
            r matches Err(e) ==> e == StoreError::StorageIo,
    {
        match db_insert(&mut self.db, &key, value) {
            Ok(()) => Ok(()),
            Err(_) => Err(StoreError::StorageIo),
        }
    }

    /// The ids of all blobs whose status says they have not been
    /// retrieved, one per pending blob-class key, in the database's
    /// ascending lexicographic key order.
    #[verifier::rlimit(100)]
    pub fn get_pending_blobs(&self) -> (r: Result<Vec<String>, StoreError>)
        ensures
            r matches Ok(v) ==> exists|ks: Seq<Seq<u8>>|
                scan_keys(self.entries(), PREFIX_BLOB, ks) && pending_from_keys(
                    self.entries(),
                    ks,
                    v@,
                ),
            r == Err::<Vec<String>, StoreError>(StoreError::SerializationFailure) ==> exists|
                k: Seq<u8>,
            |
                #[trigger] self.entries().contains_key(k) && k.len() > 0 && k[0] == PREFIX_BLOB
                    && forall|x: BlobStatusV| self.entries()[k] != #[trigger] enc_blob(x),
            r matches Err(e) ==> e == StoreError::StorageIo
                || e == StoreError::SerializationFailure,
    {
        let mut list: Vec<String> = Vec::new();
        let ghost mut ks: Seq<Seq<u8>> = Seq::empty();
        let ghost mut ts: Seq<int> = Seq::empty();
        let entries = match db_scan(&self.db, PREFIX_BLOB, PREFIX_BLOB + 1) {
            Ok(v) => v,
            Err(_) => {
                return Err(StoreError::StorageIo);
            },
        };
        let mut j: usize = 0;
        while j < entries.len()
            invariant
                0 <= j <= entries@.len(),
                forall|t: int|
                    0 <= t < entries@.len() ==> {
                        &&& (#[trigger] entries@[t]).0@.len() > 0
                        &&& entries@[t].0@[0] == PREFIX_BLOB
                        &&& self.entries().contains_key(entries@[t].0@)
                        &&& self.entries()[entries@[t].0@] == entries@[t].1@
                    },
                forall|k: Seq<u8>|
                    #[trigger] self.entries().contains_key(k) && k.len() > 0 && k[0] == PREFIX_BLOB
                        ==> exists|t: int|
                        0 <= t < entries@.len() && (#[trigger] entries@[t]).0@ == k,
                forall|t1: int, t2: int|
                    0 <= t1 < t2 < entries@.len() ==> lex_lt(
                        (#[trigger] entries@[t1]).0@,
                        (#[trigger] entries@[t2]).0@,
                    ),
                ks.len() == list@.len(),
                ts.len() == list@.len(),
                forall|i: int| 0 <= i < ts.len() ==> 0 <= #[trigger] ts[i] < j,
                forall|i1: int, i2: int| 0 <= i1 < i2 < ts.len() ==> ts[i1] < ts[i2],
                forall|i: int| 0 <= i < ks.len() ==> (#[trigger] ks[i]) == entries@[ts[i]].0@,
                forall|i: int|
                    0 <= i < list@.len() ==> #[trigger] pending_elem(
                        self.entries(),
                        ks[i],
                        list@[i],
                    ),
                forall|t: int, x: BlobStatusV|
                    0 <= t < j && (#[trigger] entries@[t]).1@ == #[trigger] enc_blob(x)
                        && !x.retrieved ==> exists|i: int|
                        0 <= i < ks.len() && ks[i] == entries@[t].0@,
            decreases entries@.len() - j,
        {
            let blob = match decode_blob(entries[j].1.as_slice()) {
                None => {
                    proof {
                        let k0 = entries@[j as int].0@;
                        assert(self.entries().contains_key(k0) && k0.len() > 0 && k0[0]
                            == PREFIX_BLOB && forall|x: BlobStatusV|
                            self.entries()[k0] != #[trigger] enc_blob(x));
                    }
                    return Err(StoreError::SerializationFailure);
                },
                Some(x) => x,
            };
            let ghost prev_ks = ks;
            let ghost prev_list = list@;
            if !blob.retrieved {
                let suffix = drop_first(&entries[j].0);
                let name = string_from_utf8_lossy(&suffix);
                list.push(name);
                proof {
                    ks = ks.push(entries@[j as int].0@);
                    ts = ts.push(j as int);
                    let k0 = entries@[j as int].0@;
                    assert(self.entries()[k0] == enc_blob(blob@));
                    assert(pending_elem(self.entries(), k0, list@[list@.len() - 1]));
                    assert forall|i: int| 0 <= i < list@.len() implies #[trigger] pending_elem(
                        self.entries(),
                        ks[i],
                        list@[i],
                    ) by {
                        if i < list@.len() - 1 {
                            assert(ks[i] == prev_ks[i] && list@[i] == prev_list[i]);
                            assert(pending_elem(self.entries(), prev_ks[i], prev_list[i]));
                        }
                    }
                }
            }
            proof {
                assert forall|t: int, x: BlobStatusV|
                    0 <= t < j + 1 && (#[trigger] entries@[t]).1@ == #[trigger] enc_blob(x)
                        && !x.retrieved implies exists|i: int|
                    0 <= i < ks.len() && ks[i] == entries@[t].0@ by {
                    if t == j {
                        assert(blob@ == x);
                        assert(ks[ks.len() - 1] == entries@[t].0@);
                    } else {
                        let i1 = choose|i: int|
                            0 <= i < prev_ks.len() && #[trigger] prev_ks[i] == entries@[t].0@;
                        assert(ks[i1] == entries@[t].0@);
                    }
                }
            }
            j = j + 1;
        }
        proof {
            assert(scan_keys(self.entries(), PREFIX_BLOB, ks));
            assert forall|k: Seq<u8>, x: BlobStatusV|
                #[trigger] self.entries().contains_key(k) && k.len() > 0 && k[0] == PREFIX_BLOB
                    && self.entries()[k] == #[trigger] enc_blob(x) && !x.retrieved implies exists|
                i: int,
            |
                0 <= i < ks.len() && ks[i] == k by {
                let t = choose|t: int|
                    0 <= t < entries@.len() && (#[trigger] entries@[t]).0@ == k;
                assert(entries@[t].1@ == enc_blob(x));
            }
            assert(pending_from_keys(self.entries(), ks, list@));
        }
        Ok(list)
    }

    /// The author identity and latest sequence number of every peer, one
    /// per peer-class key, in the database's ascending lexicographic key
    /// order. Each sequence is resolved from the latest-sequence class,
    /// falling back to 0 when the author has none recorded.
    pub fn get_peers(&self) -> (r: Result<Vec<(String, u64)>, StoreError>)
        ensures
            r matches Ok(v) ==> exists|ks: Seq<Seq<u8>>|
                scan_keys(self.entries(), PREFIX_PEER, ks) && covers_class(
                    self.entries(),
                    PREFIX_PEER,
                    ks,
                ) && peers_from_keys(self.entries(), ks, pairs_view(v@)),
            r == Err::<Vec<(String, u64)>, StoreError>(StoreError::StorageCorruption) ==> exists|
                k: Seq<u8>,
            |
                #[trigger] self.entries().contains_key(k) && k.len() > 0 && k[0] == PREFIX_PEER
                    && !latest_wf(self.entries(), lossy_utf8(k.skip(1))),
            r matches Err(e) ==> e == StoreError::StorageIo || e == StoreError::StorageCorruption,
    {
        let mut peers: Vec<(String, u64)> = Vec::new();
        let entries = match db_scan(&self.db, PREFIX_PEER, PREFIX_PEER + 1) {
            Ok(v) => v,
            Err(_) => {
                return Err(StoreError::StorageIo);
            },
        };
        let ghost ks: Seq<Seq<u8>> = Seq::new(entries@.len(), |t: int| entries@[t].0@);
        let mut j: usize = 0;
        while j < entries.len()
            invariant
                0 <= j <= entries@.len(),
                peers@.len() == j,
                ks == Seq::new(entries@.len(), |t: int| entries@[t].0@),
                forall|t: int|
                    0 <= t < entries@.len() ==> {
                        &&& (#[trigger] entries@[t]).0@.len() > 0
                        &&& entries@[t].0@[0] == PREFIX_PEER
                        &&& self.entries().contains_key(entries@[t].0@)
                    },
                forall|k: Seq<u8>|
                    #[trigger] self.entries().contains_key(k) && k.len() > 0 && k[0] == PREFIX_PEER
                        ==> exists|t: int|
                        0 <= t < entries@.len() && (#[trigger] entries@[t]).0@ == k,
                forall|t1: int, t2: int|
                    0 <= t1 < t2 < entries@.len() ==> lex_lt(
                        (#[trigger] entries@[t1]).0@,
                        (#[trigger] entries@[t2]).0@,
                    ),
                forall|t: int|
                    0 <= t < j ==> #[trigger] peer_elem(
                        self.entries(),
                        ks[t],
                        (peers@[t].0@, peers@[t].1),
                    ),
            decreases entries@.len() - j,
        {
            let suffix = drop_first(&entries[j].0);
            let pub_key = string_from_utf8_lossy(&suffix);
            let seq_num = match self.get_latest_seq(pub_key.as_str()) {
                Err(e) => {
                    proof {
                        if e == StoreError::StorageCorruption {
                            let k0 = entries@[j as int].0@;
                            assert(self.entries().contains_key(k0) && k0.len() > 0 && k0[0]
                                == PREFIX_PEER && !latest_wf(
                                self.entries(),
                                lossy_utf8(k0.skip(1)),
                            ));
                        }
                    }
                    return Err(e);
                },
                Ok(Some(n)) => n,
                Ok(None) => 0,
            };
            peers.push((pub_key, seq_num));
            proof {
                assert(peer_elem(
                    self.entries(),
                    ks[j as int],
                    (peers@[j as int].0@, peers@[j as int].1),
                ));
            }
            j = j + 1;
        }
        proof {
            assert(scan_keys(self.entries(), PREFIX_PEER, ks));
            assert forall|k: Seq<u8>|
                #[trigger] self.entries().contains_key(k) && k.len() > 0 && k[0]
                    == PREFIX_PEER implies exists|i: int| 0 <= i < ks.len() && ks[i] == k by {
                let t = choose|t: int|
                    0 <= t < entries@.len() && (#[trigger] entries@[t]).0@ == k;
                assert(ks[t] == k);
            }
            assert(covers_class(self.entries(), PREFIX_PEER, ks));
            assert forall|i: int| 0 <= i < pairs_view(peers@).len() implies #[trigger] peer_elem(
                self.entries(),
                ks[i],
                pairs_view(peers@)[i],
            ) by {
                assert(pairs_view(peers@)[i] == (peers@[i].0@, peers@[i].1));
            }
            assert(peers_from_keys(self.entries(), ks, pairs_view(peers@)));
        }
        Ok(peers)
    }


    /// Assign the next global sequence to the message with id `msg_key`:
    /// write the forward entry, the reverse entry, and the advanced
    /// counter.
    fn increment_global_seq(&mut self, msg_key: &str) -> (r: Result<(), StoreError>)
        ensures
            r is Ok ==> {
                let m0 = old(self).entries();
                let c = spec_counter(m0);
                &&& counter_wf(m0)
                &&& c < u64::MAX
                &&& final(self).entries() == m0.insert(
                    spec_key_global_fwd((c + 1) as u64),
                    encode_utf8(msg_key@),
                ).insert(spec_key_global_rev(msg_key@), be8((c + 1) as u64)).insert(
                    spec_counter_key(),
                    be8((c + 1) as u64),
                )
                &&& counter_wf(final(self).entries())
                &&& spec_counter(final(self).entries()) == c + 1
            },
            r == Err::<(), StoreError>(StoreError::StorageCorruption) ==> (!counter_wf(
                old(self).entries(),
            ) || spec_counter(old(self).entries()) == u64::MAX) && final(self).entries() == old(
                self,
            ).entries(),
            r matches Err(e) ==> e == StoreError::StorageIo || e == StoreError::StorageCorruption,
    {
        let current = match self.get_global_order_seq() {
            Ok(c) => c,
            Err(e) => {
                return Err(e);
            },
        };
        if current == u64::MAX {
            return Err(StoreError::StorageCorruption);
        }
        let new_global_seq = current + 1;
        let fwd_key = key_global_fwd(new_global_seq);
        let fwd_val = msg_key.as_bytes_vec();
        if let Err(_) = db_insert(&mut self.db, &fwd_key, fwd_val) {
            return Err(StoreError::StorageIo);
        }
        let rev_key = key_global_rev(msg_key);
        let rev_val = u64_to_be_bytes(new_global_seq);
        if let Err(_) = db_insert(&mut self.db, &rev_key, rev_val) {
            return Err(StoreError::StorageIo);
        }
        let ck = counter_key();
        let ck_val = u64_to_be_bytes(new_global_seq);
        if let Err(_) = db_insert(&mut self.db, &ck, ck_val) {
            return Err(StoreError::StorageIo);
        }
        proof {
            lemma_key_kinds_disjoint(msg_key@, msg_key@, 0, new_global_seq);
            crate::bytes::lemma_be8_roundtrip(new_global_seq);
        }
        Ok(())
    }

    /// Assign global sequences to messages `1..=latest` of `user_id`'s
    /// feed, advancing the counter by `latest`.
    #[verifier::rlimit(100)]
    fn index_feed(&mut self, user_id: &str, latest: u64) -> (r: Result<(), StoreError>)
        requires
            counter_wf(old(self).entries()),
        ensures
            r is Ok ==> {
                &&& spec_counter(final(self).entries()) as int == spec_counter(
                    old(self).entries(),
                ) + latest
                &&& counter_wf(final(self).entries())
                &&& forall|g: u64|
                    spec_counter(old(self).entries()) < g <= spec_counter(old(self).entries())
                        + latest ==> final(self).entries().contains_key(
                        #[trigger] spec_key_global_fwd(g),
                    )
                &&& forall|g: u64|
                    old(self).entries().contains_key(#[trigger] spec_key_global_fwd(g))
                        ==> final(self).entries().contains_key(spec_key_global_fwd(g))
            },
            r is Ok || r == Err::<(), StoreError>(StoreError::StorageCorruption) || r == Err::<
                (),
                StoreError,
            >(StoreError::SerializationFailure) ==> classes_unchanged(
                old(self).entries(),
                final(self).entries(),
            ),
            r == Err::<(), StoreError>(StoreError::StorageCorruption) ==> (exists|s: u64|
                1 <= s <= latest && !old(self).entries().contains_key(
                    #[trigger] spec_key_msg_kvt(user_id@, s),
                )) || spec_counter(old(self).entries()) + latest > u64::MAX,
            r == Err::<(), StoreError>(StoreError::SerializationFailure) ==> exists|s: u64|
                1 <= s <= latest && old(self).entries().contains_key(
                    #[trigger] spec_key_msg_kvt(user_id@, s),
                ) && forall|x: MessageKvtV|
                    old(self).entries()[spec_key_msg_kvt(user_id@, s)] != enc_kvt(x),
            r matches Err(e) ==> e == StoreError::StorageIo || e == StoreError::StorageCorruption
                || e == StoreError::SerializationFailure,
    {
        let ghost c0 = spec_counter(old(self).entries());
        let mut s: u64 = 0;
        while s < latest
            invariant
                0 <= s <= latest,
                c0 == spec_counter(old(self).entries()),
                counter_wf(old(self).entries()),
                spec_counter(self.entries()) as int == c0 + s,
                counter_wf(self.entries()),
                classes_unchanged(old(self).entries(), self.entries()),
                forall|g: u64|
                    c0 < g <= c0 + s ==> self.entries().contains_key(
                        #[trigger] spec_key_global_fwd(g),
                    ),
                forall|g: u64|
                    old(self).entries().contains_key(#[trigger] spec_key_global_fwd(g))
                        ==> self.entries().contains_key(spec_key_global_fwd(g)),
            decreases latest - s,
        {
            let kvt = match self.get_msg_kvt(user_id, s + 1) {
                Err(e) => {
                    proof {
                        if e == StoreError::SerializationFailure {
                            let kk = spec_key_msg_kvt(user_id@, (s + 1) as u64);
                            assert(old(self).entries().contains_key(kk) && old(self).entries()[kk]
                                == self.entries()[kk]);
                        }
                    }
                    return Err(e);
                },
                Ok(None) => {
                    proof {
                        let kk = spec_key_msg_kvt(user_id@, (s + 1) as u64);
                        assert(!old(self).entries().contains_key(kk));
                    }
                    return Err(StoreError::StorageCorruption);
                },
                Ok(Some(k)) => k,
            };
            let ghost m_before = self.entries();
            match self.increment_global_seq(kvt.key.as_str()) {
                Err(e) => {
                    proof {
                        if e == StoreError::StorageCorruption {
                            assert(spec_counter(m_before) == u64::MAX);
                            assert(c0 + latest > u64::MAX);
                        }
                    }
                    return Err(e);
                },
                Ok(()) => (),
            }
            proof {
                let c1 = (spec_counter(m_before) + 1) as u64;
                lemma_key_kinds_disjoint(kvt@.key, kvt@.key, 0, c1);
                assert forall|k: Seq<u8>| k.len() > 0 && k[0] < 5 implies ((
                self.entries().contains_key(k) <==> #[trigger] m_before.contains_key(k)) && (
                m_before.contains_key(k) ==> self.entries()[k] == m_before[k])) by {
                    assert(spec_key_global_fwd(c1)[0] == 103 && spec_key_global_rev(kvt@.key)[0]
                        == 103 && spec_counter_key()[0] == 115);
                }
                assert forall|g: u64| c0 < g <= c0 + s + 1 implies self.entries().contains_key(
                    #[trigger] spec_key_global_fwd(g),
                ) by {
                    lemma_key_kinds_disjoint(kvt@.key, kvt@.key, 0, g);
                    if g == c1 {
                        assert(self.entries().contains_key(spec_key_global_fwd(c1)));
                    } else {
                        assert(m_before.contains_key(spec_key_global_fwd(g)));
                        if spec_key_global_fwd(g) == spec_key_global_fwd(c1) {
                            crate::keys::lemma_global_fwd_injective(g, c1);
                        }
                        assert(spec_key_global_fwd(g) != spec_key_global_rev(kvt@.key)
                            && spec_key_global_fwd(g) != spec_counter_key());
                    }
                }
                assert forall|g: u64|
                    old(self).entries().contains_key(
                        #[trigger] spec_key_global_fwd(g),
                    ) implies self.entries().contains_key(spec_key_global_fwd(g)) by {
                    lemma_key_kinds_disjoint(kvt@.key, kvt@.key, 0, g);
                    assert(m_before.contains_key(spec_key_global_fwd(g)));
                    if spec_key_global_fwd(g) == spec_key_global_fwd(c1) {
                    } else {
                        assert(spec_key_global_fwd(g) != spec_key_global_rev(kvt@.key)
                            && spec_key_global_fwd(g) != spec_counter_key());
                    }
                }
            }
            s = s + 1;
        }
        Ok(())
    }

    /// Build the global-order index: clear the counter, then walk every
    /// peer's feed in sequence order, assigning a global sequence to each
    /// message. Returns the number of messages indexed, which the counter
    /// then equals; it is the sum of the peers' latest sequences over the
    /// peer listing taken after the counter was cleared.
    #[verifier::rlimit(100)]
    fn build_global_order_index(&mut self) -> (r: Result<u64, StoreError>)
        ensures
            r matches Ok(total) ==> {
                let m1 = old(self).entries().remove(spec_counter_key());
                &&& counter_wf(final(self).entries())
                &&& spec_counter(final(self).entries()) == total
                &&& exists|ks: Seq<Seq<u8>>, v: Seq<(Seq<char>, u64)>|
                    scan_keys(m1, PREFIX_PEER, ks) && covers_class(m1, PREFIX_PEER, ks)
                        && #[trigger] peers_from_keys(m1, ks, v) && total == sum_latest(v)
                &&& forall|g: u64|
                    1 <= g <= total ==> final(self).entries().contains_key(
                        #[trigger] spec_key_global_fwd(g),
                    )
            },
            r == Err::<u64, StoreError>(StoreError::StorageCorruption) ==> {
                let m1 = old(self).entries().remove(spec_counter_key());
                ||| exists|k: Seq<u8>|
                    #[trigger] m1.contains_key(k) && k.len() > 0 && k[0] == PREFIX_PEER
                        && !latest_wf(m1, lossy_utf8(k.skip(1)))
                ||| exists|a: Seq<char>, s: u64|
                    1 <= s <= latest_or_zero(m1, a) && !m1.contains_key(
                        #[trigger] spec_key_msg_kvt(a, s),
                    )
                ||| exists|ks: Seq<Seq<u8>>, v: Seq<(Seq<char>, u64)>|
                    scan_keys(m1, PREFIX_PEER, ks) && covers_class(m1, PREFIX_PEER, ks)
                        && #[trigger] peers_from_keys(m1, ks, v) && sum_latest(v) > u64::MAX
            },
            r == Err::<u64, StoreError>(StoreError::SerializationFailure) ==> {
                let m1 = old(self).entries().remove(spec_counter_key());
                exists|a: Seq<char>, s: u64|
                    m1.contains_key(#[trigger] spec_key_msg_kvt(a, s)) && forall|x: MessageKvtV|
                        m1[spec_key_msg_kvt(a, s)] != enc_kvt(x)
            },
            r matches Err(e) ==> e == StoreError::StorageIo || e == StoreError::StorageCorruption
                || e == StoreError::SerializationFailure,
    {
        let ck = counter_key();
        if let Err(_) = db_remove(&mut self.db, &ck) {
            return Err(StoreError::StorageIo);
        }
        let ghost m_cleared = self.entries();
        let peers = match self.get_peers() {
            Ok(v) => v,
            Err(e) => {
                return Err(e);
            },
        };
        let ghost pks = choose|ks: Seq<Seq<u8>>|
            scan_keys(m_cleared, PREFIX_PEER, ks) && covers_class(m_cleared, PREFIX_PEER, ks)
                && peers_from_keys(m_cleared, ks, pairs_view(peers@));
        let mut total: u64 = 0;
        let mut j: usize = 0;
        proof {
            assert(spec_counter(self.entries()) == 0);
        }
        while j < peers.len()
            invariant
                0 <= j <= peers@.len(),
                counter_wf(self.entries()),
                spec_counter(self.entries()) == total,
                total as int == sum_latest(pairs_view(peers@).take(j as int)),
                m_cleared == old(self).entries().remove(spec_counter_key()),
                classes_unchanged(m_cleared, self.entries()),
                scan_keys(m_cleared, PREFIX_PEER, pks) && covers_class(
                    m_cleared,
                    PREFIX_PEER,
                    pks,
                ) && peers_from_keys(m_cleared, pks, pairs_view(peers@)),
                forall|g: u64|
                    1 <= g <= total ==> self.entries().contains_key(
                        #[trigger] spec_key_global_fwd(g),
                    ),
            decreases peers@.len() - j,
        {
            let (pub_key, latest_seq) = (&peers[j].0, peers[j].1);
            let ghost m_before = self.entries();
            match self.index_feed(pub_key.as_str(), latest_seq) {
                Err(e) => {
                    proof {
                        assert(peer_elem(m_cleared, pks[j as int], pairs_view(peers@)[j as int]));
                        assert(pub_key@ == pairs_view(peers@)[j as int].0);
                        assert(latest_seq == latest_or_zero(m_cleared, pub_key@));
                        if e == StoreError::StorageCorruption {
                            if exists|s: u64|
                                1 <= s <= latest_seq && !m_before.contains_key(
                                    #[trigger] spec_key_msg_kvt(pub_key@, s),
                                ) {
                                let s = choose|s: u64|
                                    1 <= s <= latest_seq && !m_before.contains_key(
                                        #[trigger] spec_key_msg_kvt(pub_key@, s),
                                    );
                                assert(spec_key_msg_kvt(pub_key@, s)[0] == 1) by {
                                    lemma_key_kinds_disjoint(pub_key@, pub_key@, s, s);
                                }
                                assert(!m_cleared.contains_key(spec_key_msg_kvt(pub_key@, s)));
                            } else {
                                assert(spec_counter(m_before) + latest_seq > u64::MAX);
                                lemma_sum_latest_split(pairs_view(peers@), j as int);
                                lemma_sum_latest_nonneg(pairs_view(peers@).skip(j + 1));
                                assert(pairs_view(peers@).skip(j as int)[0] == pairs_view(
                                    peers@,
                                )[j as int]);
                                assert(pairs_view(peers@).skip(j as int).skip(1) =~= pairs_view(
                                    peers@,
                                ).skip(j + 1));
                                assert(sum_latest(pairs_view(peers@).skip(j as int)) == latest_seq
                                    + sum_latest(pairs_view(peers@).skip(j + 1)));
                                assert(sum_latest(pairs_view(peers@)) > u64::MAX);
                            }
                        }
                        if e == StoreError::SerializationFailure {
                            let s = choose|s: u64|
                                1 <= s <= latest_seq && m_before.contains_key(
                                    #[trigger] spec_key_msg_kvt(pub_key@, s),
                                ) && forall|x: MessageKvtV|
                                    m_before[spec_key_msg_kvt(pub_key@, s)] != enc_kvt(x);
                            assert(spec_key_msg_kvt(pub_key@, s)[0] == 1) by {
                                lemma_key_kinds_disjoint(pub_key@, pub_key@, s, s);
                            }
                            assert(m_cleared.contains_key(spec_key_msg_kvt(pub_key@, s))
                                && m_cleared[spec_key_msg_kvt(pub_key@, s)] == m_before[
                                spec_key_msg_kvt(pub_key@, s)]);
                        }
                    }
                    return Err(e);
                },
                Ok(()) => (),
            }
            proof {
                lemma_sum_latest_snoc(
                    pairs_view(peers@).take(j as int),
                    pairs_view(peers@)[j as int],
                );
                assert(pairs_view(peers@).take(j + 1) =~= pairs_view(peers@).take(
                    j as int,
                ).push(pairs_view(peers@)[j as int]));
                assert forall|k: Seq<u8>| k.len() > 0 && k[0] < 5 implies ((
                self.entries().contains_key(k) <==> #[trigger] m_cleared.contains_key(k)) && (
                m_cleared.contains_key(k) ==> self.entries()[k] == m_cleared[k])) by {
                    assert(m_before.contains_key(k) <==> m_cleared.contains_key(k));
                }
                assert forall|g: u64| 1 <= g <= total + latest_seq implies self
                    .entries().contains_key(#[trigger] spec_key_global_fwd(g)) by {
                    if g <= total {
                        assert(m_before.contains_key(spec_key_global_fwd(g)));
                    }
                }
            }
            total = total + latest_seq;
            j = j + 1;
        }
        proof {
            assert(pairs_view(peers@).take(peers@.len() as int) =~= pairs_view(peers@));
            assert(scan_keys(m_cleared, PREFIX_PEER, pks) && covers_class(
                m_cleared,
                PREFIX_PEER,
                pks,
            ) && peers_from_keys(m_cleared, pks, pairs_view(peers@)) && total as int == sum_latest(
                pairs_view(peers@),
            ));
            assert(m_cleared == old(self).entries().remove(spec_counter_key()));
            assert(exists|ks: Seq<Seq<u8>>, v: Seq<(Seq<char>, u64)>|
                scan_keys(old(self).entries().remove(spec_counter_key()), PREFIX_PEER, ks)
                    && covers_class(
                    old(self).entries().remove(spec_counter_key()),
                    PREFIX_PEER,
                    ks,
                ) && #[trigger] peers_from_keys(
                    old(self).entries().remove(spec_counter_key()),
                    ks,
                    v,
                ) && total == sum_latest(v));
        }
        Ok(total)
    }

    /// Append a message value to its author's feed. The declared sequence
    /// must be exactly one past the author's latest; otherwise the append
    /// is rejected and nothing changes. On success the returned sequence
    /// is that next sequence, and the store gains exactly the appended
    /// records: reference, global-order entries, stored record,
    /// latest-sequence and peer entries.
    pub fn append_feed(&mut self, msg_val: MessageValue) -> (r: Result<u64, StoreError>)
        ensures
            r matches Ok(n) ==> {
                let m0 = old(self).entries();
                &&& latest_wf(m0, msg_val@.author)
                &&& counter_wf(m0)
                &&& latest_or_zero(m0, msg_val@.author) < u64::MAX
                &&& spec_counter(m0) < u64::MAX
                &&& n == latest_or_zero(m0, msg_val@.author) + 1
                &&& msg_val@.sequence == n
                &&& final(self).entries() == append_map(m0, msg_val@)
            },
            r == Err::<u64, StoreError>(StoreError::InvalidSequence) ==> {
                let m0 = old(self).entries();
                &&& final(self).entries() == m0
                &&& latest_wf(m0, msg_val@.author)
                &&& msg_val@.sequence != latest_or_zero(m0, msg_val@.author) + 1
            },
            msg_val@.sequence != latest_or_zero(old(self).entries(), msg_val@.author) + 1
                ==> final(self).entries() == old(self).entries(),
            r == Err::<u64, StoreError>(StoreError::StorageCorruption) ==> {
                let m0 = old(self).entries();
                ||| !latest_wf(m0, msg_val@.author)
                ||| !counter_wf(m0)
                ||| spec_counter(m0) == u64::MAX
            },
            r matches Err(e) ==> e == StoreError::InvalidSequence || e == StoreError::StorageIo
                || e == StoreError::StorageCorruption,
    {
        let ghost m0 = self.entries();
        let latest = match self.get_latest_seq(msg_val.author.as_str()) {
            Ok(o) => o,
            Err(e) => {
                return Err(e);
            },
        };
        let expected = match latest {
            Some(l) => {
                if l == u64::MAX {
                    return Err(StoreError::InvalidSequence);
                }
                l + 1
            },
            None => 1,
        };
        if msg_val.sequence != expected {
            return Err(StoreError::InvalidSequence);
        }
        let author = msg_val.author.clone();
        let msg_ref = encode_ref(author.as_str(), expected);
        let rkey = key_msg_val(msg_val.id.as_str());
        if let Err(_) = db_insert(&mut self.db, &rkey, msg_ref) {
            return Err(StoreError::StorageIo);
        }
        proof {
            lemma_key_kinds_disjoint(msg_val@.id, msg_val@.author, 0, 0);
        }
        match self.increment_global_seq(msg_val.id.as_str()) {
            Err(e) => {
                proof {
                    if e == StoreError::StorageCorruption {
                        assert(!counter_wf(m0) || spec_counter(m0) == u64::MAX);
                    }
                }
                return Err(e);
            },
            Ok(()) => (),
        }
        let mv_copy = MessageValue {
            author: msg_val.author.clone(),
            sequence: msg_val.sequence,
            previous: match &msg_val.previous {
                None => None,
                Some(p) => Some(p.clone()),
            },
            content: msg_val.content.clone(),
            id: msg_val.id.clone(),
        };
        let msg_kvt = MessageKvt { key: msg_val.id.clone(), value: mv_copy, rts: None };
        proof {
            assert(msg_kvt@ == append_kvt(msg_val@));
        }
        let kvt_bytes = encode_kvt(&msg_kvt);
        let kk = key_msg_kvt(author.as_str(), expected);
        if let Err(_) = db_insert(&mut self.db, &kk, kvt_bytes) {
            return Err(StoreError::StorageIo);
        }
        let lk = key_latest_seq(author.as_str());
        let lv = u64_to_be_bytes(expected);
        if let Err(_) = db_insert(&mut self.db, &lk, lv) {
            return Err(StoreError::StorageIo);
        }
        match self.set_peer(author.as_str(), expected) {
            Err(e) => {
                return Err(e);
            },
            Ok(()) => (),
        }
        if let Err(_) = db_flush(&mut self.db) {
            return Err(StoreError::StorageIo);
        }
        proof {
            assert(self.entries() == append_map(m0, msg_val@));
        }
        let _accepted = send_store_event(&self.ch_broker, StoreKvEvent((author, expected)));
        Ok(expected)
    }
}

/// Copy all bytes but the first: the suffix of a class key is the id it
/// encodes.
fn drop_first(v: &Vec<u8>) -> (r: Vec<u8>)
    requires
        v@.len() > 0,
    ensures
        r@ == v@.skip(1),
{
    let mut out: Vec<u8> = Vec::new();
    let mut i: usize = 1;
    while i < v.len()
        invariant
            1 <= i <= v@.len(),
            out@ == v@.subrange(1, i as int),
        decreases v@.len() - i,
    {
        out.push(v[i]);
        proof {
            assert(out@ =~= v@.subrange(1, i + 1 as int));
        }
        i = i + 1;
    }
    proof {
        assert(out@ =~= v@.skip(1));
    }
    out
}

} // verus!
