//! The storage codec: every record the store persists is a concatenation of
//! length-prefixed UTF-8 texts, big-endian integers, and one-byte tags.
//! Each decoder is proved sound (it returns only values that encode to its
//! input) and complete (on an encoded value it returns exactly that value).

use vstd::prelude::*;
use vstd::utf8::{encode_utf8, encode_utf8_valid_utf8};

use crate::bytes::{be8, be_val, buffer_to_u64, lemma_be8_injective, u64_to_be_bytes};
use crate::keys::lemma_utf8_injective;
use crate::trusted::string_from_utf8;
use crate::types::{BlobStatus, BlobStatusV, MessageKvt, MessageKvtV, MessageValue, MessageValueV,
    PubKeyAndSeqNum, PubKeyAndSeqNumV, clear_rts};

verus! {

/// A length-prefixed text field: eight big-endian bytes of byte length,
/// then the UTF-8 bytes.
pub open spec fn str_field(s: Seq<char>) -> Seq<u8> {
    be8(encode_utf8(s).len() as u64) + encode_utf8(s)
}

/// An optional text field: a one-byte tag, then the field if present.
pub open spec fn opt_str_field(o: Option<Seq<char>>) -> Seq<u8> {
    match o {
        None => seq![0u8],
        Some(s) => seq![1u8] + str_field(s),
    }
}

/// A boolean field: one byte, 0 or 1.
pub open spec fn bool_field(v: bool) -> Seq<u8> {
    if v {
        seq![1u8]
    } else {
        seq![0u8]
    }
}

/// The encoding of a feed reference: author, then sequence.
pub open spec fn enc_ref(r: PubKeyAndSeqNumV) -> Seq<u8> {
    str_field(r.pub_key) + be8(r.seq_num)
}

/// The encoding of a message value: author, sequence, previous reference,
/// content, canonical id.
pub open spec fn enc_mv(m: MessageValueV) -> Seq<u8> {
    str_field(m.author) + be8(m.sequence) + opt_str_field(m.previous) + str_field(m.content)
        + str_field(m.id)
}

/// The encoding of a stored message record: its key, then the message
/// value. The received timestamp is never persisted.
pub open spec fn enc_kvt(k: MessageKvtV) -> Seq<u8> {
    str_field(k.key) + enc_mv(k.value)
}

/// The encoding of a list of interested users, one text field each.
pub open spec fn enc_user_list(users: Seq<Seq<char>>) -> Seq<u8>
    decreases users.len(),
{
    if users.len() == 0 {
        Seq::empty()
    } else {
        str_field(users[0]) + enc_user_list(users.skip(1))
    }
}

/// The encoding of a blob status: the retrieved flag, the user count, then
/// the users.
pub open spec fn enc_blob(b: BlobStatusV) -> Seq<u8> {
    bool_field(b.retrieved) + be8(b.users.len() as u64) + enc_user_list(b.users)
}

/// Reading eight big-endian bytes of `n` back gives `n`'s bytes.
proof fn lemma_be_val_roundtrip(s: Seq<u8>)
    requires
        s.len() == 8,
    ensures
        be8(be_val(s)) == s,
{
    let b0 = s[0];
    let b1 = s[1];
    let b2 = s[2];
    let b3 = s[3];
    let b4 = s[4];
    let b5 = s[5];
    let b6 = s[6];
    let b7 = s[7];
    let n = be_val(s);
    assert(n == (((b0 as u64) << 56) | ((b1 as u64) << 48) | ((b2 as u64) << 40) | ((b3
        as u64) << 32) | ((b4 as u64) << 24) | ((b5 as u64) << 16) | ((b6 as u64) << 8) | (b7
        as u64)) as u64);
    assert({
        let m = (((b0 as u64) << 56) | ((b1 as u64) << 48) | ((b2 as u64) << 40) | ((b3
            as u64) << 32) | ((b4 as u64) << 24) | ((b5 as u64) << 16) | ((b6 as u64) << 8) | (b7
            as u64)) as u64;
        ((m >> 56) & 0xff) as u8 == b0 && ((m >> 48) & 0xff) as u8 == b1 && ((m >> 40) & 0xff)
            as u8 == b2 && ((m >> 32) & 0xff) as u8 == b3 && ((m >> 24) & 0xff) as u8 == b4 && ((m
            >> 16) & 0xff) as u8 == b5 && ((m >> 8) & 0xff) as u8 == b6 && (m & 0xff) as u8 == b7
    }) by (bit_vector);
    assert(be8(n) =~= s);
}

/// Copy `b[from..to]` into a fresh vector.
fn copy_range(b: &[u8], from: usize, to: usize) -> (r: Vec<u8>)
    requires
        from <= to <= b@.len(),
    ensures
        r@ == b@.subrange(from as int, to as int),
{
    let mut out: Vec<u8> = Vec::new();
    let mut i: usize = from;
    while i < to
        invariant
            from <= i <= to <= b@.len(),
            out@ == b@.subrange(from as int, i as int),
        decreases to - i,
    {
        out.push(b[i]);
        proof {
            assert(out@ =~= b@.subrange(from as int, i + 1 as int));
        }
        i = i + 1;
    }
    out
}

/// Read eight big-endian bytes at `pos`.
fn read_u64(b: &[u8], pos: usize) -> (r: Option<(u64, usize)>)
    ensures
        r matches Some(x) ==> x.1 == pos + 8 && pos + 8 <= b@.len() && b@.subrange(
            pos as int,
            pos + 8,
        ) == be8(x.0),
        pos + 8 <= b@.len() ==> r is Some,
{
    if b.len() < 8 || pos > b.len() - 8 {
        return None;
    }
    let chunk = copy_range(b, pos, pos + 8);
    let n = buffer_to_u64(chunk.as_slice());
    proof {
        lemma_be_val_roundtrip(b@.subrange(pos as int, pos + 8));
    }
    Some((n, pos + 8))
}

/// Append the length-prefixed UTF-8 field of `s`.
fn put_str(out: &mut Vec<u8>, s: &str)
    ensures
        final(out)@ == old(out)@ + str_field(s@),
{
    let mut body = s.as_bytes_vec();
    let n: usize = body.len();
    let mut len_bytes = u64_to_be_bytes(n as u64);
    out.append(&mut len_bytes);
    out.append(&mut body);
    proof {
        assert(out@ =~= old(out)@ + str_field(s@));
    }
}

/// Append one tag byte.
fn put_tag(out: &mut Vec<u8>, tag: u8)
    ensures
        final(out)@ == old(out)@ + seq![tag],
{
    out.push(tag);
    proof {
        assert(out@ =~= old(out)@ + seq![tag]);
    }
}

/// Append eight big-endian bytes of `n`.
fn put_u64(out: &mut Vec<u8>, n: u64)
    ensures
        final(out)@ == old(out)@ + be8(n),
{
    let mut bytes = u64_to_be_bytes(n);
    out.append(&mut bytes);
    proof {
        assert(out@ =~= old(out)@ + be8(n));
    }
}

/// Encode a feed reference.
pub fn encode_ref(pub_key: &str, seq_num: u64) -> (r: Vec<u8>)
    ensures
        r@ == enc_ref(PubKeyAndSeqNumV { pub_key: pub_key@, seq_num }),
{
    let mut out: Vec<u8> = Vec::new();
    put_str(&mut out, pub_key);
    put_u64(&mut out, seq_num);
    proof {
        assert(out@ =~= enc_ref(PubKeyAndSeqNumV { pub_key: pub_key@, seq_num }));
    }
    out
}

/// Encode a message value.
pub fn encode_mv(m: &MessageValue) -> (r: Vec<u8>)
    ensures
        r@ == enc_mv(m@),
{
    let mut out: Vec<u8> = Vec::new();
    put_str(&mut out, m.author.as_str());
    put_u64(&mut out, m.sequence);
    match &m.previous {
        None => put_tag(&mut out, 0),
        Some(p) => {
            put_tag(&mut out, 1);
            put_str(&mut out, p.as_str());
        },
    }
    put_str(&mut out, m.content.as_str());
    put_str(&mut out, m.id.as_str());
    proof {
        assert(out@ =~= enc_mv(m@));
    }
    out
}

/// Encode a stored message record. The received timestamp is dropped: the
/// record is persisted with it absent.
pub fn encode_kvt(k: &MessageKvt) -> (r: Vec<u8>)
    ensures
        r@ == enc_kvt(k@),
        r@ == enc_kvt(clear_rts(k@)),
{
    let mut out: Vec<u8> = Vec::new();
    put_str(&mut out, k.key.as_str());
    let mut mv = encode_mv(&k.value);
    out.append(&mut mv);
    proof {
        assert(out@ =~= enc_kvt(k@));
        assert(out@ =~= enc_kvt(clear_rts(k@)));
    }
    out
}

/// Appending one user extends the encoded list by one field.
proof fn lemma_enc_user_list_snoc(users: Seq<Seq<char>>, x: Seq<char>)
    ensures
        enc_user_list(users.push(x)) == enc_user_list(users) + str_field(x),
    decreases users.len(),
{
    if users.len() == 0 {
        reveal_with_fuel(enc_user_list, 3);
        assert(users.push(x)[0] == x);
        assert(users.push(x).skip(1) =~= Seq::<Seq<char>>::empty());
        assert(enc_user_list(users.push(x)) == str_field(x) + enc_user_list(
            users.push(x).skip(1),
        ));
        assert(enc_user_list(Seq::<Seq<char>>::empty()) == Seq::<u8>::empty());
        assert(enc_user_list(users.push(x)) =~= enc_user_list(users) + str_field(x));
    } else {
        assert(users.push(x).skip(1) =~= users.skip(1).push(x));
        lemma_enc_user_list_snoc(users.skip(1), x);
        assert(users.push(x)[0] == users[0]);
        assert(enc_user_list(users.push(x)) == str_field(users[0]) + (enc_user_list(users.skip(1))
            + str_field(x)));
        assert(enc_user_list(users) == str_field(users[0]) + enc_user_list(users.skip(1)));
        assert(str_field(users[0]) + (enc_user_list(users.skip(1)) + str_field(x)) =~= (str_field(
            users[0],
        ) + enc_user_list(users.skip(1))) + str_field(x));
    }
}

/// Encode a blob status.
pub fn encode_blob(b: &BlobStatus) -> (r: Vec<u8>)
    ensures
        r@ == enc_blob(b@),
{
    let mut out: Vec<u8> = Vec::new();
    if b.retrieved {
        put_tag(&mut out, 1);
    } else {
        put_tag(&mut out, 0);
    }
    let count: usize = b.users.len();
    put_u64(&mut out, count as u64);
    let ghost header = out@;
    let mut i: usize = 0;
    while i < count
        invariant
            0 <= i <= count,
            count == b.users@.len(),
            out@ == header + enc_user_list(b@.users.take(i as int)),
        decreases count - i,
    {
        put_str(&mut out, b.users[i].as_str());
        proof {
            lemma_enc_user_list_snoc(b@.users.take(i as int), b@.users[i as int]);
            assert(b@.users.take(i + 1 as int) =~= b@.users.take(i as int).push(
                b@.users[i as int],
            ));
        }
        i = i + 1;
    }
    proof {
        assert(b@.users.take(count as int) =~= b@.users);
        assert(out@ =~= enc_blob(b@));
    }
    out
}

/// The view of an optional text value.
pub open spec fn opt_view(o: Option<String>) -> Option<Seq<char>> {
    match o {
        None => None,
        Some(s) => Some(s@),
    }
}

/// The view of a list of texts.
pub open spec fn strs_view(v: Seq<String>) -> Seq<Seq<char>> {
    Seq::new(v.len(), |i: int| v[i]@)
}

/// Splitting a prefix of `b.skip(pos)` into a head field and a rest: the
/// head stands at `pos` and the rest right after it.
proof fn lemma_prefix_parts(b: Seq<u8>, pos: int, f: Seq<u8>, rest: Seq<u8>)
    requires
        0 <= pos <= b.len(),
        (f + rest).is_prefix_of(b.skip(pos)),
    ensures
        f.is_prefix_of(b.skip(pos)),
        pos + f.len() <= b.len(),
        rest.is_prefix_of(b.skip(pos + f.len())),
        f == b.subrange(pos, pos + f.len()),
{
    assert((f + rest).len() <= b.len() - pos);
    assert forall|i: int| 0 <= i < f.len() implies b.skip(pos)[i] == f[i] by {
        assert((f + rest)[i] == f[i]);
    }
    assert(f =~= b.skip(pos).subrange(0, f.len() as int));
    assert(f =~= b.subrange(pos, pos + f.len()));
    assert forall|i: int| 0 <= i < rest.len() implies b.skip(pos + f.len())[i] == rest[i] by {
        assert((f + rest)[f.len() + i] == rest[i]);
        assert(b.skip(pos)[f.len() + i] == b[pos + f.len() + i]);
    }
    assert(rest =~= b.skip(pos + f.len()).subrange(0, rest.len() as int));
}

/// What a text field standing at `pos` pins down: its length bytes, its
/// UTF-8 bytes, and that the byte length fits 64 bits.
proof fn lemma_str_field_at(b: Seq<u8>, pos: int, t: Seq<char>)
    requires
        0 <= pos <= b.len(),
        b.len() <= usize::MAX,
        str_field(t).is_prefix_of(b.skip(pos)),
    ensures
        pos + 8 + encode_utf8(t).len() <= b.len(),
        encode_utf8(t).len() < 0x1_0000_0000_0000_0000,
        encode_utf8(t).len() as u64 as nat == encode_utf8(t).len(),
        b.subrange(pos, pos + 8) == be8(encode_utf8(t).len() as u64),
        b.subrange(pos + 8, pos + 8 + encode_utf8(t).len()) == encode_utf8(t),
{
    let e = encode_utf8(t);
    assert(str_field(t) == be8(e.len() as u64) + e);
    lemma_prefix_parts(b, pos, be8(e.len() as u64), e);
    assert(e.is_prefix_of(b.skip(pos + 8)));
    assert(e =~= b.subrange(pos + 8, pos + 8 + e.len()));
    assert(usize::MAX < 0x1_0000_0000_0000_0000);
}

/// Read one byte at `pos`.
fn read_byte(b: &[u8], pos: usize) -> (r: Option<(u8, usize)>)
    ensures
        r matches Some(x) ==> pos + 1 <= b@.len() && x.1 == pos + 1 && b@.subrange(
            pos as int,
            pos + 1,
        ) == seq![x.0],
        pos + 1 <= b@.len() ==> r is Some,
{
    if pos >= b.len() {
        return None;
    }
    let v = b[pos];
    proof {
        assert(b@.subrange(pos as int, pos + 1) =~= seq![v]);
    }
    Some((v, pos + 1))
}

/// Read a length-prefixed text field at `pos`.
fn read_str(b: &[u8], pos: usize) -> (r: Option<(String, usize)>)
    ensures
        r matches Some(x) ==> pos + str_field(x.0@).len() == x.1 && x.1 <= b@.len()
            && b@.subrange(pos as int, x.1 as int) == str_field(x.0@),
        forall|t: Seq<char>|
            pos <= b@.len() && (#[trigger] str_field(t)).is_prefix_of(b@.skip(pos as int)) ==> (
            r matches Some(x) && x.0@ == t && x.1 == pos + str_field(t).len()),
{
    let blen = b.len();
    let r1 = read_u64(b, pos);
    let (n, p1) = match r1 {
        None => {
            proof {
                assert forall|t: Seq<char>|
                    pos <= b@.len() && (#[trigger] str_field(t)).is_prefix_of(
                        b@.skip(pos as int),
                    ) implies false by {
                    lemma_str_field_at(b@, pos as int, t);
                }
            }
            return None;
        },
        Some(x) => x,
    };
    if n > (blen - p1) as u64 {
        proof {
            assert forall|t: Seq<char>|
                pos <= b@.len() && (#[trigger] str_field(t)).is_prefix_of(
                    b@.skip(pos as int),
                ) implies false by {
                lemma_str_field_at(b@, pos as int, t);
                lemma_be8_injective(n, encode_utf8(t).len() as u64);
            }
        }
        return None;
    }
    let len = n as usize;
    let body = copy_range(b, p1, p1 + len);
    match string_from_utf8(body) {
        None => {
            proof {
                assert forall|t: Seq<char>|
                    pos <= b@.len() && (#[trigger] str_field(t)).is_prefix_of(
                        b@.skip(pos as int),
                    ) implies false by {
                    lemma_str_field_at(b@, pos as int, t);
                    lemma_be8_injective(n, encode_utf8(t).len() as u64);
                    assert(b@.subrange(p1 as int, p1 + len) == encode_utf8(t));
                    encode_utf8_valid_utf8(t);
                }
            }
            None
        },
        Some(s) => {
            proof {
                assert(b@.subrange(p1 as int, p1 + len) == encode_utf8(s@));
                assert(b@.subrange(pos as int, p1 + len) =~= str_field(s@));
                assert forall|t: Seq<char>|
                    pos <= b@.len() && (#[trigger] str_field(t)).is_prefix_of(
                        b@.skip(pos as int),
                    ) implies s@ == t && p1 + len == pos + str_field(t).len() by {
                    lemma_str_field_at(b@, pos as int, t);
                    lemma_be8_injective(n, encode_utf8(t).len() as u64);
                    assert(b@.subrange(p1 as int, p1 + len) == encode_utf8(t));
                    lemma_utf8_injective(s@, t);
                }
            }
            Some((s, p1 + len))
        },
    }
}

/// Read an optional text field at `pos`.
fn read_opt_str(b: &[u8], pos: usize) -> (r: Option<(Option<String>, usize)>)
    ensures
        r matches Some(x) ==> pos + opt_str_field(opt_view(x.0)).len() == x.1 && x.1 <= b@.len()
            && b@.subrange(pos as int, x.1 as int) == opt_str_field(opt_view(x.0)),
        forall|t: Option<Seq<char>>|
            pos <= b@.len() && (#[trigger] opt_str_field(t)).is_prefix_of(b@.skip(pos as int))
                ==> (r matches Some(x) && opt_view(x.0) == t && x.1 == pos + opt_str_field(
                t,
            ).len()),
{
    let r1 = read_byte(b, pos);
    let (tag, p1) = match r1 {
        None => {
            proof {
                assert forall|t: Option<Seq<char>>|
                    pos <= b@.len() && (#[trigger] opt_str_field(t)).is_prefix_of(
                        b@.skip(pos as int),
                    ) implies false by {
                    assert(opt_str_field(t).len() >= 1);
                    assert(opt_str_field(t)[0] == b@.skip(pos as int)[0]);
                    assert(pos + 1 <= b@.len());
                }
            }
            return None;
        },
        Some(x) => x,
    };
    proof {
        assert(b@.subrange(pos as int, pos + 1)[0] == b@[pos as int]);
        assert(b@[pos as int] == tag);
    }
    if tag == 0 {
        proof {
            assert forall|t: Option<Seq<char>>|
                pos <= b@.len() && (#[trigger] opt_str_field(t)).is_prefix_of(
                    b@.skip(pos as int),
                ) implies t is None by {
                match t {
                    Some(v) => {
                        assert(opt_str_field(t)[0] == 1);
                        assert(b@.skip(pos as int)[0] == b@[pos as int]);
                    },
                    None => {},
                }
            }
            assert(b@.subrange(pos as int, p1 as int) =~= opt_str_field(None));
        }
        Some((None, p1))
    } else if tag == 1 {
        match read_str(b, p1) {
            None => {
                proof {
                    assert forall|t: Option<Seq<char>>|
                        pos <= b@.len() && (#[trigger] opt_str_field(t)).is_prefix_of(
                            b@.skip(pos as int),
                        ) implies false by {
                        match t {
                            Some(v) => {
                                lemma_prefix_parts(b@, pos as int, seq![1u8], str_field(v));
                                assert(str_field(v).is_prefix_of(b@.skip(p1 as int)));
                            },
                            None => {
                                assert(opt_str_field(t)[0] == 0);
                                assert(b@.skip(pos as int)[0] == b@[pos as int]);
                            },
                        }
                    }
                }
                None
            },
            Some((s, p2)) => {
                proof {
                    assert(b@.subrange(pos as int, p2 as int) =~= opt_str_field(
                        opt_view(Some(s)),
                    ));
                    assert forall|t: Option<Seq<char>>|
                        pos <= b@.len() && (#[trigger] opt_str_field(t)).is_prefix_of(
                            b@.skip(pos as int),
                        ) implies opt_view(Some(s)) == t && p2 == pos + opt_str_field(t).len() by {
                        match t {
                            Some(v) => {
                                lemma_prefix_parts(b@, pos as int, seq![1u8], str_field(v));
                                assert(str_field(v).is_prefix_of(b@.skip(p1 as int)));
                            },
                            None => {
                                assert(opt_str_field(t)[0] == 0);
                                assert(b@.skip(pos as int)[0] == b@[pos as int]);
                            },
                        }
                    }
                }
                Some((Some(s), p2))
            },
        }
    } else {
        proof {
            assert forall|t: Option<Seq<char>>|
                pos <= b@.len() && (#[trigger] opt_str_field(t)).is_prefix_of(
                    b@.skip(pos as int),
                ) implies false by {
                assert(b@.skip(pos as int)[0] == b@[pos as int]);
                match t {
                    Some(v) => {
                        assert(opt_str_field(t)[0] == 1);
                    },
                    None => {
                        assert(opt_str_field(t)[0] == 0);
                    },
                }
            }
        }
        None
    }
}

/// The fields of an encoded message value standing at `pos`: each field's
/// place and the record's total length.
proof fn lemma_enc_mv_parts(b: Seq<u8>, pos: int, x: MessageValueV)
    requires
        0 <= pos <= b.len(),
        enc_mv(x).is_prefix_of(b.skip(pos)),
    ensures
        ({
            let q1 = pos + str_field(x.author).len();
            let q2 = q1 + 8;
            let q3 = q2 + opt_str_field(x.previous).len();
            let q4 = q3 + str_field(x.content).len();
            let q5 = q4 + str_field(x.id).len();
            &&& str_field(x.author).is_prefix_of(b.skip(pos))
            &&& b.subrange(q1, q2) == be8(x.sequence)
            &&& opt_str_field(x.previous).is_prefix_of(b.skip(q2))
            &&& str_field(x.content).is_prefix_of(b.skip(q3))
            &&& str_field(x.id).is_prefix_of(b.skip(q4))
            &&& q5 <= b.len()
            &&& enc_mv(x).len() == q5 - pos
        }),
{
    let f1 = str_field(x.author);
    let f2 = be8(x.sequence);
    let f3 = opt_str_field(x.previous);
    let f4 = str_field(x.content);
    let f5 = str_field(x.id);
    assert(enc_mv(x) =~= f1 + (f2 + (f3 + (f4 + f5))));
    lemma_prefix_parts(b, pos, f1, f2 + (f3 + (f4 + f5)));
    let q1 = pos + f1.len();
    lemma_prefix_parts(b, q1, f2, f3 + (f4 + f5));
    let q2 = q1 + 8;
    lemma_prefix_parts(b, q2, f3, f4 + f5);
    let q3 = q2 + f3.len();
    lemma_prefix_parts(b, q3, f4, f5);
    let q4 = q3 + f4.len();
    lemma_prefix_parts(b, q4, f5, Seq::<u8>::empty());
    assert(f5 + Seq::<u8>::empty() =~= f5);
    assert(f5.is_prefix_of(b.skip(q4)));
}

/// Read a message value at `pos`.
#[verifier::rlimit(100)]
fn read_mv(b: &[u8], pos: usize) -> (r: Option<(MessageValue, usize)>)
    ensures
        r matches Some(x) ==> pos + enc_mv(x.0@).len() == x.1 && x.1 <= b@.len() && b@.subrange(
            pos as int,
            x.1 as int,
        ) == enc_mv(x.0@),
        forall|x: MessageValueV|
            pos <= b@.len() && (#[trigger] enc_mv(x)).is_prefix_of(b@.skip(pos as int)) ==> (
            r matches Some(m) && m.0@ == x && m.1 == pos + enc_mv(x).len()),
{
    let (author, p1) = match read_str(b, pos) {
        None => {
            proof {
                assert forall|x: MessageValueV|
                    pos <= b@.len() && (#[trigger] enc_mv(x)).is_prefix_of(
                        b@.skip(pos as int),
                    ) implies false by {
                    lemma_enc_mv_parts(b@, pos as int, x);
                }
            }
            return None;
        },
        Some(x) => x,
    };
    let (sequence, p2) = match read_u64(b, p1) {
        None => {
            proof {
                assert forall|x: MessageValueV|
                    pos <= b@.len() && (#[trigger] enc_mv(x)).is_prefix_of(
                        b@.skip(pos as int),
                    ) implies false by {
                    lemma_enc_mv_parts(b@, pos as int, x);
                }
            }
            return None;
        },
        Some(x) => x,
    };
    let (previous, p3) = match read_opt_str(b, p2) {
        None => {
            proof {
                assert forall|x: MessageValueV|
                    pos <= b@.len() && (#[trigger] enc_mv(x)).is_prefix_of(
                        b@.skip(pos as int),
                    ) implies false by {
                    lemma_enc_mv_parts(b@, pos as int, x);
                }
            }
            return None;
        },
        Some(x) => x,
    };
    let (content, p4) = match read_str(b, p3) {
        None => {
            proof {
                assert forall|x: MessageValueV|
                    pos <= b@.len() && (#[trigger] enc_mv(x)).is_prefix_of(
                        b@.skip(pos as int),
                    ) implies false by {
                    lemma_enc_mv_parts(b@, pos as int, x);
                }
            }
            return None;
        },
        Some(x) => x,
    };
    let (id, p5) = match read_str(b, p4) {
        None => {
            proof {
                assert forall|x: MessageValueV|
                    pos <= b@.len() && (#[trigger] enc_mv(x)).is_prefix_of(
                        b@.skip(pos as int),
                    ) implies false by {
                    lemma_enc_mv_parts(b@, pos as int, x);
                    lemma_be8_injective(sequence, x.sequence);
                }
            }
            return None;
        },
        Some(x) => x,
    };
    let m = MessageValue { author, sequence, previous, content, id };
    proof {
        assert(b@.subrange(pos as int, p2 as int) =~= b@.subrange(pos as int, p1 as int)
            + b@.subrange(p1 as int, p2 as int));
        assert(b@.subrange(pos as int, p3 as int) =~= b@.subrange(pos as int, p2 as int)
            + b@.subrange(p2 as int, p3 as int));
        assert(b@.subrange(pos as int, p4 as int) =~= b@.subrange(pos as int, p3 as int)
            + b@.subrange(p3 as int, p4 as int));
        assert(b@.subrange(pos as int, p5 as int) =~= b@.subrange(pos as int, p4 as int)
            + b@.subrange(p4 as int, p5 as int));
        assert(b@.subrange(pos as int, p5 as int) == enc_mv(m@));
        assert forall|x: MessageValueV|
            pos <= b@.len() && (#[trigger] enc_mv(x)).is_prefix_of(
                b@.skip(pos as int),
            ) implies m@ == x && p5 == pos + enc_mv(x).len() by {
            lemma_enc_mv_parts(b@, pos as int, x);
            lemma_be8_injective(sequence, x.sequence);
            assert(m@ == x);
        }
    }
    Some((m, p5))
}

/// Decode a feed reference record; the whole input must be one record.
pub fn decode_ref(b: &[u8]) -> (r: Option<PubKeyAndSeqNum>)
    ensures
        r matches Some(v) ==> b@ == enc_ref(v@),
        forall|x: PubKeyAndSeqNumV|
            b@ == #[trigger] enc_ref(x) ==> (r matches Some(v) && v@ == x),
{
    let blen = b.len();
    proof {
        assert(b@.skip(0) =~= b@);
        assert forall|x: PubKeyAndSeqNumV| b@ == #[trigger] enc_ref(x) implies {
            &&& str_field(x.pub_key).is_prefix_of(b@.skip(0))
            &&& be8(x.seq_num).is_prefix_of(b@.skip(str_field(x.pub_key).len() as int))
        } by {
            assert(enc_ref(x).is_prefix_of(b@));
            lemma_prefix_parts(b@, 0, str_field(x.pub_key), be8(x.seq_num));
        }
    }
    let (pub_key, p1) = match read_str(b, 0) {
        None => {
            return None;
        },
        Some(x) => x,
    };
    let (seq_num, p2) = match read_u64(b, p1) {
        None => {
            return None;
        },
        Some(x) => x,
    };
    if p2 != blen {
        proof {
            assert forall|x: PubKeyAndSeqNumV| b@ == #[trigger] enc_ref(x) implies false by {
                lemma_be8_injective(seq_num, x.seq_num);
            }
        }
        return None;
    }
    let v = PubKeyAndSeqNum { pub_key, seq_num };
    proof {
        assert(b@ =~= enc_ref(v@));
        assert forall|x: PubKeyAndSeqNumV| b@ == #[trigger] enc_ref(x) implies v@ == x by {
            lemma_be8_injective(seq_num, x.seq_num);
        }
    }
    Some(v)
}

/// Decode a stored message record; the whole input must be one record. The
/// received timestamp comes back absent, as persisted.
pub fn decode_kvt(b: &[u8]) -> (r: Option<MessageKvt>)
    ensures
        r matches Some(k) ==> b@ == enc_kvt(k@) && k@.rts is None,
        forall|x: MessageKvtV| b@ == #[trigger] enc_kvt(x) ==> (r matches Some(k) && k@
            == clear_rts(x)),
{
    let blen = b.len();
    proof {
        assert(b@.skip(0) =~= b@);
        assert forall|x: MessageKvtV| b@ == #[trigger] enc_kvt(x) implies {
            &&& str_field(x.key).is_prefix_of(b@.skip(0))
            &&& enc_mv(x.value).is_prefix_of(b@.skip(str_field(x.key).len() as int))
        } by {
            assert(enc_kvt(x).is_prefix_of(b@));
            lemma_prefix_parts(b@, 0, str_field(x.key), enc_mv(x.value));
        }
    }
    let (key, p1) = match read_str(b, 0) {
        None => {
            return None;
        },
        Some(x) => x,
    };
    let (mv, p2) = match read_mv(b, p1) {
        None => {
            return None;
        },
        Some(x) => x,
    };
    if p2 != blen {
        return None;
    }
    let k = MessageKvt { key, value: mv, rts: None };
    proof {
        assert(b@ =~= enc_kvt(k@));
        assert forall|x: MessageKvtV| b@ == #[trigger] enc_kvt(x) implies k@ == clear_rts(x) by {
            assert(k@.value == x.value && k@.key == x.key);
        }
    }
    Some(k)
}

/// The encoded user list is at least eight bytes per user.
proof fn lemma_enc_user_list_min_len(users: Seq<Seq<char>>)
    ensures
        enc_user_list(users).len() >= 8 * users.len(),
    decreases users.len(),
{
    if users.len() > 0 {
        lemma_enc_user_list_min_len(users.skip(1));
    }
}

/// The encoded user list splits at any index.
proof fn lemma_enc_user_list_split(users: Seq<Seq<char>>, i: int)
    requires
        0 <= i <= users.len(),
    ensures
        enc_user_list(users) == enc_user_list(users.take(i)) + enc_user_list(users.skip(i)),
    decreases i,
{
    if i == 0 {
        assert(users.take(0) =~= Seq::<Seq<char>>::empty());
        assert(users.skip(0) =~= users);
        reveal_with_fuel(enc_user_list, 2);
        assert(enc_user_list(users) =~= enc_user_list(users.take(0)) + enc_user_list(
            users.skip(0),
        ));
    } else {
        lemma_enc_user_list_split(users, i - 1);
        lemma_enc_user_list_snoc(users.take(i - 1), users[i - 1]);
        assert(users.take(i) =~= users.take(i - 1).push(users[i - 1]));
        assert(users.skip(i - 1)[0] == users[i - 1]);
        assert(users.skip(i - 1).skip(1) =~= users.skip(i));
        assert(enc_user_list(users.skip(i - 1)) == str_field(users[i - 1]) + enc_user_list(
            users.skip(i),
        ));
        assert((enc_user_list(users.take(i - 1)) + (str_field(users[i - 1]) + enc_user_list(
            users.skip(i),
        ))) =~= (enc_user_list(users.take(i - 1)) + str_field(users[i - 1])) + enc_user_list(
            users.skip(i),
        ));
    }
}

/// What an encoded blob record pins down: the flag byte, the count bytes,
/// the user-list bytes, and the record's total length.
proof fn lemma_enc_blob_parts(b: Seq<u8>, x: BlobStatusV)
    requires
        b == enc_blob(x),
        b.len() < 0x1_0000_0000_0000_0000,
    ensures
        b.len() == 9 + enc_user_list(x.users).len(),
        b[0] == bool_field(x.retrieved)[0],
        b.subrange(1, 9) == be8(x.users.len() as u64),
        enc_user_list(x.users).is_prefix_of(b.skip(9)),
        x.users.len() < 0x1_0000_0000_0000_0000,
        x.users.len() as u64 as nat == x.users.len(),
{
    assert(b =~= bool_field(x.retrieved) + (be8(x.users.len() as u64) + enc_user_list(x.users)));
    assert(b.is_prefix_of(b.skip(0)));
    lemma_prefix_parts(
        b,
        0,
        bool_field(x.retrieved),
        be8(x.users.len() as u64) + enc_user_list(x.users),
    );
    lemma_prefix_parts(b, 1, be8(x.users.len() as u64), enc_user_list(x.users));
    lemma_enc_user_list_min_len(x.users);
    assert(b.subrange(0, 1)[0] == b[0]);
}

/// One user field stands at `cur` when the fields before it filled
/// `9 .. cur`.
proof fn lemma_user_list_step(b: Seq<u8>, users: Seq<Seq<char>>, i: int, cur: int)
    requires
        0 <= i < users.len(),
        9 <= cur <= b.len(),
        enc_user_list(users).is_prefix_of(b.skip(9)),
        b.subrange(9, cur) == enc_user_list(users.take(i)),
    ensures
        str_field(users[i]).is_prefix_of(b.skip(cur)),
        b.subrange(9, cur) + str_field(users[i]) == enc_user_list(users.take(i + 1)),
{
    lemma_enc_user_list_split(users, i);
    lemma_prefix_parts(b, 9, enc_user_list(users.take(i)), enc_user_list(users.skip(i)));
    assert(cur == 9 + enc_user_list(users.take(i)).len());
    assert(users.skip(i)[0] == users[i]);
    assert(users.skip(i).skip(1) =~= users.skip(i + 1));
    assert(enc_user_list(users.skip(i)) == str_field(users[i]) + enc_user_list(users.skip(i + 1)));
    lemma_prefix_parts(b, cur, str_field(users[i]), enc_user_list(users.skip(i + 1)));
    lemma_enc_user_list_snoc(users.take(i), users[i]);
    assert(users.take(i + 1) =~= users.take(i).push(users[i]));
}

/// Decode a blob status; the whole input must be one record.
#[verifier::rlimit(100)]
pub fn decode_blob(b: &[u8]) -> (r: Option<BlobStatus>)
    ensures
        r matches Some(v) ==> b@ == enc_blob(v@),
        forall|x: BlobStatusV| b@ == #[trigger] enc_blob(x) ==> (r matches Some(v) && v@ == x),
{
    let blen = b.len();
    let (tag, _p1) = match read_byte(b, 0) {
        None => {
            proof {
                assert forall|x: BlobStatusV| b@ == #[trigger] enc_blob(x) implies false by {
                    lemma_enc_blob_parts(b@, x);
                }
            }
            return None;
        },
        Some(x) => x,
    };
    proof {
        assert(b@.subrange(0, 1)[0] == b@[0]);
    }
    let retrieved = if tag == 0 {
        false
    } else if tag == 1 {
        true
    } else {
        proof {
            assert forall|x: BlobStatusV| b@ == #[trigger] enc_blob(x) implies false by {
                lemma_enc_blob_parts(b@, x);
            }
        }
        return None;
    };
    let (count, p2) = match read_u64(b, 1) {
        None => {
            proof {
                assert forall|x: BlobStatusV| b@ == #[trigger] enc_blob(x) implies false by {
                    lemma_enc_blob_parts(b@, x);
                }
            }
            return None;
        },
        Some(x) => x,
    };
    proof {
        assert forall|x: BlobStatusV| b@ == #[trigger] enc_blob(x) implies x.retrieved
            == retrieved && x.users.len() == count by {
            lemma_enc_blob_parts(b@, x);
            lemma_be8_injective(count, x.users.len() as u64);
        }
    }
    let mut users: Vec<String> = Vec::new();
    let mut i: u64 = 0;
    let mut cur: usize = p2;
    while i < count
        invariant
            0 <= i <= count,
            9 <= cur <= b@.len(),
            b@.len() <= usize::MAX,
            users@.len() == i,
            b@.subrange(9, cur as int) == enc_user_list(strs_view(users@)),
            forall|x: BlobStatusV|
                b@ == #[trigger] enc_blob(x) ==> x.retrieved == retrieved && x.users.len() == count
                    && strs_view(users@) == x.users.take(i as int),
        decreases count - i,
    {
        let (s, np) = match read_str(b, cur) {
            None => {
                proof {
                    assert forall|x: BlobStatusV| b@ == #[trigger] enc_blob(x) implies false by {
                        lemma_enc_blob_parts(b@, x);
                        lemma_user_list_step(b@, x.users, i as int, cur as int);
                    }
                }
                return None;
            },
            Some(x) => x,
        };
        let ghost prev = users@;
        users.push(s);
        proof {
            assert(users@ == prev.push(s));
            assert(strs_view(users@) =~= strs_view(prev).push(s@));
            lemma_enc_user_list_snoc(strs_view(prev), s@);
            assert(b@.subrange(9, np as int) =~= b@.subrange(9, cur as int) + b@.subrange(
                cur as int,
                np as int,
            ));
            assert(b@.subrange(9, np as int) == enc_user_list(strs_view(users@)));
            assert forall|x: BlobStatusV| b@ == #[trigger] enc_blob(x) implies strs_view(
                users@,
            ) == x.users.take(i + 1) by {
                lemma_enc_blob_parts(b@, x);
                lemma_user_list_step(b@, x.users, i as int, cur as int);
                assert(s@ == x.users[i as int]);
                assert(b@.subrange(9, np as int) == enc_user_list(x.users.take(i + 1)));
                assert(x.users.take(i + 1) =~= x.users.take(i as int).push(x.users[i as int]));
                assert(strs_view(users@) =~= x.users.take(i + 1));
            }
        }
        cur = np;
        i = i + 1;
    }
    if cur != blen {
        proof {
            assert forall|x: BlobStatusV| b@ == #[trigger] enc_blob(x) implies false by {
                lemma_enc_blob_parts(b@, x);
                assert(x.users.take(i as int) =~= x.users);
                assert(b@.subrange(9, cur as int) == enc_user_list(x.users));
            }
        }
        return None;
    }
    let v = BlobStatus { retrieved, users };
    proof {
        assert(strs_view(users@) =~= v@.users);
        assert(b@.subrange(0, 1) =~= bool_field(retrieved));
        assert(b@.subrange(0, 9) =~= b@.subrange(0, 1) + b@.subrange(1, 9));
        assert(b@ =~= b@.subrange(0, 9) + b@.subrange(9, b@.len() as int));
        assert(b@ == enc_blob(v@));
        assert forall|x: BlobStatusV| b@ == #[trigger] enc_blob(x) implies v@ == x by {
            assert(x.users.take(i as int) =~= x.users);
            assert(v@.users == x.users && v@.retrieved == x.retrieved);
        }
    }
    Some(v)
}


} // verus!
