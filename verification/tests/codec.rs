//! Tests of the storage codec and the byte primitives.

use solar::buffer_to_u64;
use solar::codec::{decode_blob, decode_kvt, decode_ref, encode_blob, encode_kvt, encode_ref};
use solar::{BlobStatus, MessageKvt, MessageValue, PubKeyAndSeqNum};

#[test]
fn test_buffer_to_u64_exact() {
    assert_eq!(buffer_to_u64(&[0, 0, 0, 0, 0, 0, 0, 7]), 7);
    assert_eq!(buffer_to_u64(&[0, 0, 0, 0, 0, 0, 1, 0]), 256);
    assert_eq!(
        buffer_to_u64(&[0x12, 0x34, 0x56, 0x78, 0x9a, 0xbc, 0xde, 0xf0]),
        0x1234_5678_9abc_def0
    );
    assert_eq!(buffer_to_u64(&[0xff; 8]), u64::MAX);
}

#[test]
fn test_ref_roundtrip() {
    let encoded = encode_ref("@someone.ed25519", 42);
    let decoded = decode_ref(&encoded).unwrap();
    assert_eq!(
        decoded,
        PubKeyAndSeqNum { pub_key: "@someone.ed25519".to_string(), seq_num: 42 }
    );
}

#[test]
fn test_ref_rejects_garbage() {
    assert!(decode_ref(&[1, 2, 3]).is_none());
    assert!(decode_ref(&[]).is_none());
}

#[test]
fn test_kvt_roundtrip_clears_rts() {
    let value = MessageValue {
        author: "@author.ed25519".to_string(),
        sequence: 3,
        previous: Some("%prev.sha256".to_string()),
        content: "{\"type\":\"post\"}".to_string(),
        id: "%this.sha256".to_string(),
    };
    let kvt = MessageKvt { key: "%this.sha256".to_string(), value: value.clone(), rts: Some(17) };
    let encoded = encode_kvt(&kvt);
    let decoded = decode_kvt(&encoded).unwrap();
    assert_eq!(decoded.key, kvt.key);
    assert_eq!(decoded.value, value);
    assert_eq!(decoded.rts, None);
}

#[test]
fn test_kvt_roundtrip_no_previous() {
    let value = MessageValue {
        author: "@first.ed25519".to_string(),
        sequence: 1,
        previous: None,
        content: "".to_string(),
        id: "%first.sha256".to_string(),
    };
    let kvt = MessageKvt { key: "%first.sha256".to_string(), value: value.clone(), rts: None };
    let decoded = decode_kvt(&encode_kvt(&kvt)).unwrap();
    assert_eq!(decoded, kvt);
}

#[test]
fn test_blob_roundtrip() {
    let blob = BlobStatus {
        retrieved: false,
        users: vec!["u1".to_string(), "u2".to_string(), "".to_string()],
    };
    let decoded = decode_blob(&encode_blob(&blob)).unwrap();
    assert_eq!(decoded, blob);

    let empty = BlobStatus { retrieved: true, users: vec![] };
    assert_eq!(decode_blob(&encode_blob(&empty)).unwrap(), empty);
}

#[test]
fn test_blob_rejects_truncated() {
    let blob = BlobStatus { retrieved: false, users: vec!["user".to_string()] };
    let mut encoded = encode_blob(&blob);
    encoded.pop();
    assert!(decode_blob(&encoded).is_none());
    assert!(decode_blob(&[2]).is_none());
}
