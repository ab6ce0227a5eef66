//! End-to-end tests of the feed store over a real embedded database.

use solar::{BlobStatus, KvStorage, MessageValue, StoreError};

/// Open a store over a temporary database with a live commit channel.
fn open_store() -> KvStorage {
    let (sender, _receiver) = futures::channel::mpsc::unbounded();
    let config = sled::Config::new().temporary(true);
    KvStorage::open(&config, sender).unwrap()
}

/// A hand-signed message value: the fields the store reads, with a unique
/// canonical id derived from author and sequence.
fn signed_message(author: &str, seq: u64, text: &str, prev: Option<&MessageValue>) -> MessageValue {
    MessageValue {
        author: author.to_string(),
        sequence: seq,
        previous: prev.map(|m| m.id.clone()),
        content: format!("{{\"type\":\"post\",\"text\":\"{}\"}}", text),
        id: format!("%{}-{}.sha256", author, seq),
    }
}

const KEYPAIR_ID: &str = "@U5GvOKP/YUza9k53DSXxT0mk3PIrnyAmessvIfyPpao=.ed25519";

#[test]
fn open_temporary_kv() {
    let _kv = open_store();
}

#[test]
fn test_feed_length() {
    let mut kv = open_store();

    let mut last_msg: Option<MessageValue> = None;
    for i in 1..=4u64 {
        let text = format!("Important announcement #{i}");
        let msg = signed_message(KEYPAIR_ID, i, &text, last_msg.as_ref());

        let seq = kv.append_feed(msg).unwrap();
        assert_eq!(seq, i);

        last_msg = kv.get_latest_msg_val(KEYPAIR_ID).unwrap();

        let feed = kv.get_feed(KEYPAIR_ID).unwrap();
        assert_eq!(feed.len(), i as usize);
    }
}

#[test]
fn test_single_message_content_matches() {
    let mut kv = open_store();

    let text = "A strange rambling expiration of my own conscious";
    let last_msg = kv.get_latest_msg_val(KEYPAIR_ID).unwrap();
    let msg = signed_message(KEYPAIR_ID, 1, text, last_msg.as_ref());
    let expected = msg.content.clone();

    let seq = kv.append_feed(msg).unwrap();
    assert_eq!(seq, 1);

    let latest_seq = kv.get_latest_seq(KEYPAIR_ID).unwrap();
    assert_eq!(latest_seq, Some(1));

    let last_msg = kv.get_latest_msg_val(KEYPAIR_ID).unwrap();
    assert!(last_msg.is_some());
    let last_content = last_msg.unwrap().content;

    assert_eq!(last_content, expected);
}

#[test]
fn test_new_feed_is_empty() {
    let kv = open_store();

    let last_msg = kv.get_latest_msg_val(KEYPAIR_ID).unwrap();
    assert!(last_msg.is_none());

    let latest_seq = kv.get_latest_seq(KEYPAIR_ID).unwrap();
    assert!(latest_seq.is_none());
}

#[test]
fn test_sequence_mismatch_rejects() {
    let mut kv = open_store();

    let first = signed_message(KEYPAIR_ID, 1, "first", None);
    assert_eq!(kv.append_feed(first.clone()).unwrap(), 1);

    let skipped = signed_message(KEYPAIR_ID, 3, "skipped ahead", Some(&first));
    let result = kv.append_feed(skipped);
    assert_eq!(result, Err(StoreError::InvalidSequence));

    assert_eq!(kv.get_latest_seq(KEYPAIR_ID).unwrap(), Some(1));
    assert_eq!(kv.get_feed(KEYPAIR_ID).unwrap().len(), 1);
}

#[test]
fn test_peer_range_query() {
    let mut kv = open_store();

    let peers = kv.get_peers().unwrap();
    assert_eq!(peers.len(), 0);

    let text = "A solar flare is an intense localized eruption of electromagnetic radiation.";
    let last_msg = kv.get_latest_msg_val(KEYPAIR_ID).unwrap();
    let msg = signed_message(KEYPAIR_ID, 1, text, last_msg.as_ref());
    let _ = kv.append_feed(msg).unwrap();

    let peers = kv.get_peers().unwrap();
    assert_eq!(peers.len(), 1);
    assert_eq!(&peers.get(0).unwrap().0, KEYPAIR_ID);

    // One key right above the peer range: prefix byte 5.
    kv.insert_raw(
        vec![5u8],
        b"this should not show up in the peers list because it's after the peers range".to_vec(),
    )
    .unwrap();

    let peers = kv.get_peers().unwrap();
    assert_eq!(peers.len(), 1);

    // And one right below it: prefix byte 3 (the blob class).
    kv.insert_raw(
        vec![3u8],
        b"this should not show up in the peers list because it's before the peers range".to_vec(),
    )
    .unwrap();

    let peers = kv.get_peers().unwrap();
    assert_eq!(peers.len(), 1);
}

#[test]
fn test_append_feed() {
    let mut kv = open_store();

    let text = "A solar flare is an intense localized eruption of electromagnetic radiation.";
    let last_msg = kv.get_latest_msg_val(KEYPAIR_ID).unwrap();
    let msg = signed_message(KEYPAIR_ID, 1, text, last_msg.as_ref());

    let seq = kv.append_feed(msg).unwrap();
    assert_eq!(seq, 1);

    let latest_seq = kv.get_latest_seq(KEYPAIR_ID).unwrap();
    assert_eq!(latest_seq, Some(seq));

    let peers = kv.get_peers().unwrap();
    assert_eq!(peers.len(), 1);
    assert_eq!(peers[0].0, KEYPAIR_ID);
    assert_eq!(peers[0].1, 1);

    let last_msg_2 = kv.get_latest_msg_val(KEYPAIR_ID).unwrap();
    let msg_2 = signed_message(
        KEYPAIR_ID,
        2,
        "When the sun shone upon her.",
        last_msg_2.as_ref(),
    );
    let msg_2_clone = msg_2.clone();
    let seq_2 = kv.append_feed(msg_2).unwrap();
    assert_eq!(seq_2, 2);

    let msg_kvt = kv.get_msg_kvt(KEYPAIR_ID, 2).unwrap();
    assert!(msg_kvt.is_some());

    let msg_kvt_key = msg_kvt.unwrap().key;

    let msg_val = kv.get_msg_val(&msg_kvt_key).unwrap();
    assert_eq!(msg_val, Some(msg_2_clone));

    let feed = kv.get_feed(KEYPAIR_ID).unwrap();
    assert_eq!(feed.len(), 2);
}

#[test]
fn test_blobs_range_query_when_peers_exist() {
    let mut kv = open_store();
    kv.set_blob(
        "b1",
        &BlobStatus { retrieved: false, users: ["u2".to_string()].to_vec() },
    )
    .unwrap();

    assert_eq!(kv.get_peers().unwrap().len(), 0);

    assert_eq!(kv.get_pending_blobs().unwrap(), vec!["b1".to_string()]);

    let text = "A solar flare is an intense localized eruption of electromagnetic radiation.";
    let msg = signed_message(KEYPAIR_ID, 1, text, None);
    let _ = kv.append_feed(msg).unwrap();

    let peers = kv.get_peers().unwrap();
    assert_eq!(peers.len(), 1);

    kv.set_blob(
        "b2",
        &BlobStatus { retrieved: false, users: ["u7".to_string()].to_vec() },
    )
    .unwrap();

    assert_eq!(
        kv.get_pending_blobs().unwrap(),
        vec!["b1".to_string(), "b2".to_string()]
    );
}

#[test]
fn test_blobs() {
    let mut kv = open_store();

    assert!(kv.get_blob("1").unwrap().is_none());

    kv.set_blob(
        "b1",
        &BlobStatus { retrieved: true, users: ["u1".to_string()].to_vec() },
    )
    .unwrap();

    kv.set_blob(
        "b2",
        &BlobStatus { retrieved: false, users: ["u2".to_string()].to_vec() },
    )
    .unwrap();

    if let Some(blob) = kv.get_blob("b1").unwrap() {
        assert!(blob.retrieved);
        assert_eq!(blob.users, ["u1".to_string()].to_vec());
        assert_eq!(kv.get_pending_blobs().unwrap(), ["b2".to_string()].to_vec());
    }

    kv.set_blob(
        "b1",
        &BlobStatus { retrieved: false, users: ["u7".to_string()].to_vec() },
    )
    .unwrap();

    if let Some(blob) = kv.get_blob("b1").unwrap() {
        assert!(!blob.retrieved);
        assert_eq!(blob.users, ["u7".to_string()].to_vec());
        assert_eq!(
            kv.get_pending_blobs().unwrap(),
            ["b1".to_string(), "b2".to_string()].to_vec()
        );
    }
}

#[test]
fn test_commit_events_per_append() {
    let (sender, mut receiver) = futures::channel::mpsc::unbounded();
    let config = sled::Config::new().temporary(true);
    let mut kv = KvStorage::open(&config, sender).unwrap();

    let msg = signed_message(KEYPAIR_ID, 1, "announce", None);
    kv.append_feed(msg.clone()).unwrap();

    let event = receiver.try_recv().unwrap();
    let solar::StoreKvEvent((author, seq)) = event;
    assert_eq!(author, KEYPAIR_ID);
    assert_eq!(seq, 1);

    // A rejected append publishes nothing.
    let bad = signed_message(KEYPAIR_ID, 5, "out of order", Some(&msg));
    assert!(kv.append_feed(bad).is_err());
    assert!(receiver.try_recv().is_err());
}

#[test]
fn test_global_order_counter_counts_commits() {
    let mut kv = open_store();
    assert_eq!(kv.get_global_order_seq().unwrap(), 0);

    let first = signed_message(KEYPAIR_ID, 1, "one", None);
    kv.append_feed(first.clone()).unwrap();
    let second = signed_message(KEYPAIR_ID, 2, "two", Some(&first));
    kv.append_feed(second).unwrap();

    let other = "@other-peer.ed25519";
    let third = signed_message(other, 1, "three", None);
    kv.append_feed(third).unwrap();

    assert_eq!(kv.get_global_order_seq().unwrap(), 3);
}

#[test]
fn test_reopen_keeps_feed_and_counter() {
    let nanos = std::time::SystemTime::now()
        .duration_since(std::time::UNIX_EPOCH)
        .unwrap()
        .as_nanos();
    let path = format!("/tmp/solar_store_test_{nanos}");

    {
        let (sender, _receiver) = futures::channel::mpsc::unbounded();
        let config = sled::Config::new().path(&path);
        let mut kv = KvStorage::open(&config, sender).unwrap();
        let first = signed_message(KEYPAIR_ID, 1, "durable one", None);
        kv.append_feed(first.clone()).unwrap();
        let second = signed_message(KEYPAIR_ID, 2, "durable two", Some(&first));
        kv.append_feed(second).unwrap();
        assert_eq!(kv.get_global_order_seq().unwrap(), 2);
    }

    let (sender, _receiver) = futures::channel::mpsc::unbounded();
    let config = sled::Config::new().path(&path);
    let kv = KvStorage::open(&config, sender).unwrap();
    assert_eq!(kv.get_feed(KEYPAIR_ID).unwrap().len(), 2);
    assert_eq!(kv.get_latest_seq(KEYPAIR_ID).unwrap(), Some(2));
    assert_eq!(kv.get_global_order_seq().unwrap(), 2);
}

#[test]
fn test_raw_keys_do_not_disturb_blob_scans() {
    let mut kv = open_store();
    kv.set_blob(
        "pending-blob",
        &BlobStatus { retrieved: false, users: vec!["u1".to_string()] },
    )
    .unwrap();

    // Keys just below and just above the blob class: prefixes 2 and 4.
    kv.insert_raw(vec![2u8, 0, 1], vec![9u8]).unwrap();
    kv.insert_raw(vec![4u8, 0, 1], vec![9u8]).unwrap();

    assert_eq!(kv.get_pending_blobs().unwrap(), vec!["pending-blob".to_string()]);
}

#[test]
fn test_corrupt_latest_seq_is_reported() {
    let mut kv = open_store();

    // A latest-sequence value must be eight bytes; plant a three-byte one.
    let mut key = vec![0u8];
    key.extend_from_slice(KEYPAIR_ID.as_bytes());
    kv.insert_raw(key, vec![1, 2, 3]).unwrap();

    assert_eq!(kv.get_latest_seq(KEYPAIR_ID), Err(StoreError::StorageCorruption));
}

#[test]
fn test_undecodable_blob_is_reported() {
    let mut kv = open_store();

    // Plant bytes under a blob key that decode as no blob status.
    let mut key = vec![3u8];
    key.extend_from_slice(b"bad");
    kv.insert_raw(key, vec![7, 7]).unwrap();

    assert_eq!(kv.get_blob("bad"), Err(StoreError::SerializationFailure));
    assert_eq!(kv.get_pending_blobs(), Err(StoreError::SerializationFailure));
}
