//! The records the store keeps: message values, stored message records
//! (key + value + received timestamp), blob statuses, feed references,
//! commit events, and the store's error kinds.

use vstd::prelude::*;

verus! {

/// The failures the store surfaces to callers.
#[derive(Debug, Clone, Copy, PartialEq, Eq, Structural)]
pub enum StoreError {
    /// The underlying database could not be opened.
    StorageOpen,
    /// A read, write or flush failed at the storage layer.
    StorageIo,
    /// A persisted record could not be decoded.
    SerializationFailure,
    /// An appended message's declared sequence is not the next one for its
    /// feed.
    InvalidSequence,
    /// The store's persisted invariants do not hold (for example a feed
    /// reference that points at a missing record).
    StorageCorruption,
}

/// A new message has been appended to the feed belonging to the given
/// author identity: `(author, sequence)`.
#[derive(Debug)]
pub struct StoreKvEvent(pub (String, u64));

/// A signed feed message as the store handles it: the author identity, the
/// 1-based sequence within the author's feed, the reference to the previous
/// message, the content, and the content hash that serves as the message's
/// canonical id.
#[derive(Debug, Clone, PartialEq)]
pub struct MessageValue {
    pub author: String,
    pub sequence: u64,
    pub previous: Option<String>,
    pub content: String,
    pub id: String,
}

/// The mathematical value of a [`MessageValue`].
pub struct MessageValueV {
    pub author: Seq<char>,
    pub sequence: u64,
    pub previous: Option<Seq<char>>,
    pub content: Seq<char>,
    pub id: Seq<char>,
}

impl View for MessageValue {
    type V = MessageValueV;

    open spec fn view(&self) -> MessageValueV {
        MessageValueV {
            author: self.author@,
            sequence: self.sequence,
            previous: match self.previous {
                Some(p) => Some(p@),
                None => None,
            },
            content: self.content@,
            id: self.id@,
        }
    }
}

/// A stored message record: the message's canonical id (its key), the
/// message value, and a received timestamp (milliseconds) that is cleared
/// to `None` before the record is persisted.
#[derive(Debug, Clone, PartialEq)]
pub struct MessageKvt {
    pub key: String,
    pub value: MessageValue,
    pub rts: Option<u64>,
}

/// The mathematical value of a [`MessageKvt`].
pub struct MessageKvtV {
    pub key: Seq<char>,
    pub value: MessageValueV,
    pub rts: Option<u64>,
}

impl View for MessageKvt {
    type V = MessageKvtV;

    open spec fn view(&self) -> MessageKvtV {
        MessageKvtV { key: self.key@, value: self.value@, rts: self.rts }
    }
}

/// The same record with its received timestamp cleared, as it is persisted.
pub open spec fn clear_rts(k: MessageKvtV) -> MessageKvtV {
    MessageKvtV { key: k.key, value: k.value, rts: None }
}

/// The retrieval status of a content-addressed attachment: whether it has
/// been fetched, and the authors interested in it.
#[derive(Debug, Clone, PartialEq)]
pub struct BlobStatus {
    pub retrieved: bool,
    pub users: Vec<String>,
}

/// The mathematical value of a [`BlobStatus`].
pub struct BlobStatusV {
    pub retrieved: bool,
    pub users: Seq<Seq<char>>,
}

impl View for BlobStatus {
    type V = BlobStatusV;

    open spec fn view(&self) -> BlobStatusV {
        BlobStatusV {
            retrieved: self.retrieved,
            users: Seq::new(self.users@.len(), |i: int| self.users@[i]@),
        }
    }
}

/// The author identity of a peer together with a message sequence number:
/// the reference record a message id resolves to.
#[derive(Debug, Clone, PartialEq)]
pub struct PubKeyAndSeqNum {
    pub pub_key: String,
    pub seq_num: u64,
}

/// The mathematical value of a [`PubKeyAndSeqNum`].
pub struct PubKeyAndSeqNumV {
    pub pub_key: Seq<char>,
    pub seq_num: u64,
}

impl View for PubKeyAndSeqNum {
    type V = PubKeyAndSeqNumV;

    open spec fn view(&self) -> PubKeyAndSeqNumV {
        PubKeyAndSeqNumV { pub_key: self.pub_key@, seq_num: self.seq_num }
    }
}

} // verus!
