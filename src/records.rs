//! Row types of the two tables and the draft handed in by ingestion.
use vstd::prelude::*;

verus! {

/// One ingested log entry.
///
/// `flume_seq` is the global append sequence; `seq` the position within the
/// author's own feed. The surrogate keys (`key_id`, `root_key_id`,
/// `fork_key_id`, `author_id`) refer to rows of the key table. The two
/// timestamps are carried as the bit patterns of IEEE-754 doubles: this layer
/// stores them and never computes with them.
#[derive(Debug, Clone)]
pub struct Message {
    pub flume_seq: Option<i64>,
    pub key_id: Option<i32>,
    pub seq: Option<i32>,
    pub received_time: Option<u64>,
    pub asserted_time: Option<u64>,
    pub root_key_id: Option<i32>,
    pub fork_key_id: Option<i32>,
    pub author_id: Option<i32>,
    pub content_type: Option<String>,
    pub content: Option<String>,
    pub is_decrypted: Option<bool>,
}

/// One distinct content address and its surrogate key.
#[derive(Debug, Clone)]
pub struct Key {
    pub id: Option<i32>,
    pub key: String,
}

/// A log entry as ingestion delivers it: addresses not yet interned.
#[derive(Debug, Clone)]
pub struct MessageDraft {
    pub key: Option<String>,
    pub author: Option<String>,
    pub root: Option<String>,
    pub fork: Option<String>,
    pub seq: Option<i32>,
    pub received_time: Option<u64>,
    pub asserted_time: Option<u64>,
    pub content_type: Option<String>,
    pub content: Option<String>,
    pub is_decrypted: Option<bool>,
}

/// Why an operation on the store did not complete.
#[derive(Debug, Clone, Copy, PartialEq, Eq, Structural)]
pub enum StoreError {
    /// The store cannot take the write: a surrogate key or an append
    /// sequence would leave its integer range.
    StorageUnavailable,
    /// No message stands at the requested append sequence.
    NotFound,
    /// A record refers to a surrogate key that has no row.
    ReferentialViolation,
    /// An explicit append sequence does not lie after the last one stored.
    SequenceConflict,
}

/// A copy of an optional string, equal to the original.
pub fn copy_text(s: &Option<String>) -> (r: Option<String>)
    ensures
        r == *s,
{
    match s {
        Some(t) => Some(t.clone()),
        None => None,
    }
}

impl Default for Message {
    /// A record at append sequence 0 with every other field absent.
    fn default() -> (r: Message)
        ensures
            r == (Message {
                flume_seq: Some(0),
                key_id: None,
                seq: None,
                received_time: None,
                asserted_time: None,
                root_key_id: None,
                fork_key_id: None,
                author_id: None,
                content_type: None,
                content: None,
                is_decrypted: None,
            }),
    {
        Message {
            flume_seq: Some(0),
            key_id: None,
            seq: None,
            received_time: None,
            asserted_time: None,
            root_key_id: None,
            fork_key_id: None,
            author_id: None,
            content_type: None,
            content: None,
            is_decrypted: None,
        }
    }
}

impl Message {
    /// A field-for-field copy.
    pub fn duplicate(&self) -> (r: Message)
        ensures
            r == *self,
    {
        Message {
            flume_seq: self.flume_seq,
            key_id: self.key_id,
            seq: self.seq,
            received_time: self.received_time,
            asserted_time: self.asserted_time,
            root_key_id: self.root_key_id,
            fork_key_id: self.fork_key_id,
            author_id: self.author_id,
            content_type: copy_text(&self.content_type),
            content: copy_text(&self.content),
            is_decrypted: self.is_decrypted,
        }
    }
}

impl Key {
    /// A field-for-field copy.
    pub fn duplicate(&self) -> (r: Key)
        ensures
            r == *self,
    {
        Key { id: self.id, key: self.key.clone() }
    }
}

} // verus!
