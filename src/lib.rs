//! An append-only message index over interned content addresses.
//!
//! Content-address strings are interned into compact integer surrogate keys,
//! and message records refer to those keys for their author, thread root,
//! fork point and own content key.
pub mod laws;
pub mod model;
pub mod records;
pub mod store;

pub use records::{Key, Message, MessageDraft, StoreError};
pub use store::Store;
