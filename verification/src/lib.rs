//! An append-only key–value store that keeps every entry in one byte log,
//! with a CRC-protected binary format, iteration in storage order,
//! persistence to a byte image, and a small note-taking layer on top.

pub mod checksum;
pub mod error;
pub mod values;
pub mod format;
pub mod store;
pub mod laws;
pub mod notes;
pub mod pageviews;
pub mod editing;
pub mod browse;

pub use error::{DecodeError, KvError, KvResult};
pub use store::{BorrowedEntry, KvStore, StoreIter};
pub use values::{BorrowedValue, Key, OwnedValue};
