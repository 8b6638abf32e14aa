//! A log-structured key-value store: every write is appended to a segment
//! file, an in-memory key directory maps each live key to the place of its
//! latest record, and compaction rewrites the live records into one fresh
//! segment.
//!
//! The store decides and keeps the books; it never touches a file. `open`
//! takes the segments that the directory holds, and `open`, `set` and
//! `remove` each return the [`Action`]s that bring the directory in line with
//! the store: the caller carries them out in order. Where one of them fails,
//! `settle` takes the store back to what the directory holds and returns the
//! actions that clean up. `get` says where the record of a key lies, and
//! [`read_value`] decodes what the caller read there.
//!
//! A record is the JSON text of its command, `{"Set":[key,value]}` or
//! `{"Remove":key}`, and the records of a segment lie back to back.
//!
//! The contracts speak of the directory as a map from segment identifier to
//! bytes. A store is well formed when replaying that directory gives exactly
//! its key directory and its count of dead bytes; every operation keeps it
//! so, and the module `laws` states what follows for a reader.

pub mod action;
pub mod compaction;
pub mod error;
pub mod keydir;
pub mod laws;
pub mod name;
pub mod order;
pub mod record;
pub mod replay;
pub mod store;

pub use action::Action;
pub use error::KvError;
pub use keydir::{KeyDir, KeyDirValue};
pub use name::{log_path, segment_id};
pub use record::Command;
pub use replay::{replay_log, Replayed, Segment};
pub use store::{read_value, KvStore, COMPACT_THRESHOLD};
