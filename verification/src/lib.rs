//! An embeddable, persistent key-value store for UTF-8 string keys and
//! values.
//!
//! Durability comes from appending every mutation to a log file; reads are
//! served through an in-memory index that maps each live key to the byte
//! range of its most recent `Set` record in some log. Superseded bytes are
//! reclaimed by compaction, which rewrites live records into a fresh log.
//!
//! The crate verifies the storage engine: the record codec, the index, the
//! multi-log version management, recovery, and compaction. The engine models
//! the log directory as a ghost map from version numbers to file contents;
//! an embedder performs the actual file operations and keeps the real
//! directory in step with the bytes the engine hands out.

mod codec;
mod errors;
mod index;
mod kvio;
mod logdir;
mod replay;
mod store;

pub use codec::{Command, Record};
pub use codec::{decode_record, encode_record};
pub use errors::KvsError;
pub use index::CommandPosition;
pub use kvio::{KvsReader, KvsWriter};
pub use logdir::{log_path, version_list};
pub use store::{CompactionOutcome, KvOpts, KvStore, LogFile, MAX_STALE_BYTES};
