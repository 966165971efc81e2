//! A log-structured, durable key-value store.
//!
//! Records (`Put` and `Rm`) are appended to numbered segment logs; an
//! in-memory index maps each key to the byte range of its latest `Put`
//! record.  Compaction rewrites the live set into a fresh segment and
//! retires every older one.  The store itself operates on in-memory segment
//! images; callers mirror the emitted file operations to disk and hand the
//! file contents back on open.

pub mod codec;
pub mod entry;
pub mod error;
mod index;
pub mod log;
pub mod numeral;
pub mod resource;
pub mod server;
pub mod store;

pub use entry::Entry;
pub use entry::EntryOffset;
pub use error::Error;
pub use resource::Request;
pub use resource::Response;
pub use server::KvsEngine;
pub use store::log_file_name;
pub use store::sort_segments;
pub use store::FileOp;
pub use store::KvStore;
pub use store::Segment;
