//! Codec for a legacy game-asset container: many named, optionally
//! bzip2-compressed blobs bundled into one binary archive file.
//!
//! Entries are addressed by a 32-bit hash of their name; the wire format is a
//! 6-byte outer size header, an entry count, a fixed-size descriptor table and
//! the concatenated data blocks, with size-field equality doubling as the
//! "not compressed" signal both for the whole container and per entry.

pub mod archive;
pub mod codec;
pub mod compress;
pub mod error;
pub mod hash;

pub use archive::Archive;
pub use error::ArchiveError;
pub use hash::entry_hash;
