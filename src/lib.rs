//! Core of a log-structured merge storage engine: write-ahead log records,
//! the memtable, data blocks, Bloom filters, the manifest and configuration.
use vstd::prelude::*;

pub mod block;
pub mod bloom;
pub mod bytes;
pub mod config;
pub mod manifest;
pub mod memtable;
pub mod wal;

pub use block::{Block, BlockBuilder, BlockError, BlockIterator, BLOCK_SIZE};
pub use bloom::BloomFilter;
pub use config::LSMConfig;
pub use manifest::{Level, Manifest, SSTableMetadata};
pub use memtable::{Memtable, MemtableEntry};
pub use wal::{crc32, decode_entry, decode_entry_at, decode_log, encode_entry, WalEntry, WalError};

verus! {

/// `std::io::Error`, carried opaquely by the error types of this crate.
#[verifier::external_type_specification]
#[verifier::external_body]
pub struct ExIoError(std::io::Error);

} // verus!
