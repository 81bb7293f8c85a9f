//! A log-structured, single-file key-value storage engine: an append-only
//! record log plus an in-memory index (the KeyDir) of the live keys' value
//! locations. This crate verifies the engine's logic over the log's byte
//! content; the surrounding application owns the actual file handle and
//! mirrors the appended bytes to disk.

pub mod codec;
pub mod keydir;
pub mod log;
pub mod mini_bitcask;
pub mod order;
pub mod scan_iter;

pub use crate::codec::{KEY_VAL_HEADER_LEN, MAX_VALUE_LEN};
pub use crate::keydir::{KeyDir, KeyDirEntry};
pub use crate::log::{Error, Log};
pub use crate::mini_bitcask::MiniBitcask;
pub use crate::scan_iter::{ScanBound, ScanIterator};
