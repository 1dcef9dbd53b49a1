//! Reading and writing constant databases.
//!
//! A constant database is an associative array from byte-string keys to
//! byte-string values that is built once and afterwards only read. A key
//! may carry several values; they are found again in the order in which
//! they were added.
//!
//! The file starts with a directory of 256 entries, one per hash bucket,
//! followed by the records and then by one open-addressed hash table per
//! bucket. Every structural field is a little-endian 32-bit integer, so a
//! database is at most `0xffff_ffff` bytes long.

pub mod error;
pub mod hash;
pub mod layout;
pub mod reader;
pub mod roundtrip;
pub mod table;
pub mod uint32;
pub mod writer;

pub use error::Error;
pub use reader::{CDBIter, CDBKeyValueIter, CDBValueIter, CDB};
pub use writer::{CDBMake, CDBWriter};
