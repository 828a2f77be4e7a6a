//! Reader and writer for PBO archives: a flat, uncompressed container that
//! bundles a tree of files, plus a small key/value header, into one blob.

pub mod codec;
pub mod digest;
pub mod entries;
pub mod format;
pub mod glob;
pub mod hashes;
pub mod laws;
pub mod order;
pub mod pack;
pub mod pbo;
pub mod roundtrip;
