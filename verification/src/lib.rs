//! A binary container format for bundling versioned collections of
//! fixed-size signature records ("objects") into a single database file
//! with random access per object.
//!
//! The on-disk layout is: a header (magic, version, object count, length,
//! opaque extra data), an object map translating object ids to absolute
//! byte offsets, and the concatenated raw objects themselves, each padded
//! out to a 16-byte boundary.

pub mod database;
pub mod formats;
pub mod header;
pub mod laws;
pub mod object;
pub mod object_map;
pub mod raw_database_file;
pub mod wire;

pub use database::{Database, LazyParsingError, Object, ObjectImpl};
pub use raw_database_file::DatabaseParseError;
