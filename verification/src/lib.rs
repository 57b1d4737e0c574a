//! In-memory keyspace: single writer, snapshot reads, revision-indexed change
//! enumeration, and watches on a table or the database.

pub mod big_endian;
pub mod bytes;
pub mod copies;
pub mod db;
pub mod entries;
pub mod keys;
pub mod leaf;
pub mod shape;
pub mod snapshot_tree;
pub mod tree;
pub mod tree_laws;
pub mod watch;
