//! An embedded, single-writer, persistent key-value store organized as a
//! B-tree of fixed-size pages over an append-only file image.
//!
//! Keys and values are opaque byte strings; keys are compared
//! lexicographically and are unique. The store works on an in-memory image
//! of the database file (see [`pager::Pager`]); an embedding program reads
//! the file into the image, runs operations, and writes the image back.

pub mod btree;
pub mod bytes;
pub mod codec;
pub mod db_records;
pub mod header;
pub mod kvs;
pub mod laws;
pub mod model;
pub mod node;
pub mod pager;
pub mod rebalance;
pub mod records;
pub mod route;
pub mod store;
pub mod validate;

