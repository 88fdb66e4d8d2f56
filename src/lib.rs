//! A content-addressed version control engine: object store, blob and tree
//! encoding, staging, commits, three-way merge, garbage collection and a
//! read-only filesystem view.
pub mod encoding;
pub mod compression;
pub mod hashing;
pub mod table;
pub mod error;
pub mod store;
pub mod blob;
pub mod tree;
pub mod order;
pub mod index;
pub mod commit;
pub mod chunker;
pub mod staging;
pub mod builder;
pub mod history;
pub mod gc;
pub mod merge;
pub mod vfs;
pub mod config;
pub mod repo;
