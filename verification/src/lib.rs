//! A small version-control system in the style of Git: blobs, commits,
//! a staging index, branches and merges, with the repository's rules
//! stated and proved over an in-memory model of the `.gitlet` store.

pub mod text;
pub mod filemap;
pub mod utils;
pub mod codec;
pub mod blob;
pub mod commit;
pub mod index;
pub mod gitlet_exception;
pub mod dumpable;
pub mod repository;
pub mod merge;
pub mod command;
pub mod laws;
