//! A minimal storage-I/O core: a verified model of the capability contract a
//! log/storage engine relies on — creating, opening, renaming and deleting
//! backing files by path, and obtaining cursor streams over a shared file
//! handle.
//!
//! The model keeps the whole observable state of the layer — the directory,
//! the file contents, the open descriptors and the cursor streams built over
//! them — as plain data, and every operation carries a contract pinning down
//! how it moves that state. The host bindings that perform real file I/O are
//! not part of the verified core; they attach to [`access::DefaultFileSystem`]
//! from the outside.

pub mod access;
pub mod laws;
pub mod storage;
