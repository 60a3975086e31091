//! Password-protected archive container.
//!
//! The crate turns a directory tree, presented as a sequence of entries with
//! in-memory contents, into a single encrypted and optionally compressed byte
//! stream, and reverses the process.  The key is derived from a password with
//! a memory-hard function; every chunk of the stream is authenticated, so any
//! tampering or a wrong password aborts the decode.  Stored paths are
//! normalized and validated so that replaying them onto a filesystem cannot
//! escape the extraction root.
pub mod archive;
pub mod compress;
pub mod crypto;
pub mod entry;
pub mod error;
pub mod header;
pub mod path;
pub mod wire;
