//! A file index for a tree of media files: which entries of a directory are
//! indexed, the identifier and the tags each file gets, the store that holds
//! the records, and the single-writer server that answers requests against it.
//!
//! Everything here works on plain values. Reading directories, writing files
//! and encoding records are left to the caller, who hands in what was found on
//! disk and carries out the effects that the server asks for.

pub mod identity;
pub mod index;
pub mod metadata;
pub mod path;
pub mod scan;
pub mod server;
pub mod tags;
pub mod text;
