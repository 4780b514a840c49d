//! Incremental, content-addressed synchronisation of a file tree into an archive.

pub mod digest;
pub mod laws;
pub mod sau64;
pub mod store;
pub mod sync;
