//! A read-mostly file store over a remote HTTP origin, with a chunk-aligned,
//! bounded LRU cache in front of it.
pub mod chunk;
pub mod directory;
pub mod error;
pub mod handle;
pub mod lengths;
pub mod table;
