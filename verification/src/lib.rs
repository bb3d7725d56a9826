//! A small incremental build engine: a makefile reader, the bookkeeping that
//! decides whether a key must be rebuilt, a pool of idle database
//! connections, and a fingerprint of a file's metadata.

pub mod makefile;
pub mod state;
pub mod connection_pool;
pub mod file_status;
