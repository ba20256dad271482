//! A warm pool of sandbox containers for a compile service.
//!
//! The pool keeps a bounded number of pre-started sandbox containers ready
//! to be checked out by request handlers, recycles them on release, and
//! guarantees that every tracked sandbox is handed back for cleanup on
//! shutdown. This crate holds the pool's state machine and the pure
//! request/response model; the process that drives it performs the actual
//! container and filesystem work.

pub mod compile;
pub mod docker_pool;
