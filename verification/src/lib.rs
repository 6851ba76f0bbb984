//! A read-only object store and revision walker for a content-addressed
//! version-control repository.
//!
//! The store is held in memory file by file ([`db::Database`]); its records
//! are inflated and decoded into commits and trees ([`objects`]). A walk
//! ([`revision::RevList`]) starts at branch heads ([`refs::Refs`]), hands out
//! the commits they reach by descending time, and then the entries of the
//! trees of those commits, each entry where its identifier is met first.
//!
//! Every function carries a contract over a mathematical model of its data,
//! and the theorems in [`proofs`] and [`termination`] state what holds of
//! every walk.
pub mod db;
pub mod objects;
pub mod priority_queue;
pub mod proofs;
pub mod read;
pub mod refs;
pub mod repo;
pub mod revision;
pub mod termination;
pub mod text;
