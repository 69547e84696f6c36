//! An authenticated, append-mostly record store.
//!
//! The library keeps per-user profiles (an opaque encrypted blob, a
//! reputation score and a list of uploaded file records) and named group
//! ("network") accounts that track membership and a shared file list.
//! Records live in a key-value record store keyed by derived addresses;
//! five transitions (`initialize_user`, `add_file`, `create_network`,
//! `join_network`, `update_elo`) validate authorization and invariants,
//! then read, modify and write one record atomically.

pub mod address;
pub mod codec;
pub mod keys;
pub mod laws;
pub mod records;
pub mod store;
pub mod transitions;
