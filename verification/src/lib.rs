//! An authenticated key-value store handle with atomic batched mutation,
//! chunked snapshot transfer, and independent proof verification.
//!
//! A store's identity is its root digest: the SHA-256 digest of the store's
//! canonical snapshot, the entries in strictly ascending key order under a
//! length-prefixed encoding. Everything the crate promises hangs off that
//! commitment:
//!
//! - [`store::MerkHandle`] owns the contents and mediates all access: reads,
//!   atomic [`store::Batch`] commits, snapshot and chunk production, and the
//!   open/closed/destroyed lifecycle.
//! - [`restore::Restorer`] reassembles a store from chunks delivered in
//!   order and publishes it only if the rebuilt snapshot hashes to the
//!   target digest it was constructed with.
//! - [`verify::verify_proof`] checks a proof against an expected root digest
//!   and answers each queried key with its authenticated value or its
//!   authenticated absence, without access to a live store.
//!
//! Durability is deliberately left to the caller: a store opens from and
//! serializes to plain snapshot bytes, and whatever reads or writes those
//! bytes (a file, a socket) stays outside the verified library.

pub mod bytes;
pub mod digest;
pub mod error;
pub mod kv;
pub mod ops;
pub mod codec;
pub mod chunks;
pub mod store;
pub mod restore;
pub mod verify;
