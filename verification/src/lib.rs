//! An embedded, transactional, encrypted key-value store.
//!
//! A caller opens a database at a filesystem path, optionally protected by a
//! passphrase, and performs point reads, writes, deletes and ordered prefix
//! scans, grouped into explicit multi-operation transactions. The store also
//! produces and consumes a portable, encrypted, framed backup stream.
//!
//! The heart of the crate is the [`storage::Storage`] facade. It composes the
//! ordered engine ([`engine`]), the password policy ([`policy`]), the
//! envelope crypto ([`crypto`]), the transaction registry ([`registry`]) and
//! the backup codec ([`hexcodec`], [`framing`]); the guarantees that hold
//! across operations are stated and proved in [`laws`].

pub mod config;
pub mod crypto;
pub mod engine;
pub mod errors;
pub mod framing;
pub mod hexcodec;
pub mod kv_view;
pub mod laws;
pub mod order;
pub mod policy;
pub mod registry;
pub mod storage;
