//! A local write-back cache with document merge.
//!
//! The crate models a flat string key-value store layered under typed
//! collections of records. Records are recursive string/map documents
//! with a deterministic text encoding, content-addressed identifiers,
//! a left-biased structural merge for reconciliation, change
//! notification for local mutations, and an identifier-set
//! reconciliation procedure against a remote store.

pub mod keys;
pub mod doc;
pub mod codec;
pub mod ident;
pub mod storage;
pub mod remote;
pub mod record;
pub mod media;
pub mod collection;
pub mod store;
pub mod crdt;
pub mod sync;
