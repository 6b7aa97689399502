//! A storage-adapter abstraction: one capability contract through which
//! callers perform object operations (existence checks, read, write, delete,
//! directory emulation, metadata, move/copy, checksum) against interchangeable
//! backing stores, without knowing which backend is in use.
//!
//! The verified core is the abstraction layer itself: the path and content
//! value model, the error taxonomy that normalizes backend failures, the
//! decision logic each backend adapter applies around its network calls, and
//! an in-memory reference backend that realizes the full contract.

pub mod contents;
pub mod errors;
pub mod listing;
pub mod paths;
pub mod remote;
pub mod store;
pub mod visibility;
