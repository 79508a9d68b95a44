//! A per-owner document store with owner-scoped identifiers,
//! authorization-gated mutation and tag-based retrieval.
//!
//! Content and metadata are opaque byte blobs (already encrypted by the
//! caller); the store never inspects them.  The host environment supplies
//! two capabilities as plain values on each mutating call: the verdict of
//! its authorization check for the claimed owner, and the current value of
//! its monotonically non-decreasing clock.

pub mod document;
pub mod store;
pub mod laws;
