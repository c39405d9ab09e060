//! A content-addressed entry/link graph store.
//!
//! Typed records (aims, connections, profiles) are serialized by a
//! deterministic byte codec and kept in an append-only content store that
//! assigns each distinct byte string one address. Directed, typed links
//! between addresses are kept in an append-only link index. A query engine
//! resolves single-hop listings and two-hop "connected aim" traversals over
//! the index, dropping entries that are absent or fail to decode, and a
//! singleton resolver implements get-or-create semantics for one well-known
//! record per owner.

pub mod codec;
pub mod effort;
pub mod graph;
pub mod records;
pub mod store;
