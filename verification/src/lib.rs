//! A reverse reachability index for content-addressed object stores.
//!
//! Given the digest of a blob (file content), the index answers which
//! commits reach that blob through their directory trees.  The index is
//! built by inverting the commit -> tree -> blob ownership graph into a
//! compact vertex/edge store, can be compacted and persisted, and is
//! queried with a reusable scratch stack.

pub mod digest;
pub mod dmap;
pub mod graph;
pub mod codec;
pub mod source;
pub mod lut;
pub mod config;
pub mod cache;
pub mod batch;
pub mod proto;
