//! A content-addressed chunk cache with deduplication and garbage collection.
//!
//! Archive byte streams are split into content-defined chunks, compressed,
//! and stored once per distinct chunk content. Committed archive entries hold
//! manifests of chunk references; reference counts are kept consistent with
//! the committed manifests, and a sweep reclaims entries past their cache's
//! retention policy together with chunks that become unreferenced, while
//! upload leases protect chunks of in-flight uploads from reclamation.

pub mod chunking;
pub mod codec;
pub mod gc;
pub mod laws;
pub mod model;
pub mod server;
pub mod store;
