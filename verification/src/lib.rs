//! An embedded, single-process content-versioning engine.
//!
//! Payload versions are recorded as a content-addressed DAG with CRDT
//! semantics on top: every piece of content has an immutable genesis node
//! whose identifier names the content family, later versions are appended
//! as child nodes, and concurrent branches are reconciled by a pluggable
//! merge policy (last-write-wins by default).

pub mod cid;
pub mod codec;
pub mod crdt_state;
pub mod dag;
pub mod dag_node;
pub mod entry;
pub mod errors;
pub mod metadata;
pub mod node;
pub mod operation;
pub mod order;
pub mod policy;
pub mod reducer;
pub mod repo;
pub mod resolver;
pub mod store;
pub mod timestamp;
