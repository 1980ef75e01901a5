//! A context-partitioned task store.
//!
//! Tasks are grouped under caller-supplied context keys. Two interchangeable
//! backends implement the same capability set: a single-document local store
//! and a document-store model that mirrors a remote collection layout. Both
//! share the task data model, the bounded undo queues, and the ordering
//! operations, and both carry contracts that pin their behaviour down.

mod clock;
pub mod config;
pub mod ctx;
pub mod docstore;
pub mod git;
pub mod local;
pub mod model;
pub mod store;
pub mod task;
pub mod todo;
