//! Persistence layer of a small task-tracking service: todo items, labels,
//! and the many-to-many association between them, behind storage-agnostic
//! repository contracts with an in-memory backend and the pure decision
//! logic of a relational backend.

#![verifier::loop_isolation(false)]

pub mod errors;
pub mod kv;
pub mod label;
pub mod laws;
pub mod memory;
pub mod model;
pub mod store;
pub mod todo;
pub mod validation;
