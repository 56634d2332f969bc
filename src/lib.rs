//! An in-memory JSON document store whose top-level keys are scalar resources
//! or id-indexed collections, with a query engine over collections and the
//! decisions of a persistence manager that flushes the document to disk.

pub mod config;
pub mod error;
pub mod json;
pub mod persist;
pub mod query;
pub mod routes;
pub mod store;
pub mod text;
pub mod upload;
