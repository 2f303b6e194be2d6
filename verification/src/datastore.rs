//! The document store, its field registry and its configuration.

pub mod config;
pub mod error;
pub mod indexer;
#[allow(clippy::module_inception)]
pub mod datastore;
