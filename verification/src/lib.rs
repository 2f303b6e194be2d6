//! An embedded, in-memory document store whose secondary indices (unique,
//! tag, range and full-text) move in lock-step with the primary table.

pub mod concurrent;
pub mod document;
pub mod encoding;
pub mod datastore;
pub mod index;
pub mod text;
