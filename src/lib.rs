//! Aggregation of per-version release notes into one document.
//!
//! The pipeline runs forward: `select` picks the releases, `sections` splits
//! each body into sections, `merge` combines them (by version or by line),
//! and `render` writes the document. `version` orders tags, `release` holds
//! the records and their dates, `index` the name-to-list association that
//! the stages pass on, and `laws` the properties that relate them.

pub mod text;
pub mod order;
pub mod version;
pub mod index;
pub mod sections;
pub mod release;
pub mod select;
pub mod merge;
pub mod render;
pub mod laws;
