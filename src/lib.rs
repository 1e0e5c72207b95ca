//! Facet level index traversals and bulk-load conflict resolution for a
//! document search engine, with their contracts proved by Verus.
pub mod bitmap;
pub mod facet;
pub mod levels;
pub mod distribution;
pub mod sort_descending;
pub mod merge;
pub mod bulk;
pub mod json;
pub mod formats;
pub mod flatten;
