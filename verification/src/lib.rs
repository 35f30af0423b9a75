//! Analysis of submitted texts, a store of the analyses keyed by content
//! hash, and queries over the store by typed filters or by free text.

pub mod config;
pub mod digest;
pub mod filters;
pub mod json;
pub mod query;
pub mod record;
pub mod store;
pub mod text;
