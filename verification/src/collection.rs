//! Document collections: metadata filters, full-text analysis and the index
//! that ties them together.

pub mod api;
pub mod documents;
pub mod filter;
pub mod filter_laws;
pub mod flatten;
pub mod index;
pub mod keys;
pub mod laws;
pub mod metadata_laws;
pub mod mirror;
pub mod opening;
pub mod options;
pub mod persist;
pub mod places;
pub mod ranking;
pub mod records;
pub mod request_laws;
pub mod scalar;
pub mod search;
pub mod search_laws;
pub mod text;
pub mod text_laws;
pub mod wire;
