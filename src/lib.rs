//! Relationship graph and query engine over versioned element models.
pub mod json;
pub mod cubs_model;
pub mod element_connector;
pub mod relationship_viewer;
pub mod decimal;
pub mod query;
pub mod model_error;
pub mod cache;
pub mod model_dict;
pub mod parser;
pub mod status;
pub mod pointer;
