//! An in-memory corpus store: typed annotation layers and content-addressed
//! documents, rebuilt from a generic key/value tree.
pub mod corpus;
pub mod document;
pub mod error;
pub mod layer;
pub mod reader;
pub mod tree;
