//! Declarative management of an OpenSSH server configuration: a keyword
//! registry, a parser and writer for the configuration grammar, a JSON
//! mapping, and the get / test / set reconciliation over the document model.

pub mod args;
pub mod bytes;
pub mod engine;
pub mod error;
pub mod input;
pub mod json;
pub mod json_laws;
pub mod laws;
pub mod literals;
pub mod model;
pub mod parser;
pub mod registry;
pub mod serializer;
pub mod text_laws;
pub mod wellformed;
pub mod wf_laws;
pub mod writer;
