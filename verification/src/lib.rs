//! A schema-driven binding engine for a JSON-based vocabulary.
//!
//! A declarative schema of types, inheritance relations and property
//! cardinality rules is compiled once into a table of per-type bindings;
//! every binding then decodes JSON value trees into typed values and encodes
//! them back, reproducing the wire conventions of the vocabulary: scalar /
//! list collapsing by cardinality, language-tagged value maps, polymorphic
//! tagged envelopes, reference-or-inline values and `@context` shapes.

pub mod bindings;
pub mod codec;
pub mod context;
pub mod error;
pub mod iri;
pub mod json;
pub mod keymap;
pub mod primitives;
pub mod resolve;
pub mod schema;
pub mod unit;
pub mod values;
pub mod xsd;

pub use bindings::compile_schema;
pub use bindings::BindingTable;
pub use codec::decode;
pub use codec::encode;
pub use error::DecodeError;
pub use error::SchemaError;
pub use json::Json;
pub use schema::Schema;
pub use values::ObjectValue;
pub use values::Value;
