//! A schema-driven binary codec for compact typed records: a record schema, a
//! dispatcher between host values and typed values, a record builder, the
//! single-datum binary encoding, and field projection.

pub mod binary;
pub mod codec;
pub mod laws;
pub mod project;
pub mod record;
pub mod schema;
pub mod value;
pub mod wire;

pub use binary::Bin;
pub use codec::{EncodeError, decode, decode_datum, encode};
pub use project::{ProjectionError, project, project_one};
pub use record::{BuildError, RecordBuilder, TypedRecord, create_msg, to_map};
pub use schema::{FieldDecl, Schema, SchemaError, read_schema, schema_fields, schema_from_fields};
pub use value::{FieldError, FieldKind, HostValue, TypedValue, from_typed, to_typed};
pub use wire::DecodeError;
