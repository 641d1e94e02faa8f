//! Typed and generic models of robot/simulation description documents.
//!
//! - `document`: the generic, name-indexed element tree that holds content
//!   no schema fixes (plugin bodies).
//! - `events`: reading that tree from, and writing it to, a stream of start,
//!   text and end events; plugins.
//! - `text`: white-space tokens and decimal integers.
//! - `codec`: fixed-width vectors and poses in their text form.
//! - `geometry`: the shape of an object, chosen by tag.
//! - `schema`: the model of schema declarations.
//! - `compiler`: the types that a set of schema files compiles to.
//! - `boxed`: the indirection that lets a type contain itself.
pub mod boxed;
pub mod codec;
pub mod compiler;
pub mod document;
pub mod events;
pub mod geometry;
pub mod schema;
pub mod text;

pub use boxed::Boxed;
pub use codec::{
    fixed_fields, format_int_fields, parse_int_fields, CodecError, PoseText, RotationText,
    SdfPose, Vector3i,
};
pub use compiler::{
    compile, field_type_text, generate_types, sanitize_field, storage_type, BaseType, FieldDef, FieldKind,
    SchemaError, StorageType, TypeDef, Wrapper,
};
pub use document::{DataView, ElementData, ElementMap, ElementView, XmlElement};
pub use events::{
    depth_after, parse_children_at, parse_element_at, write_element_events, DocEvent,
    DocumentError, EventView, SdfPlugin,
};
pub use geometry::{shape_kind, SdfFrame, SdfGeometry, ShapeKind};
pub use schema::{Cardinality, SchemaAttribute, SchemaElement, SchemaInclude};
pub use text::{append_i64_text, is_space, parse_i64, split_whitespace};
