//! Tools for JSON Schemas: a grammar reference of a schema, placeholder values for it, and
//! a session in which a JSON body is built from it.
//!
//! - `document` renders a schema as a compact grammar, one production to a type.
//! - `generate` gives a placeholder value for a schema.
//! - `session` is the interactive builder: a tree of fields, and what each key does to it.
//!
//! The three read schemas by the same helpers, in `schema`, `naming` and `properties`, so
//! that they interpret a schema alike.

pub mod agree;
pub mod colour;
pub mod document;
pub mod finite;
pub mod generate;
pub mod generate_laws;
pub mod grammar_laws;
pub mod json;
pub mod laws;
pub mod names;
pub mod naming;
pub mod node;
pub mod ordinary;
pub mod present;
pub mod production;
pub mod properties;
pub mod reach;
pub mod reading_laws;
pub mod render;
pub mod row_laws;
pub mod rows;
pub mod schema;
pub mod screen;
pub mod screen_laws;
pub mod session;
pub mod session_laws;
pub mod settled;
pub mod sound;
pub mod style;
pub mod text;
pub mod tree;
pub mod tree_laws;
pub mod usage;
pub mod value_laws;

pub use document::render_body_schema;
pub use generate::{generate_value, try_generate_value};
pub use json::{display_value, Json};
pub use naming::{ref_name, snake_case, string_format_name};
pub use properties::{detect_tag, order_properties};
pub use schema::{
    instance_type, is_multi_variant, is_null_schema, item_schema, non_null_variants, root_title,
    scalar_type_name, transparent_inner, Defs, RootSchema, Schema, SchemaObject,
};
pub use session::{App, Outcome};
