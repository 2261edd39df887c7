//! A JSON Schema validator: a lexer and parser for JSON text, a compiler from
//! JSON values to schema trees, and a validator that walks a schema tree and an
//! instance together, recording annotations.
pub mod json;
pub mod schema;
