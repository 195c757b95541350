//! A schema-driven binary message encoding: the wire format of the generated
//! messages, and the generator that turns a schema into Rust code.
pub mod code;
pub mod schema;
pub mod schema_laws;
