//! A schema-lowering library: it takes an already-parsed representation of a
//! GraphQL schema document and lowers it into a normalized, directive-resolved
//! configuration model, accumulating every semantic error instead of stopping
//! at the first one.

pub mod ast;
pub mod codec;
pub mod config;
pub mod laws;
pub mod lower;
pub mod namemap;
pub mod text;
pub mod valid;
