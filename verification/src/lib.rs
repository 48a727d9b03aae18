//! Translation of annotated type declarations into a proto3 schema document.
//!
//! The crate resolves textual type expressions (scalars, containers,
//! optionals, maps, references to other declared types) into proto3
//! primitives, assembles fields and enum variants with their assigned
//! numbers, and renders the accumulated entities as schema text.

pub mod parser;
pub mod text;
pub mod types;
pub mod utils;
