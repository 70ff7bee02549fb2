//! Code navigation over mixed Kotlin and Java source trees: occurrence
//! extraction from syntax trees, a symbol index, cross-reference resolution
//! and the usage and definition queries.

pub mod assemble;
pub mod error;
pub mod extract;
pub mod gradle;
pub mod index;
pub mod java;
pub mod kotlin;
pub mod laws;
pub mod query;
pub mod resolve;
pub mod scope;
pub mod syntax;
pub mod text;
pub mod xref;
