//! A verified binary codec for the name-metadata section of a
//! WebAssembly-style module format.
//!
//! The crate is layered bottom-up: a bounded byte-stream abstraction
//! (`io`), a variable-length integer codec (`primitives`), a sparse
//! index-keyed map with bound-checked deserialization (`index_map`),
//! a minimal model of the surrounding module (`module`), and the
//! name-metadata subsystem itself (`name_section`). A small fluent
//! builder for value types lives in `builder`.

pub mod builder;
pub mod index_map;
pub mod io;
pub mod module;
pub mod name_section;
pub mod primitives;
