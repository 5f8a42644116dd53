//! A static markup compiler: a lexer for an HTML-like language, reusable
//! "blueprint" fragments, a bounded fixed-point expansion pass, and a
//! serializer back to text.
//!
//! - `parse`: the grammar as spec functions, and the lexer proved against it.
//! - `compile`: the blueprint store, span extraction, expansion, compilation
//!   passes and the driver with its size and pass guards.
//! - `render`: tokens back to text.
//! - `reparse`: what the serializer writes lexes back to the same tokens.
//! - `directives`, `macros`: the built-in directives and macros, minus the
//!   file reads and highlighting that happen outside the library.
//! - `trace`: errors with context frames.
//! - `assoc`, `text`: association lists and character utilities.

pub mod assoc;
pub mod compile;
pub mod directives;
pub mod macros;
pub mod parse;
pub mod render;
pub mod reparse;
pub mod text;
pub mod trace;
