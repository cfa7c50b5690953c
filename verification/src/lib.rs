//! A two-pass assembler for the Hack instruction set.
//!
//! The pipeline cleans the source lines, classifies each one as an A-, C- or
//! L-command, seeds a symbol table with the predefined names and the labels,
//! and then emits one 16-character binary line per A/C command, allocating RAM
//! addresses for variables on first sight.
pub mod assembler;
pub mod ast;
pub mod bytes;
pub mod encode;
pub mod laws;
pub mod parse;
pub mod symbols;
pub mod tables;

pub use assembler::{assemble, assemble_checked};
