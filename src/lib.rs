//! Assembler, program encoder and commitment builder for a 2x2 grid of
//! small instruction-execution nodes.
pub mod text;
pub mod instruction;
pub mod assembler;
pub mod merkle;
pub mod cairo_abi;
