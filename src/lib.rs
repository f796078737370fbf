//! An optimizing middle end for the eight-instruction tape language, with
//! machine-checked contracts:
//!
//! - `chunk_list`: the bucketed sequence that holds instructions;
//! - `ir`: the instruction set, parsing, the bracket check, run fusion, idiom
//!   recognition and bracket matching;
//! - `interpret`: the tape machine, one instruction per step;
//! - `assembly`: the flat-assembler listing of a program;
//! - `semantics`: what the rewritten templates compute on the machine.

pub mod chunk_list;
pub mod ir;
pub mod interpret;
pub mod assembly;
pub mod semantics;
