use vstd::prelude::*;

pub mod asm_lines;
pub mod assembler;
pub mod assoc;
pub mod debugger;
pub mod disassembler;
pub mod encode;
pub mod fmt;
pub mod includes;
pub mod interpreter;
pub mod layout;
pub mod le;
pub mod linker;
pub mod macros;
pub mod masi;
pub mod natives;
pub mod number;
pub mod parse;
pub mod register_map;
pub mod tables;
pub mod text;
pub mod vm;

verus! {

} // verus!
