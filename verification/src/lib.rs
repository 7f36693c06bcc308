//! A small register bytecode machine: instruction set, binary codec,
//! assembler front end, interpreter, and the block-level analysis
//! structures (leaders, control-flow graph, layout, data-flow graph) built
//! on top of it.

pub mod bytecode;
pub mod codec;
pub mod lexer;
pub mod assembler;
pub mod vm;
pub mod leaders;
pub mod cfg;
pub mod layout;
pub mod dfg;
