//! A small regular-expression engine: a recursive-descent parser, a compiler
//! to a flat instruction sequence, and a backtracking machine that runs it.

pub mod compiler;
pub mod completeness;
pub mod embedding;
pub mod extent;
pub mod fragment;
pub mod halting;
pub mod laws;
pub mod machine;
pub mod matcher;
pub mod parser;
pub mod semantics;
pub mod soundness;
pub mod syntax;
pub mod text;
pub mod trace;

pub use compiler::{
    can_compile, compile, loops_advance, takes_characters, Char, Ins, Instruction, Position,
};
pub use matcher::{find, search, search_bounded, OutOfSteps};
pub use parser::{parse, RegExp};
