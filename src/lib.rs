//! Compiler for a small language of global state cells: files of variables and constants,
//! linked by imports, compiled into one storage buffer and the shader that initializes it.
use vstd::prelude::*;

pub mod codegen;
pub mod compile;
pub mod deps;
pub mod grammar;
pub mod graph;
pub mod lexer;
pub mod literal;
pub mod logs;
pub mod messages;
pub mod parser;
pub mod paths;
pub mod program;
pub mod project;
pub mod text;
pub mod validate;

pub use compile::compile;
pub use logs::{Log, LogInner, LogLevel, LogLocation};
pub use program::{Buffer, BufferEntry, BufferField, BufferFields, GpuValue, Program};
pub use project::SourceFile;

verus! {

} // verus!
