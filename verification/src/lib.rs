//! Front end of a small-language compiler: a source registry with
//! line/column resolution, a byte-level tokenizer, a recursive-descent
//! parser with error recovery, and a diagnostics log threaded through all
//! of them.

pub mod compiler;

pub use compiler::Compiler;
pub use compiler::SourceFile;
pub use compiler::SourceSpan;

pub mod ast;

pub mod front;
