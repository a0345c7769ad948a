//! Verified core of the Nudge compiler toolchain.

pub mod a2a;
pub mod ast;
pub mod check;
pub mod cost;
pub mod dap;
pub mod decimal;
pub mod digits;
pub mod json;
pub mod lexer;
pub mod lint;
pub mod lsp;
pub mod grammar;
pub mod parser;
pub mod text;
pub mod tracecheck;
pub mod typing;
pub mod tracediff;
pub mod traceview;
