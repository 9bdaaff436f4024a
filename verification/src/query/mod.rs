//! The query language and its execution.

pub mod ast;
pub mod catalog;
pub mod engine;
pub mod error;
pub mod executor;
pub mod functions;
pub mod grammar;
pub mod interval;
pub mod laws;
pub mod lexer;
pub mod meaning;
pub mod optimizer;
pub mod order;
pub mod parser;
pub mod planner;
pub mod spelled;
pub mod written;
