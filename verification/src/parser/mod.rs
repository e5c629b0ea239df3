//! The description language: its syntax tree, its grammar and its parser.

pub mod ast;
pub mod grammar;
pub mod syntax;

pub use ast::{Definition, Invocation, InvocationNode, ResolutionTable};
pub use grammar::{parse, ParseError};
