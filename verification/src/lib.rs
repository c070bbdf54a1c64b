use vstd::prelude::*;

pub mod ast;
pub mod cli;
pub mod codegen_types;
pub mod diagnostics;
pub mod driver;
pub mod grammar;
pub mod install;
pub mod lexer;
pub mod module_system;
pub mod multi_source;
pub mod names;
pub mod parser;
pub mod readings;
pub mod runtime;
pub mod sema;
pub mod sorting;
pub mod span;
pub mod string_interp;
pub mod text;
pub mod token;

verus! {

} // verus!
