//! A parsing machine for Parsing Expression Grammars.
//!
//! The crate has two halves.  `parser` reads the textual grammar
//! language and produces an abstract syntax tree (`ast`), while `vm`
//! is a bytecode interpreter that matches input text against compiled
//! grammar programs, with ordered choice, backtracking, bounded left
//! recursion and structured capture of matched values.  `format`
//! renders captured values as text.

use vstd::prelude::*;

pub mod ast;
pub mod format;
pub mod parser;
pub mod text;
pub mod vm;

verus! {

/// Top-level error: either the grammar text could not be parsed, or a
/// match run by the virtual machine failed.
#[derive(Debug)]
pub enum Error {
    ParserError(parser::Error),
    RuntimeError(vm::Error),
}

impl From<parser::Error> for Error {
    fn from(e: parser::Error) -> (r: Self) {
        Error::ParserError(e)
    }
}

impl vstd::std_specs::convert::FromSpecImpl<parser::Error> for Error {
    open spec fn obeys_from_spec() -> bool {
        true
    }

    open spec fn from_spec(e: parser::Error) -> Self {
        Error::ParserError(e)
    }
}

impl From<vm::Error> for Error {
    fn from(e: vm::Error) -> (r: Self) {
        Error::RuntimeError(e)
    }
}

impl vstd::std_specs::convert::FromSpecImpl<vm::Error> for Error {
    open spec fn obeys_from_spec() -> bool {
        true
    }

    open spec fn from_spec(e: vm::Error) -> Self {
        Error::RuntimeError(e)
    }
}

} // verus!
