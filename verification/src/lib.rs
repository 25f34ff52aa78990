//! Front end for a minimal arithmetic / variable-declaration language.
//!
//! Source text runs through four stages, each consuming the previous
//! stage's output in full: lexing ([`tokenizer`]), recursive-descent
//! parsing ([`ast`]), lowering to a flat instruction list ([`ir`]) and
//! textual emission of a C-like output program ([`cbackend`]).

pub mod ast;
pub mod cbackend;
pub mod config;
pub mod ir;
pub mod roundtrip;
pub mod tokenizer;

use vstd::prelude::*;

verus! {

/// Catch-all error a driver can surface when any pipeline stage fails.
#[derive(Debug, PartialEq, Eq, Clone, Copy)]
pub struct CompilerError;

impl CompilerError {
    /// Human-readable description of the failure.
    pub fn message(&self) -> (r: &'static str)
        ensures
            r@ == "something bad happenned..."@,
    {
        "something bad happenned..."
    }
}

} // verus!
