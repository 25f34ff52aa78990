//! Driver configuration: the source file to compile, the name of the
//! executable to produce, and which intermediate artifacts to dump.
//!
//! The library only carries these values; a driver fills them from its
//! command line and acts on them.

use vstd::prelude::*;

verus! {

/// Settings for one compiler run.
#[derive(Debug, PartialEq, Eq)]
pub struct Config {
    /// The name of the source code file.
    pub input_file_name: String,
    /// Dump the AST to a file.
    pub dump_ast: bool,
    /// File name to which the AST should be dumped.
    pub ast_out_name: String,
    /// Dump the tokens to a file.
    pub dump_tokens: bool,
    /// File name to which the tokens should be dumped.
    pub tokens_out_name: String,
    /// Dump the emitted C code to a file.
    pub dump_c: bool,
    /// File name to which the C code should be dumped.
    pub c_out_name: String,
    /// Name of the executable the driver hands to the native compiler.
    pub output_exe_name: String,
}

} // verus!
