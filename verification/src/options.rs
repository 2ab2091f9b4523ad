//! The commands of the program and their arguments.
use vstd::prelude::*;

verus! {

/// A command of the program with its arguments; paths are given as text.
#[derive(Debug)]
pub enum Options {
    /// Checks whether the keys in the source file/directory align with the
    /// base file.
    Verify { base: String, source: String, recursive: bool, strict: bool },
    /// Checks whether the templates used in the source file/directory align
    /// with the base file.
    VerifyTemplates { base: String, source: String, recursive: bool },
    /// Sorts the keys in source after the order used in base.
    Sort { base: String, source: String, recursive: bool },
    /// Finds all differences between base and source.
    Diff {
        base: String,
        source: String,
        recursive: bool,
        fix: bool,
        output: Option<String>,
    },
}

} // verus!
