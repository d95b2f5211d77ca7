//! Selects the tests that are affected by a set of changed source files, by
//! static analysis of the import graph of a script-language source tree.
//!
//! The crate has two coupled parts: an import extractor, which turns the
//! import-bearing constructs of one parsed source file into a deduplicated
//! set of module specifiers plus diagnostics, and an affected-set engine,
//! which explores the import graph breadth-first from the test roots,
//! resolves each specifier, and propagates the "affected" property from the
//! changed files back through their transitive importers.

use vstd::prelude::*;

pub mod affected;
pub mod extract;
pub mod graph;
pub mod paths;
pub mod resolver;

verus! {

/// The result of one affected-set run: the diagnostics gathered along the
/// way and the test files (caller strings, verbatim) found to be affected.
pub struct AffectedReturn {
    pub errors: Vec<String>,
    pub files: Vec<String>,
}

/// The shape in which a front end reports a run: the affected test paths,
/// and one optional error string.
pub struct AffectedResult {
    pub paths: Vec<String>,
    pub error: Option<String>,
}

} // verus!
