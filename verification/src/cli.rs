//! The command-line options as plain data: either an interactive
//! session, or a single expression to execute. Argument parsing itself
//! is I/O plumbing and lives outside the library.
use vstd::prelude::*;

verus! {

/// Which way the calculator runs: interactively, or on one expression
/// (`expr` holds it).
/// Exactly one of the two is meant to be chosen.
pub struct Mode {
    pub interactive: bool,
    pub expr: Option<String>,
}

/// The parsed command line.
pub struct Cli {
    pub mode: Mode,
}

} // verus!
