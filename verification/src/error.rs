//! The ways in which an operation of this library fails.

use vstd::prelude::*;

verus! {

/// Why an operation did not succeed. No failure ends the program: each is
/// handed back to the caller, who goes on with the next cgroup or Pod.
#[derive(Clone, Copy, Debug, PartialEq, Eq, Structural)]
pub enum WaspError {
    /// A membership file does not hold one record of the unified hierarchy.
    ParseError,
    /// No file or cgroup answers to the path, the pattern or the container.
    NotFound,
    /// No container of the Pod asks for swap.
    NoSwapResourceDeclared,
    /// A control file that had to be written is not there.
    IoError,
    /// A swap request is not a quantity of bytes that this library can read.
    InvalidQuantity,
    /// A pattern is one of those that are not handed to the matcher.
    PatternRefused,
}

} // verus!
