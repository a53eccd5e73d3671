//! Kinds of edges between code units.

use vstd::prelude::*;

verus! {

/// How the source unit of an edge depends on its target.
#[derive(Debug, Clone, Copy, PartialEq, Eq, Hash, Structural)]
pub enum EdgeKind {
    /// The source calls the target.
    Call,
    /// The source reads the target.
    Read,
    /// The source writes the target.
    Write,
    /// The source is overridden or implemented by the target.
    OverriddenBy,
    /// The source is decorated or annotated by the target.
    Annotates,
}

} // verus!
