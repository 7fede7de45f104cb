//! Error types for map parsing and hull construction.

use vstd::prelude::*;

verus! {

/// A parse failure, with the byte offset it was detected at and the
/// grammar rule that failed there.
#[derive(Clone, Debug, PartialEq, Eq)]
pub struct ParseError {
    /// Offset into the input text (in characters) where parsing failed.
    pub offset: usize,
    /// Name of the grammar rule that could not be matched.
    pub rule: &'static str,
}

impl ParseError {
    pub fn new(offset: usize, rule: &'static str) -> (r: ParseError)
        ensures
            r == (ParseError { offset, rule }),
    {
        ParseError { offset, rule }
    }
}

/// Why attaching a point to the mesh was refused. The mesh is left
/// untouched whenever one of these is returned.
#[derive(Clone, Copy, Debug, PartialEq, Eq, Structural)]
pub enum AttachError {
    /// The set of faces to replace was empty, referenced a missing or
    /// dead face, or listed the same face twice.
    InvalidLightSet,
    /// The point index is out of range or already a vertex of the mesh.
    InvalidPoint,
    /// The boundary of the replaced region does not decompose into
    /// simple disjoint cycles, so patching it would tear the mesh.
    InconsistentHorizon,
}

} // verus!
