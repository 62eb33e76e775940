//! Data shared between the chunker and the scoring and enrichment stages.
use vstd::prelude::*;

verus! {

/// A single chunk of source text, with enough provenance to trace a scored
/// term back to where it came from.
pub struct Chunk {
    /// The chunk's characters.
    pub text: String,
    /// The path of the source file, as text.
    pub source_path: String,
    /// The 1-indexed line on which the chunk starts, where known.
    pub source_line: Option<usize>,
}

} // verus!
