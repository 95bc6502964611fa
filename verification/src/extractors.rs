//! Sources of raw token material: a snapshot of recent corpus entries, or a
//! coverage-differential search between a parent input and its mutated child.

pub mod corpus;
pub mod mutation_delta;

pub use corpus::CorpusExtractor;
pub use mutation_delta::CoverageClass;
pub use mutation_delta::DeltaSearch;
pub use mutation_delta::MutationDeltaExtractor;

use vstd::prelude::*;

verus! {

/// The configured extractor of one discovery stage.
pub enum Extractor {
    Corpus(CorpusExtractor),
    MutationDelta(MutationDeltaExtractor),
}

impl Extractor {
    pub fn name(&self) -> (r: &'static str)
    {
        match self {
            Extractor::Corpus(e) => e.name(),
            Extractor::MutationDelta(e) => e.name(),
        }
    }
}

} // verus!
