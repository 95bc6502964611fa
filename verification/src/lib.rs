//! Token discovery for a coverage-guided byte-level fuzzer.
//!
//! The crate mines short, recurring byte substrings ("tokens") from a corpus
//! of interesting inputs via a suffix-array/LCP scan, refines the candidates
//! through a pipeline of processors, and stores the survivors in a bounded,
//! success-weighted dictionary consumed by token-aware mutation operators.

pub mod bytes;
pub mod common_substring_discovery;
pub mod config;
pub mod extractors;
pub mod processors;
pub mod rands;
pub mod ratio;
pub mod shared_token_storage;
pub mod smart_token_mutations;
pub mod strategies;
pub mod suffix;
pub mod token_discovery_stage;
pub mod token_mutator;
