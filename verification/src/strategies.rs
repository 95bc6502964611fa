//! Multi-pass discovery strategies driven by configuration: iterated
//! suffix-array passes over the recent corpus, or the mutation-delta search.

use crate::common_substring_discovery::discovery_complete;
use crate::common_substring_discovery::find_common_substrings;
use crate::common_substring_discovery::mode_wf;
use crate::common_substring_discovery::token_selected;
use crate::common_substring_discovery::TokenSelectionMode;
use crate::extractors::MutationDeltaExtractor;
use crate::processors::views;
use crate::ratio::Ratio;
use vstd::prelude::*;

verus! {

/// Which selection rule a pattern pass applies.
#[derive(Debug, Clone, Copy, PartialEq, Eq, Structural)]
pub enum SelectionMode {
    Threshold,
    MinTokenCount,
}

/// One suffix-array pass: a length band and a selection rule.
#[derive(Debug, Clone, Copy, PartialEq, Eq, Structural)]
pub struct PatternPass {
    pub mode: SelectionMode,
    pub threshold: Ratio,
    pub token_count: usize,
    pub min_length: Option<usize>,
    pub max_length: Option<usize>,
}

impl PatternPass {
    /// The pass's selection mode with its parameter filled in.
    pub fn selection_mode(&self) -> (r: TokenSelectionMode)
        ensures
            r == self.selection_mode_spec(),
    {
        match self.mode {
            SelectionMode::Threshold => TokenSelectionMode::Threshold(self.threshold),
            SelectionMode::MinTokenCount => TokenSelectionMode::MinTokenCount(self.token_count),
        }
    }

    /// The selected mode.
    pub open spec fn selection_mode_spec(self) -> TokenSelectionMode {
        match self.mode {
            SelectionMode::Threshold => TokenSelectionMode::Threshold(self.threshold),
            SelectionMode::MinTokenCount => TokenSelectionMode::MinTokenCount(self.token_count),
        }
    }

    /// The pass's lower length bound, with the configured default.
    pub fn min_length(&self, default: usize) -> (r: usize)
        ensures
            r == (if self.min_length is Some {
                self.min_length->0
            } else {
                default
            }),
    {
        match self.min_length {
            Some(v) => v,
            None => default,
        }
    }

    /// The pass's upper length bound, with the configured default.
    pub fn max_length(&self, default: usize) -> (r: usize)
        ensures
            r == (if self.max_length is Some {
                self.max_length->0
            } else {
                default
            }),
    {
        match self.max_length {
            Some(v) => v,
            None => default,
        }
    }
}

/// The tokens are the outcome of one discovery pass with these exact
/// parameters over the (nonempty) corpus `inter`: the full discovery account
/// holds, the cut is the configured one for a fractional threshold, and every
/// token is sound for `inter` within the pass's length band.
pub open spec fn pass_result(
    inter: Seq<Seq<u8>>,
    mn: int,
    mx: int,
    mode: TokenSelectionMode,
    tokens: Seq<Seq<u8>>,
    cutoff: int,
) -> bool {
    &&& inter.len() > 0
    &&& discovery_complete(inter, mn, mx, mode, Seq::empty(), None, false, tokens, cutoff)
    &&& (mode matches TokenSelectionMode::Threshold(t) ==> cutoff == t.ceil_mul_spec(
        inter.len() as int,
    ))
    &&& forall|j: int|
        0 <= j < tokens.len() ==> token_selected(inter, #[trigger] tokens[j], mn, mx, cutoff)
    &&& forall|x: int, y: int| 0 <= x < y < tokens.len() ==> tokens[x] != tokens[y]
}

/// Some corpus and cut witness the tokens as a full pass outcome with these
/// parameters.
pub open spec fn pass_evidence(mn: int, mx: int, mode: TokenSelectionMode, tokens: Seq<Seq<u8>>) -> bool {
    exists|inter: Seq<Seq<u8>>, cutoff: int| #[trigger] pass_result(inter, mn, mx, mode, tokens, cutoff)
}

/// The pass's lower length bound, with the configured default (spec form).
pub open spec fn pass_min(p: PatternPass, default: int) -> int {
    if p.min_length is Some {
        p.min_length->0 as int
    } else {
        default
    }
}

/// The pass's upper length bound, with the configured default (spec form).
pub open spec fn pass_max(p: PatternPass, default: int) -> int {
    if p.max_length is Some {
        p.max_length->0 as int
    } else {
        default
    }
}

/// Iterated suffix-array discovery: the tokens of each pass are the corpus of
/// the next.
#[derive(Debug, Clone)]
pub struct SuffixArrayConfig {
    pub passes: Vec<PatternPass>,
}

impl SuffixArrayConfig {
    /// Every pass's bounds and mode are valid under the given defaults.
    pub open spec fn wf(self, default_min: int, default_max: int) -> bool {
        forall|p: int|
            0 <= p < self.passes@.len() ==> {
                let mn = if (#[trigger] self.passes@[p]).min_length is Some {
                    self.passes@[p].min_length->0 as int
                } else {
                    default_min
                };
                let mx = if self.passes@[p].max_length is Some {
                    self.passes@[p].max_length->0 as int
                } else {
                    default_max
                };
                1 <= mn <= mx && mode_wf(self.passes@[p].selection_mode_spec())
            }
    }

    /// Runs the configured passes in order over the corpus; aborts the cycle
    /// when a pass yields nothing. Every token of a successful run was
    /// selected by the final pass: it lies in that pass's length band and
    /// occurs in at least two distinct entries of that pass's input.
    pub fn iterative_token_discovery(
        &self,
        corpus: &Vec<Vec<u8>>,
        default_min_len: usize,
        default_max_len: usize,
    ) -> (r: Option<Vec<Vec<u8>>>)
        requires
            self.wf(default_min_len as int, default_max_len as int),
        ensures
            r is Some ==> self.passes@.len() > 0 && corpus@.len() > 0,
            r matches Some(v) ==> v@.len() > 0,
            r matches Some(v) ==> pass_evidence(
                pass_min(self.passes@.last(), default_min_len as int),
                pass_max(self.passes@.last(), default_max_len as int),
                self.passes@.last().selection_mode_spec(),
                views(v@),
            ),
    {
        if self.passes.len() == 0 || corpus.len() == 0 {
            return None;
        }
        let mut current: Vec<Vec<u8>> = Vec::new();
        let mut c: usize = 0;
        while c < corpus.len()
            invariant
                c <= corpus@.len(),
                current@.len() == c,
            decreases corpus.len() - c,
        {
            current.push(crate::bytes::clone_bytes(&corpus[c]));
            c += 1;
        }
        let mut p: usize = 0;
        let ghost mut found_inter: Seq<Seq<u8>> = Seq::empty();
        let ghost mut found_cut: int = 0;
        while p < self.passes.len()
            invariant
                p <= self.passes@.len(),
                self.wf(default_min_len as int, default_max_len as int),
                p == 0 ==> current@.len() > 0,
                p > 0 ==> current@.len() > 0 && pass_result(
                    found_inter,
                    pass_min(self.passes@[p - 1], default_min_len as int),
                    pass_max(self.passes@[p - 1], default_max_len as int),
                    self.passes@[p - 1].selection_mode_spec(),
                    views(current@),
                    found_cut,
                ),
            decreases self.passes.len() - p,
        {
            let pass = &self.passes[p];
            let mn = pass.min_length(default_min_len);
            let mx = pass.max_length(default_max_len);
            let mode = pass.selection_mode();
            let empty_strip: Vec<u8> = Vec::new();
            let ghost inter = views(current@);
            let result = match find_common_substrings(
                &current,
                mn,
                mx,
                mode,
                &empty_strip,
                None,
                false,
            ) {
                Some(res) => res,
                None => { return None; },
            };
            if result.tokens.len() == 0 {
                return None;
            }
            proof {
                found_inter = inter;
                found_cut = result.threshold_absolute as int;
                assert(empty_strip@ =~= Seq::<u8>::empty());
                assert(pass_result(
                    found_inter,
                    pass_min(self.passes@[p as int], default_min_len as int),
                    pass_max(self.passes@[p as int], default_max_len as int),
                    self.passes@[p as int].selection_mode_spec(),
                    views(result.tokens@),
                    found_cut,
                ));
            }
            current = result.tokens;
            p += 1;
        }
        proof {
            assert(self.passes@[self.passes@.len() - 1] == self.passes@.last());
            assert(pass_evidence(
                pass_min(self.passes@.last(), default_min_len as int),
                pass_max(self.passes@.last(), default_max_len as int),
                self.passes@.last().selection_mode_spec(),
                views(current@),
            ));
        }
        Some(current)
    }
}

/// The mutation-delta discovery strategy: its work is the coverage-driven
/// search of the extractor.
#[derive(Debug, Clone, Copy, PartialEq, Eq, Structural)]
pub struct MutationDeltaConfig {}

impl MutationDeltaConfig {
    /// The extractor carrying this strategy's bounds.
    pub fn extractor(&self, min_token_length: usize, max_token_length: usize) -> (r:
        MutationDeltaExtractor)
        ensures
            r.min_token_length == min_token_length,
            r.max_token_length == max_token_length,
    {
        MutationDeltaExtractor::new(min_token_length, max_token_length)
    }
}

/// A configured discovery strategy.
#[derive(Debug, Clone)]
pub enum Strategy {
    SuffixArray(SuffixArrayConfig),
    MutationDelta(MutationDeltaConfig),
}

} // verus!
