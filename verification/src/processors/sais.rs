//! Runs the suffix-array discovery as a pipeline step: the incoming token
//! list is treated as a corpus and replaced by its common substrings.

use crate::bytes::clone_bytes;
use crate::common_substring_discovery::cands_ok;
use crate::common_substring_discovery::collect_candidates;
use crate::common_substring_discovery::concat_of;
use crate::common_substring_discovery::min_count_selection;
use crate::common_substring_discovery::pairs_delivered;
use crate::common_substring_discovery::concat_corpus;
use crate::common_substring_discovery::select_min_token_count;
use crate::common_substring_discovery::select_threshold;
use crate::common_substring_discovery::token_selected;
use crate::common_substring_discovery::Candidate;
use crate::common_substring_discovery::candidate_ok;
use crate::common_substring_discovery::supported_by;
use crate::config::ThresholdFunction;
use crate::processors::views;
use crate::processors::Processor;
use crate::ratio::Ratio;
use crate::suffix::sa_lcp_wf;
use crate::suffix::sais_ok;
use crate::suffix::suffix_array_with_lcp;
use vstd::prelude::*;

verus! {

/// How the Sais step selects tokens from its candidates.
#[derive(Debug, Clone, Copy, PartialEq, Eq, Structural)]
pub enum SelectionMode {
    Threshold(Ratio),
    ThresholdFn(ThresholdFunction),
    MinTokenCount(usize),
}

/// A suffix-array discovery step over the incoming token list.
pub struct Sais {
    pub min_len: usize,
    pub max_len: usize,
    pub mode: SelectionMode,
}

impl Sais {
    /// The length band is sane and the mode's rationals are valid.
    pub open spec fn wf(self) -> bool {
        &&& 1 <= self.min_len <= self.max_len
        &&& match self.mode {
            SelectionMode::Threshold(t) => t.wf() && t.is_unit(),
            SelectionMode::ThresholdFn(f) => f.wf(),
            SelectionMode::MinTokenCount(_) => true,
        }
    }

    fn check_wf(&self) -> (r: bool)
        ensures
            r == self.wf(),
    {
        if !(1 <= self.min_len && self.min_len <= self.max_len) {
            return false;
        }
        match &self.mode {
            SelectionMode::Threshold(t) => t.den >= 1 && t.num <= t.den,
            SelectionMode::ThresholdFn(f) => match f {
                ThresholdFunction::Fixed { value } => value.den >= 1 && value.num <= value.den,
                ThresholdFunction::Interpolated { min_threshold, max_threshold, .. } => {
                    min_threshold.den >= 1 && min_threshold.num <= min_threshold.den
                        && max_threshold.den >= 1 && max_threshold.num <= max_threshold.den
                },
            },
            SelectionMode::MinTokenCount(_) => true,
        }
    }
}

/// The full account of one discovery step: the (unique) suffix and LCP
/// arrays of the concatenated token list, the collected candidates with the
/// scan's soundness and pair completeness, and the selected tokens with the
/// configured mode's completeness.
pub open spec fn sais_chain(
    corpus: Seq<Seq<u8>>,
    min_len: int,
    max_len: int,
    mode: SelectionMode,
    tokens: Seq<Seq<u8>>,
    cutoff: int,
    sa: Seq<i32>,
    lcp: Seq<i32>,
    cands: Seq<Candidate>,
) -> bool {
    &&& sa_lcp_wf(concat_of(corpus), sa, lcp)
    &&& cands_ok(cands, corpus, min_len, max_len)
    &&& pairs_delivered(cands, corpus, concat_of(corpus), sa, lcp, min_len, max_len)
    &&& match mode {
        SelectionMode::Threshold(t) => forall|c: int|
            0 <= c < cands.len() && (#[trigger] cands[c]).support as int >= t.ceil_mul_spec(
                corpus.len() as int,
            ) ==> tokens.contains(cands[c].bytes@),
        SelectionMode::ThresholdFn(f) => forall|c: int|
            0 <= c < cands.len() && f.min_inputs_defined(
                corpus.len() as int,
                (#[trigger] cands[c]).bytes@.len() as int,
                min_len,
                max_len,
            ) && cands[c].support >= 2 && cands[c].support as int >= f.min_inputs_spec(
                corpus.len() as int,
                cands[c].bytes@.len() as int,
                min_len,
                max_len,
            ) ==> tokens.contains(cands[c].bytes@),
        SelectionMode::MinTokenCount(k) => min_count_selection(cands, k as int, tokens, cutoff),
    }
}

/// Some run of the scan and selection accounts for the tokens; the suffix and
/// LCP arrays are pinned uniquely by `sa_lcp_wf`.
pub open spec fn sais_complete(
    corpus: Seq<Seq<u8>>,
    min_len: int,
    max_len: int,
    mode: SelectionMode,
    tokens: Seq<Seq<u8>>,
) -> bool {
    exists|sa: Seq<i32>, lcp: Seq<i32>, cands: Seq<Candidate>, cutoff: int|
        #[trigger] sais_chain(corpus, min_len, max_len, mode, tokens, cutoff, sa, lcp, cands)
}

/// Some candidate holds exactly these bytes with enough support for its own
/// length under the threshold function.
pub open spec fn tf_supported(
    cands: Seq<Candidate>,
    bytes: Seq<u8>,
    f: ThresholdFunction,
    n: int,
    min_len: int,
    max_len: int,
) -> bool {
    exists|c: int|
        0 <= c < cands.len() && (#[trigger] cands[c]).bytes@ == bytes && cands[c].support >= 2
            && cands[c].support as int >= f.min_inputs_spec(n, bytes.len() as int, min_len, max_len)
}

/// Keeps the distinct candidates whose support reaches the length-dependent
/// threshold (floored at two); a candidate whose exact threshold cannot be
/// evaluated in 128 bits is dropped.
fn select_threshold_fn(
    cands: &Vec<Candidate>,
    f: &ThresholdFunction,
    corpus_size: usize,
    min_len: usize,
    max_len: usize,
) -> (r: Vec<Vec<u8>>)
    requires
        f.wf(),
        min_len <= max_len,
    ensures
        forall|x: int, y: int|
            0 <= x < y < r@.len() ==> views(r@)[x] != views(r@)[y],
        forall|j: int|
            0 <= j < r@.len() ==> tf_supported(
                cands@,
                #[trigger] views(r@)[j],
                *f,
                corpus_size as int,
                min_len as int,
                max_len as int,
            ),
        forall|c: int|
            0 <= c < cands@.len() && f.min_inputs_defined(
                corpus_size as int,
                (#[trigger] cands@[c]).bytes@.len() as int,
                min_len as int,
                max_len as int,
            ) && cands@[c].support >= 2 && cands@[c].support as int >= f.min_inputs_spec(
                corpus_size as int,
                cands@[c].bytes@.len() as int,
                min_len as int,
                max_len as int,
            ) ==> views(r@).contains(cands@[c].bytes@),
{
    let mut out: Vec<Vec<u8>> = Vec::new();
    let mut i: usize = 0;
    while i < cands.len()
        invariant
            i <= cands@.len(),
            f.wf(),
            min_len <= max_len,
            forall|x: int, y: int|
                0 <= x < y < out@.len() ==> views(out@)[x] != views(out@)[y],
            forall|j: int|
                0 <= j < out@.len() ==> tf_supported(
                    cands@,
                    #[trigger] views(out@)[j],
                    *f,
                    corpus_size as int,
                    min_len as int,
                    max_len as int,
                ),
            forall|c: int|
                0 <= c < i && f.min_inputs_defined(
                    corpus_size as int,
                    (#[trigger] cands@[c]).bytes@.len() as int,
                    min_len as int,
                    max_len as int,
                ) && cands@[c].support >= 2 && cands@[c].support as int >= f.min_inputs_spec(
                    corpus_size as int,
                    cands@[c].bytes@.len() as int,
                    min_len as int,
                    max_len as int,
                ) ==> views(out@).contains(cands@[c].bytes@),
        decreases cands.len() - i,
    {
        let keep = match f.min_inputs(corpus_size, cands[i].bytes.len(), min_len, max_len) {
            Some(m) => {
                let floor: u128 = if m < 2 {
                    2
                } else {
                    m
                };
                cands[i].support as u128 >= floor
            },
            None => false,
        };
        let ghost pre = views(out@);
        if keep && !crate::bytes::list_contains(&out, &cands[i].bytes) {
            out.push(clone_bytes(&cands[i].bytes));
            proof {
                assert(views(out@) =~= pre.push(cands@[i as int].bytes@));
                assert(views(out@)[out@.len() - 1] == cands@[i as int].bytes@);
                assert(tf_supported(
                    cands@,
                    views(out@)[out@.len() - 1],
                    *f,
                    corpus_size as int,
                    min_len as int,
                    max_len as int,
                ));
            }
        }
        proof {
            assert forall|c: int|
                0 <= c < i + 1 && f.min_inputs_defined(
                    corpus_size as int,
                    (#[trigger] cands@[c]).bytes@.len() as int,
                    min_len as int,
                    max_len as int,
                ) && cands@[c].support >= 2 && cands@[c].support as int >= f.min_inputs_spec(
                    corpus_size as int,
                    cands@[c].bytes@.len() as int,
                    min_len as int,
                    max_len as int,
                ) implies views(out@).contains(cands@[c].bytes@) by {
                if c < i {
                    assert(pre.contains(cands@[c].bytes@));
                    let w = choose|w: int| 0 <= w < pre.len() && pre[w] == cands@[c].bytes@;
                    assert(views(out@)[w] == cands@[c].bytes@);
                } else {
                    assert(keep);
                    if pre.contains(cands@[c].bytes@) {
                        let w = choose|w: int| 0 <= w < pre.len() && pre[w] == cands@[c].bytes@;
                        assert(views(out@)[w] == cands@[c].bytes@);
                    } else {
                        assert(views(out@).last() == cands@[c].bytes@);
                        assert(views(out@).contains(cands@[c].bytes@));
                    }
                }
            }
        }
        i += 1;
    }
    out
}

impl Processor for Sais {
    /// Replaces the token list by the substrings common to at least two of
    /// its entries, selected by the configured mode. Every output is sound:
    /// it lies within the length band and occurs in at least two (and at
    /// least the selected threshold of) distinct input tokens.
    fn process(&self, inputs: Vec<Vec<u8>>) -> (r: Option<Vec<Vec<u8>>>)
        ensures
            r matches Some(v) ==> v.len() > 0,
            r is Some ==> self.wf(),
            r is None ==> !self.wf() || inputs@.len() == 0 || concat_of(views(inputs@)).len() == 0
                || concat_of(views(inputs@)).len() > 0x7fff_ffff || !sais_ok(
                concat_of(views(inputs@)),
            ) || sais_complete(
                views(inputs@),
                self.min_len as int,
                self.max_len as int,
                self.mode,
                Seq::<Seq<u8>>::empty(),
            ),
            r matches Some(v) ==> sais_complete(
                views(inputs@),
                self.min_len as int,
                self.max_len as int,
                self.mode,
                views(v@),
            ),
            r matches Some(v) ==> forall|j: int|
                0 <= j < v@.len() ==> token_selected(
                    views(inputs@),
                    #[trigger] views(v@)[j],
                    self.min_len as int,
                    self.max_len as int,
                    2,
                ),
            r matches Some(v) ==> forall|x: int, y: int|
                0 <= x < y < v@.len() ==> views(v@)[x] != views(v@)[y],
            r matches Some(v) ==> match self.mode {
                SelectionMode::Threshold(t) => forall|j: int|
                    0 <= j < v@.len() ==> token_selected(
                        views(inputs@),
                        #[trigger] views(v@)[j],
                        self.min_len as int,
                        self.max_len as int,
                        t.ceil_mul_spec(inputs@.len() as int),
                    ),
                SelectionMode::ThresholdFn(f) => forall|j: int|
                    0 <= j < v@.len() ==> token_selected(
                        views(inputs@),
                        #[trigger] views(v@)[j],
                        self.min_len as int,
                        self.max_len as int,
                        f.min_inputs_spec(
                            inputs@.len() as int,
                            views(v@)[j].len() as int,
                            self.min_len as int,
                            self.max_len as int,
                        ),
                    ),
                SelectionMode::MinTokenCount(_) => true,
            },
    {
        let ghost cvs = views(inputs@);
        if !self.check_wf() {
            return None;
        }
        if inputs.len() == 0 {
            return None;
        }
        let (text, origin) = concat_corpus(&inputs);
        if text.len() == 0 || text.len() > 0x7fff_ffff {
            return None;
        }
        let (sa, lcp) = match suffix_array_with_lcp(&text) {
            Some(p) => p,
            None => { return None; },
        };
        let cands = collect_candidates(
            &text,
            &origin,
            &sa,
            &lcp,
            self.min_len,
            self.max_len,
            Ghost(cvs),
        );
        let ghost cands_view = cands@;
        let corpus_size = inputs.len();
        let (tokens, ghost_cut): (Vec<Vec<u8>>, Ghost<int>) = match &self.mode {
            SelectionMode::Threshold(t) => {
                let (tk, cut) = select_threshold(&cands, *t, corpus_size);
                (tk, Ghost(cut as int))
            },
            SelectionMode::ThresholdFn(f) => {
                let tk = select_threshold_fn(&cands, f, corpus_size, self.min_len, self.max_len);
                (tk, Ghost(2int))
            },
            SelectionMode::MinTokenCount(k) => {
                let target = *k;
                let (tk, cut) = select_min_token_count(cands, target);
                (tk, Ghost(cut as int))
            },
        };
        proof {
            assert forall|j: int| 0 <= j < tokens@.len() implies token_selected(
                cvs,
                #[trigger] views(tokens@)[j],
                self.min_len as int,
                self.max_len as int,
                2,
            ) by {
                match self.mode {
                    SelectionMode::ThresholdFn(f) => {
                        let w = choose|w: int|
                            0 <= w < cands_view.len() && (#[trigger] cands_view[w]).bytes@ == views(
                                tokens@,
                            )[j] && cands_view[w].support >= 2 && cands_view[w].support as int
                                >= f.min_inputs_spec(
                                corpus_size as int,
                                views(tokens@)[j].len() as int,
                                self.min_len as int,
                                self.max_len as int,
                            );
                        assert(candidate_ok(
                            cvs,
                            cands_view[w].bytes@,
                            cands_view[w].support as int,
                            self.min_len as int,
                            self.max_len as int,
                        ));
                    },
                    _ => {
                        assert(supported_by(cands_view, views(tokens@)[j], ghost_cut@));
                        let w = choose|w: int|
                            0 <= w < cands_view.len() && (#[trigger] cands_view[w]).bytes@ == views(
                                tokens@,
                            )[j] && cands_view[w].support as int >= ghost_cut@;
                        assert(candidate_ok(
                            cvs,
                            cands_view[w].bytes@,
                            cands_view[w].support as int,
                            self.min_len as int,
                            self.max_len as int,
                        ));
                    },
                }
            }
            match self.mode {
                SelectionMode::ThresholdFn(f) => {
                assert forall|j: int| 0 <= j < tokens@.len() implies token_selected(
                    cvs,
                    #[trigger] views(tokens@)[j],
                    self.min_len as int,
                    self.max_len as int,
                    f.min_inputs_spec(
                        corpus_size as int,
                        views(tokens@)[j].len() as int,
                        self.min_len as int,
                        self.max_len as int,
                    ),
                ) by {
                    let w = choose|w: int|
                        0 <= w < cands_view.len() && (#[trigger] cands_view[w]).bytes@ == views(
                            tokens@,
                        )[j] && cands_view[w].support >= 2 && cands_view[w].support as int
                            >= f.min_inputs_spec(
                            corpus_size as int,
                            views(tokens@)[j].len() as int,
                            self.min_len as int,
                            self.max_len as int,
                        );
                    assert(candidate_ok(
                        cvs,
                        cands_view[w].bytes@,
                        cands_view[w].support as int,
                        self.min_len as int,
                        self.max_len as int,
                    ));
                }
                },
                SelectionMode::Threshold(t) => {
                assert forall|j: int| 0 <= j < tokens@.len() implies token_selected(
                    cvs,
                    #[trigger] views(tokens@)[j],
                    self.min_len as int,
                    self.max_len as int,
                    t.ceil_mul_spec(inputs@.len() as int),
                ) by {
                    assert(supported_by(cands_view, views(tokens@)[j], ghost_cut@));
                    let w = choose|w: int|
                        0 <= w < cands_view.len() && (#[trigger] cands_view[w]).bytes@ == views(
                            tokens@,
                        )[j] && cands_view[w].support as int >= ghost_cut@;
                    assert(candidate_ok(
                        cvs,
                        cands_view[w].bytes@,
                        cands_view[w].support as int,
                        self.min_len as int,
                        self.max_len as int,
                    ));
                }
                },
                _ => {},
            }
        }
        proof {
            assert(sais_chain(
                views(inputs@),
                self.min_len as int,
                self.max_len as int,
                self.mode,
                views(tokens@),
                ghost_cut@,
                sa@,
                lcp@,
                cands_view,
            ));
            assert(sais_complete(
                views(inputs@),
                self.min_len as int,
                self.max_len as int,
                self.mode,
                views(tokens@),
            ));
        }
        if tokens.len() == 0 {
            proof {
                assert(views(tokens@) =~= Seq::<Seq<u8>>::empty());
                assert(sais_complete(
                    views(inputs@),
                    self.min_len as int,
                    self.max_len as int,
                    self.mode,
                    Seq::<Seq<u8>>::empty(),
                ));
            }
            None
        } else {
            Some(tokens)
        }
    }

    fn name(&self) -> &'static str {
        "sais"
    }
}

} // verus!
