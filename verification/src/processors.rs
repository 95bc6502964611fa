//! The processor pipeline: ordered refinement steps over a list of token
//! candidates. A processor returns `None` exactly when its output would be
//! empty, which aborts the pipeline for this cycle.

pub mod filter_null_bytes;
pub mod remove_repetitive;
pub mod remove_similar;
pub mod remove_substrings;
pub mod sais;
pub mod split_at;
pub mod strip_bytes;

pub use filter_null_bytes::FilterNullBytes;
pub use remove_repetitive::RemoveRepetitive;
pub use remove_similar::KeepStrategy;
pub use remove_similar::RemoveSimilar;
pub use remove_substrings::RemoveSubstrings;
pub use sais::Sais;
pub use sais::SelectionMode;
pub use split_at::SplitAt;
pub use strip_bytes::StripBytes;

use vstd::multiset::Multiset;
use vstd::prelude::*;

verus! {

/// The views of a list of byte vectors.
pub open spec fn views(s: Seq<Vec<u8>>) -> Seq<Seq<u8>> {
    s.map_values(|t: Vec<u8>| t@)
}

/// Number of occurrences of the byte `b` in `s`.
pub open spec fn count_matching(s: Seq<u8>, b: u8) -> int
    decreases s.len(),
{
    if s.len() == 0 {
        0
    } else {
        count_matching(s.drop_last(), b) + if s.last() == b {
            1int
        } else {
            0int
        }
    }
}

/// Counts how often the byte `b` occurs in `t`.
pub fn count_byte(t: &Vec<u8>, b: u8) -> (r: usize)
    ensures
        r == count_matching(t@, b),
        r <= t@.len(),
{
    let mut cnt: usize = 0;
    let mut i: usize = 0;
    while i < t.len()
        invariant
            i <= t.len(),
            cnt <= i,
            cnt == count_matching(t@.subrange(0, i as int), b),
        decreases t.len() - i,
    {
        proof {
            assert(t@.subrange(0, i + 1).drop_last() =~= t@.subrange(0, i as int));
            assert(t@.subrange(0, i + 1).last() == t@[i as int]);
        }
        if t[i] == b {
            cnt += 1;
        }
        i += 1;
    }
    proof {
        assert(t@.subrange(0, t@.len() as int) =~= t@);
    }
    cnt
}

/// `s` is ordered by token length, longest first when `desc` and shortest
/// first otherwise.
pub open spec fn sorted_by_len(s: Seq<Seq<u8>>, desc: bool) -> bool {
    forall|i: int, j: int|
        0 <= i < j < s.len() ==> if desc {
            (#[trigger] s[i]).len() >= (#[trigger] s[j]).len()
        } else {
            s[i].len() <= s[j].len()
        }
}

/// Selection sort of tokens by length; the result holds exactly the input
/// tokens (as a multiset), ordered by length.
pub fn sort_tokens_by_len(v: Vec<Vec<u8>>, desc: bool) -> (r: Vec<Vec<u8>>)
    ensures
        views(r@).to_multiset() == views(v@).to_multiset(),
        r@.len() == v@.len(),
        sorted_by_len(views(r@), desc),
{
    broadcast use vstd::seq_lib::group_to_multiset_ensures;
    broadcast use vstd::multiset::group_multiset_axioms;

    let mut rest = v;
    let mut out: Vec<Vec<u8>> = Vec::new();
    proof {
        assert(views(out@).to_multiset().add(views(rest@).to_multiset()) =~= views(
            v@,
        ).to_multiset());
    }
    while rest.len() > 0
        invariant
            views(out@).to_multiset().add(views(rest@).to_multiset()) == views(v@).to_multiset(),
            out@.len() + rest@.len() == v@.len(),
            sorted_by_len(views(out@), desc),
            forall|k: int, m: int|
                0 <= k < out@.len() && 0 <= m < rest@.len() ==> if desc {
                    (#[trigger] views(out@)[k]).len() >= (#[trigger] views(rest@)[m]).len()
                } else {
                    views(out@)[k].len() <= views(rest@)[m].len()
                },
        decreases rest.len(),
    {
        let mut pick: usize = 0;
        let mut m: usize = 1;
        while m < rest.len()
            invariant
                pick < m <= rest@.len(),
                rest@.len() > 0,
                forall|q: int|
                    0 <= q < m ==> if desc {
                        (#[trigger] views(rest@)[q]).len() <= views(rest@)[pick as int].len()
                    } else {
                        views(rest@)[q].len() >= views(rest@)[pick as int].len()
                    },
            decreases rest.len() - m,
        {
            let better = if desc {
                rest[m].len() > rest[pick].len()
            } else {
                rest[m].len() < rest[pick].len()
            };
            if better {
                pick = m;
            }
            m += 1;
        }
        let ghost pre_rest = views(rest@);
        let ghost pre_out = views(out@);
        let x = rest.remove(pick);
        out.push(x);
        proof {
            broadcast use vstd::seq_lib::group_to_multiset_ensures;
            broadcast use vstd::multiset::group_multiset_axioms;

            assert(views(rest@) =~= pre_rest.remove(pick as int));
            assert(views(out@) =~= pre_out.push(pre_rest[pick as int]));
            assert(pre_rest.contains(pre_rest[pick as int]));
            assert(pre_rest.to_multiset().count(pre_rest[pick as int]) > 0);
            assert(views(out@).to_multiset().add(views(rest@).to_multiset()) =~= views(
                v@,
            ).to_multiset());
        }
    }
    proof {
        assert(views(rest@).to_multiset() =~= Multiset::<Seq<u8>>::empty());
        assert(views(out@).to_multiset() =~= views(v@).to_multiset());
    }
    out
}

/// A step of the refinement pipeline.
///
/// Every implementation returns `None` exactly when it would otherwise return
/// an empty list; a returned list is never empty.
pub trait Processor {
    fn process(&self, inputs: Vec<Vec<u8>>) -> (r: Option<Vec<Vec<u8>>>)
        ensures
            r matches Some(v) ==> v.len() > 0,
    ;

    fn name(&self) -> &'static str;
}

/// The selection mode the discovery step derives from its configured
/// parameters: an explicit threshold function wins, then a fixed threshold,
/// then a token count; with none of them a default fraction is used.
pub open spec fn sais_mode_of(
    threshold: Option<crate::ratio::Ratio>,
    token_count: Option<usize>,
    threshold_fn: Option<crate::config::ThresholdFunction>,
) -> SelectionMode {
    if threshold_fn is Some {
        SelectionMode::ThresholdFn(threshold_fn->0)
    } else if threshold is Some {
        SelectionMode::Threshold(threshold->0)
    } else if token_count is Some {
        SelectionMode::MinTokenCount(token_count->0)
    } else {
        SelectionMode::Threshold(crate::ratio::Ratio { num: 3, den: 10 })
    }
}

/// The built step carries exactly the configured parameters, with absent
/// lengths replaced by the defaults.
pub open spec fn step_matches_config(
    step: PipelineStep,
    c: crate::config::ProcessorConfig,
    default_min_len: usize,
    default_max_len: usize,
) -> bool {
    match c {
        crate::config::ProcessorConfig::FilterNullBytes { max_ratio } => step matches
            PipelineStep::FilterNullBytes(p) && p.max_ratio == max_ratio,
        crate::config::ProcessorConfig::RemoveRepetitive { threshold } => step matches
            PipelineStep::RemoveRepetitive(p) && p.threshold == threshold,
        crate::config::ProcessorConfig::RemoveSimilar { threshold, keep_longer } => step matches
            PipelineStep::RemoveSimilar(p) && p.threshold == threshold
            && crate::processors::remove_similar::keep_desc(p.keep) == keep_longer,
        crate::config::ProcessorConfig::RemoveSubstrings => step matches
            PipelineStep::RemoveSubstrings(_),
        crate::config::ProcessorConfig::Sais {
            min_len,
            max_len,
            threshold,
            token_count,
            threshold_fn,
        } => step matches PipelineStep::Sais(p) && p.min_len == (if min_len is Some {
            min_len->0
        } else {
            default_min_len
        }) && p.max_len == (if max_len is Some {
            max_len->0
        } else {
            default_max_len
        }) && p.mode == sais_mode_of(threshold, token_count, threshold_fn),
        crate::config::ProcessorConfig::SplitAt { delimiters, min_length } => step matches
            PipelineStep::SplitAt(p) && views(p.delimiters@) == views(delimiters@) && p.min_length
            == (if min_length is Some {
            min_length->0
        } else {
            default_min_len
        }),
        crate::config::ProcessorConfig::StripBytes { bytes, min_length } => step matches
            PipelineStep::StripBytes(p) && p.bytes_to_strip@ == bytes@ && p.min_length == (
        if min_length is Some {
            min_length->0
        } else {
            default_min_len
        }),
    }
}

/// The exact relation between a step's input and its outcome, variant by
/// variant: each arm restates the corresponding processor's contract.
pub open spec fn step_ok(
    step: PipelineStep,
    input: Seq<Seq<u8>>,
    output: Option<Seq<Seq<u8>>>,
) -> bool {
    match step {
        PipelineStep::FilterNullBytes(p) => match output {
            Some(v) => v == filter_null_bytes::filter_nulls_spec(input, p.max_ratio) && v.len()
                > 0,
            None => filter_null_bytes::filter_nulls_spec(input, p.max_ratio).len() == 0,
        },
        PipelineStep::RemoveRepetitive(p) => match output {
            Some(v) => v == remove_repetitive::filter_repetitive_spec(input, p.threshold)
                && v.len() > 0,
            None => remove_repetitive::filter_repetitive_spec(input, p.threshold).len() == 0,
        },
        PipelineStep::RemoveSimilar(p) => match output {
            Some(v) => v.len() > 0 && v.len() <= input.len() && (forall|j: int|
                0 <= j < v.len() ==> input.contains(#[trigger] v[j])) && exists|
                sorted: Seq<Seq<u8>>,
            |
                {
                    &&& #[trigger] sorted_by_len(sorted, remove_similar::keep_desc(p.keep))
                    &&& sorted.to_multiset() == input.to_multiset()
                    &&& v == remove_similar::similar_greedy(sorted, Seq::empty(), p.threshold)
                },
            None => input.len() == 0,
        },
        PipelineStep::RemoveSubstrings(_) => match output {
            Some(v) => v.len() > 0 && v.len() <= input.len() && (forall|j: int|
                0 <= j < v.len() ==> input.contains(#[trigger] v[j])) && exists|
                sorted: Seq<Seq<u8>>,
            |
                {
                    &&& #[trigger] sorted_by_len(sorted, true)
                    &&& sorted.to_multiset() == input.to_multiset()
                    &&& v == remove_substrings::substring_greedy(sorted, Seq::empty())
                },
            None => input.len() == 0,
        },
        PipelineStep::Sais(p) => match output {
            Some(v) => v.len() > 0 && p.wf() && sais::sais_complete(
                input,
                p.min_len as int,
                p.max_len as int,
                p.mode,
                v,
            ),
            None => !p.wf() || input.len() == 0 || crate::common_substring_discovery::concat_of(
                input,
            ).len() == 0 || crate::common_substring_discovery::concat_of(input).len()
                > 0x7fff_ffff || !crate::suffix::sais_ok(
                crate::common_substring_discovery::concat_of(input),
            ) || sais::sais_complete(
                input,
                p.min_len as int,
                p.max_len as int,
                p.mode,
                Seq::<Seq<u8>>::empty(),
            ),
        },
        PipelineStep::SplitAt(p) => match output {
            Some(v) => v == split_at::filter_min_len(
                split_at::split_all_inputs(input, views(p.delimiters@)),
                p.min_length as int,
            ) && v.len() > 0,
            None => split_at::filter_min_len(
                split_at::split_all_inputs(input, views(p.delimiters@)),
                p.min_length as int,
            ).len() == 0,
        },
        PipelineStep::StripBytes(p) => match output {
            Some(v) => v == strip_bytes::strip_map_spec(
                input,
                p.bytes_to_strip@,
                p.min_length as int,
            ) && v.len() > 0,
            None => strip_bytes::strip_map_spec(input, p.bytes_to_strip@, p.min_length as int).len()
                == 0,
        },
    }
}

/// `pipeline_rel` with a produced output; the indirection gives callers a
/// trigger carrying the output.
pub open spec fn pipeline_to(
    steps: Seq<PipelineStep>,
    input: Seq<Seq<u8>>,
    out: Seq<Seq<u8>>,
) -> bool {
    pipeline_rel(steps, input, Some(out))
}

/// `step_ok` with a produced output; the indirection gives the chained
/// relation below its trigger.
pub open spec fn step_to(step: PipelineStep, input: Seq<Seq<u8>>, mid: Seq<Seq<u8>>) -> bool {
    step_ok(step, input, Some(mid))
}

/// The pipeline relation: the output of each step feeds the next, and a step
/// that yields nothing aborts the run with `None`.
pub open spec fn pipeline_rel(
    steps: Seq<PipelineStep>,
    input: Seq<Seq<u8>>,
    r: Option<Seq<Seq<u8>>>,
) -> bool
    decreases steps.len(),
{
    if steps.len() == 0 {
        r == Some(input)
    } else {
        (exists|mid: Seq<Seq<u8>>|
            #[trigger] step_to(steps.first(), input, mid) && pipeline_rel(
                steps.drop_first(),
                mid,
                r,
            )) || (step_ok(steps.first(), input, None) && r is None)
    }
}

/// One configured step of the pipeline, dispatched without dynamic calls.
pub enum PipelineStep {
    FilterNullBytes(FilterNullBytes),
    RemoveRepetitive(RemoveRepetitive),
    RemoveSimilar(RemoveSimilar),
    RemoveSubstrings(RemoveSubstrings),
    Sais(Sais),
    SplitAt(SplitAt),
    StripBytes(StripBytes),
}

impl PipelineStep {
    /// Runs the step; a returned list is never empty, and the outcome is
    /// exactly the variant's contract.
    pub fn process(&self, inputs: Vec<Vec<u8>>) -> (r: Option<Vec<Vec<u8>>>)
        ensures
            r matches Some(v) ==> v.len() > 0,
            match r {
                Some(v) => step_ok(*self, views(inputs@), Some(views(v@))),
                None => step_ok(*self, views(inputs@), None),
            },
    {
        match self {
            PipelineStep::FilterNullBytes(p) => p.process(inputs),
            PipelineStep::RemoveRepetitive(p) => p.process(inputs),
            PipelineStep::RemoveSimilar(p) => p.process(inputs),
            PipelineStep::RemoveSubstrings(p) => p.process(inputs),
            PipelineStep::Sais(p) => p.process(inputs),
            PipelineStep::SplitAt(p) => p.process(inputs),
            PipelineStep::StripBytes(p) => p.process(inputs),
        }
    }

    pub fn name(&self) -> (r: &'static str) {
        match self {
            PipelineStep::FilterNullBytes(p) => p.name(),
            PipelineStep::RemoveRepetitive(p) => p.name(),
            PipelineStep::RemoveSimilar(p) => p.name(),
            PipelineStep::RemoveSubstrings(p) => p.name(),
            PipelineStep::Sais(p) => p.name(),
            PipelineStep::SplitAt(p) => p.name(),
            PipelineStep::StripBytes(p) => p.name(),
        }
    }
}

/// Builds the configured pipeline, filling absent length bounds with the
/// configured defaults.
pub fn build_pipeline(
    configs: &Vec<crate::config::ProcessorConfig>,
    default_min_len: usize,
    default_max_len: usize,
) -> (r: Vec<PipelineStep>)
    ensures
        r@.len() == configs@.len(),
        forall|i: int|
            0 <= i < r@.len() ==> step_matches_config(
                #[trigger] r@[i],
                configs@[i],
                default_min_len,
                default_max_len,
            ),
{
    let mut out: Vec<PipelineStep> = Vec::new();
    let mut i: usize = 0;
    while i < configs.len()
        invariant
            i <= configs@.len(),
            out@.len() == i,
            forall|j: int|
                0 <= j < out@.len() ==> step_matches_config(
                    #[trigger] out@[j],
                    configs@[j],
                    default_min_len,
                    default_max_len,
                ),
        decreases configs.len() - i,
    {
        let step = match &configs[i] {
            crate::config::ProcessorConfig::FilterNullBytes { max_ratio } => {
                PipelineStep::FilterNullBytes(FilterNullBytes { max_ratio: *max_ratio })
            },
            crate::config::ProcessorConfig::RemoveRepetitive { threshold } => {
                PipelineStep::RemoveRepetitive(RemoveRepetitive { threshold: *threshold })
            },
            crate::config::ProcessorConfig::RemoveSimilar { threshold, keep_longer } => {
                let keep = if *keep_longer {
                    KeepStrategy::Longer
                } else {
                    KeepStrategy::Shorter
                };
                PipelineStep::RemoveSimilar(RemoveSimilar { threshold: *threshold, keep })
            },
            crate::config::ProcessorConfig::RemoveSubstrings => {
                PipelineStep::RemoveSubstrings(RemoveSubstrings)
            },
            crate::config::ProcessorConfig::Sais {
                min_len,
                max_len,
                threshold,
                token_count,
                threshold_fn,
            } => {
                let mn = match min_len {
                    Some(v) => *v,
                    None => default_min_len,
                };
                let mx = match max_len {
                    Some(v) => *v,
                    None => default_max_len,
                };
                let mode = match (threshold_fn, threshold, token_count) {
                    (Some(f), _, _) => SelectionMode::ThresholdFn(*f),
                    (None, Some(t), _) => SelectionMode::Threshold(*t),
                    (None, None, Some(n)) => SelectionMode::MinTokenCount(*n),
                    (None, None, None) => SelectionMode::Threshold(
                        crate::ratio::Ratio { num: 3, den: 10 },
                    ),
                };
                PipelineStep::Sais(Sais { min_len: mn, max_len: mx, mode })
            },
            crate::config::ProcessorConfig::SplitAt { delimiters, min_length } => {
                let mut ds: Vec<Vec<u8>> = Vec::new();
                let mut d: usize = 0;
                while d < delimiters.len()
                    invariant
                        d <= delimiters@.len(),
                        views(ds@) == views(delimiters@).subrange(0, d as int),
                    decreases delimiters.len() - d,
                {
                    let ghost pre = views(ds@);
                    ds.push(crate::bytes::clone_bytes(&delimiters[d]));
                    proof {
                        assert(views(ds@) =~= pre.push(views(delimiters@)[d as int]));
                        assert(views(ds@) =~= views(delimiters@).subrange(0, d + 1));
                    }
                    d += 1;
                }
                proof {
                    assert(views(delimiters@).subrange(0, delimiters@.len() as int) =~= views(
                        delimiters@,
                    ));
                }
                let ml = match min_length {
                    Some(v) => *v,
                    None => default_min_len,
                };
                PipelineStep::SplitAt(SplitAt { delimiters: ds, min_length: ml })
            },
            crate::config::ProcessorConfig::StripBytes { bytes, min_length } => {
                let ml = match min_length {
                    Some(v) => *v,
                    None => default_min_len,
                };
                PipelineStep::StripBytes(
                    StripBytes {
                        bytes_to_strip: crate::bytes::clone_bytes(bytes),
                        min_length: ml,
                    },
                )
            },
        };
        out.push(step);
        i += 1;
    }
    out
}

/// Runs the data through the steps in order; the first step that yields
/// nothing aborts the cycle.
pub fn run_pipeline(steps: &Vec<PipelineStep>, data: Vec<Vec<u8>>) -> (r: Option<Vec<Vec<u8>>>)
    ensures
        steps@.len() > 0 ==> (r matches Some(v) ==> v.len() > 0),
        match r {
            Some(v) => pipeline_rel(steps@, views(data@), Some(views(v@))),
            None => pipeline_rel(steps@, views(data@), None),
        },
{
    let ghost dvs = views(data@);
    let mut current = data;
    let mut i: usize = 0;
    let ghost mut cur_view = views(data@);
    proof {
        assert(steps@.subrange(0, steps@.len() as int) =~= steps@);
    }
    while i < steps.len()
        invariant
            i <= steps@.len(),
            i > 0 ==> current@.len() > 0,
            cur_view == views(current@),
            dvs == views(data@),
            forall|rr: Option<Seq<Seq<u8>>>|
                #[trigger] pipeline_rel(
                    steps@.subrange(i as int, steps@.len() as int),
                    cur_view,
                    rr,
                ) ==> pipeline_rel(steps@, dvs, rr),
        decreases steps.len() - i,
    {
        let ghost pre = cur_view;
        current = match steps[i].process(current) {
            Some(v) => v,
            None => {
                proof {
                    assert(steps@.subrange(i as int, steps@.len() as int).first() == steps@[
                        i as int
                    ]);
                    assert(pipeline_rel(
                        steps@.subrange(i as int, steps@.len() as int),
                        cur_view,
                        None::<Seq<Seq<u8>>>,
                    ));
                    assert(pipeline_rel(steps@, dvs, None::<Seq<Seq<u8>>>));
                }
                return None;
            },
        };
        proof {
            let rem = steps@.subrange(i as int, steps@.len() as int);
            assert(rem.first() == steps@[i as int]);
            assert(rem.drop_first() =~= steps@.subrange(i + 1, steps@.len() as int));
            assert(step_to(steps@[i as int], pre, views(current@)));
            cur_view = views(current@);
            assert forall|rr: Option<Seq<Seq<u8>>>|
                #[trigger] pipeline_rel(
                    steps@.subrange(i + 1, steps@.len() as int),
                    cur_view,
                    rr,
                ) implies pipeline_rel(steps@, dvs, rr) by {
                assert(pipeline_rel(
                    steps@.subrange(i as int, steps@.len() as int),
                    pre,
                    rr,
                ));
            }
        }
        i += 1;
    }
    proof {
        assert(steps@.subrange(steps@.len() as int, steps@.len() as int)
            =~= Seq::<PipelineStep>::empty());
        assert(pipeline_rel(
            steps@.subrange(steps@.len() as int, steps@.len() as int),
            cur_view,
            Some(views(current@)),
        ));
        assert(pipeline_rel(steps@, dvs, Some(views(current@))));
    }
    Some(current)
}

} // verus!
