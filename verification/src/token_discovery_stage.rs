//! The periodic discovery stage: gate on corpus growth and cadence, run the
//! extracted material through the pipeline, and add the survivors to the
//! dictionary.

use crate::extractors::Extractor;
use crate::processors::pipeline_rel;
use crate::processors::pipeline_to;
use crate::processors::run_pipeline;
use crate::processors::views;
use crate::processors::PipelineStep;
use crate::smart_token_mutations::adds_all_rel;
use crate::smart_token_mutations::dict_eq;
use crate::smart_token_mutations::SmartTokens;
use vstd::prelude::*;

verus! {

/// `x + 1` with wrap-around.
pub open spec fn wrap_inc(x: u32) -> u32 {
    if x == u32::MAX {
        0
    } else {
        (x + 1) as u32
    }
}

/// The discovery gate: the corpus grew since the previous visit, the visit
/// count hits the cadence, and the corpus is large enough.
pub open spec fn gate_open(
    corpus_size: int,
    last_size: int,
    calls: u32,
    interval: u32,
    min_corpus_size: int,
) -> bool {
    &&& corpus_size != last_size
    &&& calls as int % interval as int == 0
    &&& corpus_size >= min_corpus_size
}

/// The dictionary delta of one ingest: either the pipeline yielded tokens and
/// each was offered, in order, via one `add_token`, or some step yielded
/// nothing and the dictionary is untouched.
pub open spec fn ingested(
    steps: Seq<PipelineStep>,
    data: Seq<Seq<u8>>,
    pre: SmartTokens,
    post: SmartTokens,
) -> bool {
    (exists|out: Seq<Seq<u8>>| #[trigger] pipeline_to(steps, data, out) && adds_all_rel(pre, post, out))
        || (pipeline_rel(steps, data, None) && dict_eq(pre, post))
}

/// Periodically mines the corpus for new tokens.
pub struct TokenDiscoveryStage {
    extractor: Extractor,
    pipeline: Vec<PipelineStep>,
    last_corpus_size: usize,
    stage_calls: u32,
    search_interval: u32,
    min_corpus_size: usize,
}

impl TokenDiscoveryStage {
    /// Corpus size seen by the last skipped invocation.
    pub closed spec fn last_size(self) -> int {
        self.last_corpus_size as int
    }

    /// Number of invocations so far.
    pub closed spec fn calls(self) -> u32 {
        self.stage_calls
    }

    /// The cadence divisor.
    pub closed spec fn interval(self) -> u32 {
        self.search_interval
    }

    /// The corpus size under which discovery stays off.
    pub closed spec fn min_size(self) -> int {
        self.min_corpus_size as int
    }

    pub fn new(
        extractor: Extractor,
        pipeline: Vec<PipelineStep>,
        search_interval: u32,
        min_corpus_size: usize,
    ) -> (r: Self)
        requires
            search_interval >= 1,
        ensures
            r.last_size() == 0,
            r.calls() == 0,
            r.interval() == search_interval,
            r.interval() >= 1,
            r.min_size() == min_corpus_size,
    {
        TokenDiscoveryStage {
            extractor,
            pipeline,
            last_corpus_size: 0,
            stage_calls: 0,
            search_interval,
            min_corpus_size,
        }
    }

    /// The configured extractor.
    pub fn extractor(&self) -> (r: &Extractor) {
        &self.extractor
    }

    /// The configured pipeline steps.
    pub closed spec fn pipeline_view(self) -> Seq<PipelineStep> {
        self.pipeline@
    }

    /// Counts the invocation and decides whether a discovery cycle runs now;
    /// on a skipped cycle the last seen corpus size is recorded.
    pub fn should_run(&mut self, corpus_size: usize) -> (r: bool)
        requires
            old(self).interval() >= 1,
        ensures
            final(self).calls() == wrap_inc(old(self).calls()),
            final(self).interval() == old(self).interval(),
            final(self).min_size() == old(self).min_size(),
            r == gate_open(
                corpus_size as int,
                old(self).last_size(),
                final(self).calls(),
                old(self).interval(),
                old(self).min_size(),
            ),
            r ==> final(self).last_size() == old(self).last_size(),
            !r ==> final(self).last_size() == corpus_size as int,
    {
        self.stage_calls = if self.stage_calls == u32::MAX {
            0
        } else {
            self.stage_calls + 1
        };
        let run = corpus_size != self.last_corpus_size && self.stage_calls % self.search_interval
            == 0 && corpus_size >= self.min_corpus_size;
        if !run {
            self.last_corpus_size = corpus_size;
        }
        run
    }

    /// Runs extracted raw material through the pipeline and adds the
    /// surviving tokens to the dictionary. Discovery is strictly additive:
    /// the dictionary's capacity, protection and invariant are untouched, and
    /// the protected entry is never overwritten.
    pub fn process_extracted(&self, data: Vec<Vec<u8>>, tokens: &mut SmartTokens)
        requires
            old(tokens).wf(),
        ensures
            final(tokens).wf(),
            final(tokens).capacity_spec() == old(tokens).capacity_spec(),
            final(tokens).protected() == old(tokens).protected(),
            final(tokens).tokens_seq().len() <= final(tokens).capacity_spec(),
            old(tokens).protected() matches Some(p) ==> (p < old(tokens).tokens_seq().len()
                ==> final(tokens).tokens_seq()[p as int] == old(tokens).tokens_seq()[p as int]),
            ingested(self.pipeline_view(), views(data@), *old(tokens), *final(tokens)),
    {
        let ghost dvs = views(data@);
        match run_pipeline(&self.pipeline, data) {
            Some(out) => {
                tokens.add_tokens(&out);
                proof {
                    assert(pipeline_to(self.pipeline_view(), dvs, views(out@)));
                    assert(adds_all_rel(*old(tokens), *tokens, views(out@)));
                    assert(ingested(self.pipeline_view(), dvs, *old(tokens), *tokens));
                }
            },
            None => {
                proof {
                    assert(dict_eq(*old(tokens), *tokens));
                }
            },
        }
    }
}

} // verus!
