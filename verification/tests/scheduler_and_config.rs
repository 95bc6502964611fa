//! The token-preserving scheduler, the stage gate, and the configuration.

use libafl_bolts::rands::RomuDuoJrRand;
use token_discovery::config::ExtractorConfig;
use token_discovery::config::FuzzerPreset;
use token_discovery::config::ProcessorConfig;
use token_discovery::config::SchedulerPreset;
use token_discovery::config::ThresholdFunction;
use token_discovery::config::TokenDiscoveryConfig;
use token_discovery::extractors::CorpusExtractor;
use token_discovery::extractors::Extractor;
use token_discovery::processors::build_pipeline;
use token_discovery::ratio::frac_lt_frac_exec;
use token_discovery::ratio::Ratio;
use token_discovery::smart_token_mutations::SmartTokens;
use token_discovery::strategies::PatternPass;
use token_discovery::strategies::SelectionMode;
use token_discovery::strategies::SuffixArrayConfig;
use token_discovery::token_discovery_stage::TokenDiscoveryStage;
use token_discovery::token_mutator::TokenPreservingScheduledMutator;

fn names(list: &[&str]) -> Vec<Vec<u8>> {
    list.iter().map(|n| n.as_bytes().to_vec()).collect()
}

#[test]
fn token_mutations_are_identified_by_name() {
    let sched = TokenPreservingScheduledMutator::new(&names(&[
        "BitFlip",
        "SmartTokenInsert",
        "ByteSwap",
        "SmartTokenReplace",
    ]));
    assert!(!sched.is_token_mutation(0));
    assert!(sched.is_token_mutation(1));
    assert!(!sched.is_token_mutation(2));
    assert!(sched.is_token_mutation(3));
}

#[test]
fn token_rounds_end_with_a_token_mutation() {
    let sched = TokenPreservingScheduledMutator::new(&names(&[
        "BitFlip",
        "SmartTokenInsert",
        "ByteSwap",
    ]));
    let mut rand = RomuDuoJrRand::with_seed(42);
    let mut token_rounds = 0;
    for _ in 0..200 {
        let plan = sched.plan_round(&mut rand);
        assert!(!plan.steps.is_empty());
        for &s in plan.steps.iter() {
            assert!(s < 3);
        }
        if plan.use_token {
            token_rounds += 1;
            let t = plan.final_token.expect("a marked round ends with a token");
            assert!(sched.is_token_mutation(t));
            for &s in plan.steps.iter() {
                assert!(!sched.is_token_mutation(s), "havoc only before the token");
            }
        } else {
            assert!(plan.final_token.is_none());
        }
    }
    assert!(token_rounds > 0, "some rounds use tokens");
    assert!(token_rounds < 200, "not every round uses tokens");
}

#[test]
fn rounds_without_token_operators_never_use_tokens() {
    let sched = TokenPreservingScheduledMutator::new(&names(&["BitFlip", "ByteSwap"]));
    let mut rand = RomuDuoJrRand::with_seed(9);
    for _ in 0..50 {
        let plan = sched.plan_round(&mut rand);
        assert!(!plan.use_token);
        assert!(plan.final_token.is_none());
    }
}

#[test]
fn post_exec_forwarding_goes_to_the_recorded_operator() {
    let mut sched =
        TokenPreservingScheduledMutator::new(&names(&["Havoc", "SmartTokenInsert"]));
    sched.record_token_applied(Some(1));
    assert_eq!(sched.take_last_token(), Some(1));
    assert_eq!(sched.take_last_token(), None, "the record is consumed");
}

#[test]
fn stage_gate_follows_growth_cadence_and_floor() {
    let pipeline = build_pipeline(&Vec::new(), 2, 16);
    let mut stage =
        TokenDiscoveryStage::new(Extractor::Corpus(CorpusExtractor), pipeline, 2, 3);
    // Call 1: cadence 1 % 2 != 0 -> skip (records size 5).
    assert!(!stage.should_run(5));
    // Call 2: cadence hits, but the corpus did not grow since the last call.
    assert!(!stage.should_run(5));
    // Call 3: cadence misses.
    assert!(!stage.should_run(6));
    // Call 4: cadence hits and the corpus grew.
    assert!(stage.should_run(7));
    // Call 5: skip (cadence); call 6: corpus below the floor.
    assert!(!stage.should_run(8));
    assert!(!stage.should_run(2));
}

#[test]
fn stage_ingests_pipeline_survivors() {
    let configs = vec![ProcessorConfig::StripBytes { bytes: vec![b' '], min_length: Some(2) }];
    let pipeline = build_pipeline(&configs, 2, 16);
    let stage = TokenDiscoveryStage::new(Extractor::Corpus(CorpusExtractor), pipeline, 1, 0);
    let mut dict = SmartTokens::new();
    stage.process_extracted(vec![b"  ab  ".to_vec(), b" x ".to_vec()], &mut dict);
    assert_eq!(dict.tokens(), &vec![b"ab".to_vec()]);
}

#[test]
fn ratio_comparisons_are_exact() {
    let third = Ratio::new(1, 3);
    assert!(third.frac_le_exec(1, 3));
    assert!(!third.frac_le_exec(2, 5));
    assert!(third.frac_ge_exec(2, 5));
    assert_eq!(third.ceil_mul(9), 3);
    assert_eq!(third.ceil_mul(10), 4);
    assert_eq!(Ratio::new(0, 1).ceil_mul(100), 0);
    assert_eq!(Ratio::new(1, 1).ceil_mul(7), 7);
    assert!(frac_lt_frac_exec(1, 3, 1, 2));
    assert!(!frac_lt_frac_exec(1, 2, 1, 3));
    assert!(!frac_lt_frac_exec(2, 4, 1, 2));
}

#[test]
fn fixed_threshold_function_is_a_ceiling() {
    let f = ThresholdFunction::Fixed { value: Ratio::new(3, 10) };
    assert_eq!(f.min_inputs(10, 4, 2, 16), Some(3));
    assert_eq!(f.min_inputs(0, 4, 2, 16), Some(0));
    assert_eq!(f.min_inputs(7, 4, 2, 16), Some(3));
}

#[test]
fn interpolated_threshold_function_moves_with_the_length() {
    // Linearly from 1/2 at the minimum length down to 1/10 at the maximum.
    let f = ThresholdFunction::Interpolated {
        min_threshold: Ratio::new(1, 10),
        max_threshold: Ratio::new(1, 2),
        curve: 1,
    };
    let at_min = f.min_inputs(100, 2, 2, 12).expect("exact evaluation fits");
    let at_max = f.min_inputs(100, 12, 2, 12).expect("exact evaluation fits");
    let mid = f.min_inputs(100, 7, 2, 12).expect("exact evaluation fits");
    assert_eq!(at_min, 50);
    assert_eq!(at_max, 10);
    assert_eq!(mid, 30);
    assert!(at_max <= mid && mid <= at_min);
    // Lengths outside the band are clamped.
    assert_eq!(f.min_inputs(100, 1, 2, 12), Some(50));
    assert_eq!(f.min_inputs(100, 90, 2, 12), Some(10));
}

#[test]
fn config_validation_warns_on_empty_token_pipelines() {
    let base = TokenDiscoveryConfig {
        cores: b"0".to_vec(),
        broker_port: 1337,
        corpus_dir: b"corpus".to_vec(),
        crashes_dir: b"crashes".to_vec(),
        fuzzer_preset: FuzzerPreset::Baseline,
        scheduler_preset: SchedulerPreset::Fast,
        silent_run: true,
        timeout_secs: 1,
        min_corpus_size: 1,
        search_interval: 1,
        max_tokens: 100,
        max_token_length: 16,
        min_token_length: 2,
        search_pool_size: 10,
        extractor: ExtractorConfig::Corpus,
        pipeline: Vec::new(),
    };
    assert!(!base.validate(), "the baseline preset tolerates an empty pipeline");
    let mut tokens = base.clone();
    tokens.fuzzer_preset = FuzzerPreset::StandardTokens;
    assert!(tokens.validate(), "token presets warn about an empty pipeline");
    let mut filled = tokens.clone();
    filled.pipeline = vec![ProcessorConfig::RemoveSubstrings];
    assert!(!filled.validate());
}

#[test]
fn iterative_passes_chain_discoveries() {
    let cfg = SuffixArrayConfig {
        passes: vec![PatternPass {
            mode: SelectionMode::Threshold,
            threshold: Ratio::new(1, 1),
            token_count: 0,
            min_length: Some(4),
            max_length: Some(16),
        }],
    };
    let corpus = vec![
        b"abcdefgh".to_vec(),
        b"xxabcdefyy".to_vec(),
        b"--abcdefgh!!".to_vec(),
    ];
    let out = cfg
        .iterative_token_discovery(&corpus, 2, 16)
        .expect("the single pass finds shared substrings");
    assert!(out.iter().any(|t| t.as_slice() == b"abcdef"));
    let empty: Vec<Vec<u8>> = Vec::new();
    assert!(cfg.iterative_token_discovery(&empty, 2, 16).is_none());
    let no_passes = SuffixArrayConfig { passes: Vec::new() };
    assert!(no_passes.iterative_token_discovery(&corpus, 2, 16).is_none());
}
