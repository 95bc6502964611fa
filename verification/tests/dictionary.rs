//! The token dictionary and the two token-aware mutation operators.

use libafl_bolts::rands::RomuDuoJrRand;
use token_discovery::smart_token_mutations::MutationResult;
use token_discovery::smart_token_mutations::SmartToken;
use token_discovery::smart_token_mutations::SmartTokenInsert;
use token_discovery::smart_token_mutations::SmartTokenReplace;
use token_discovery::smart_token_mutations::SmartTokens;

#[test]
fn add_token_deduplicates_and_appends() {
    let mut d = SmartTokens::with_capacity(4);
    assert_eq!(d.add_token(&b"one".to_vec()), Some(0));
    assert_eq!(d.add_token(&b"two".to_vec()), Some(1));
    assert_eq!(d.add_token(&b"one".to_vec()), None, "duplicates are rejected");
    assert_eq!(d.len(), 2);
    assert_eq!(d.tokens()[0], b"one".to_vec());
    assert_eq!(d.tokens()[1], b"two".to_vec());
}

#[test]
fn capacity_is_never_exceeded() {
    let mut d = SmartTokens::with_capacity(3);
    for i in 0..10u8 {
        let _ = d.add_token(&vec![i, i, i]);
        assert!(d.len() <= 3, "capacity bound violated");
    }
    assert_eq!(d.len(), 3);
}

#[test]
fn eviction_replaces_the_worst_entry() {
    let mut d = SmartTokens::with_capacity(2);
    assert_eq!(d.add_token(&b"aa".to_vec()), Some(0));
    assert_eq!(d.add_token(&b"bb".to_vec()), Some(1));
    // Entry 0: 3 uses, 1 success (rate 1/3). Entry 1: untouched (rate 1/1).
    d.update_stats(0, false);
    d.update_stats(0, false);
    let idx = d.add_token(&b"cc".to_vec());
    assert_eq!(idx, Some(0), "the lowest success rate is evicted");
    assert_eq!(d.tokens()[0], b"cc".to_vec());
    assert_eq!(d.tokens()[1], b"bb".to_vec());
}

#[test]
fn eviction_ties_pick_the_lowest_index() {
    let mut d = SmartTokens::with_capacity(2);
    let _ = d.add_token(&b"aa".to_vec());
    let _ = d.add_token(&b"bb".to_vec());
    // Both keep their initial (1, 1) stats: equal rates, index 0 wins.
    assert_eq!(d.add_token(&b"cc".to_vec()), Some(0));
}

#[test]
fn protected_entry_is_never_evicted() {
    let mut d = SmartTokens::with_capacity(2);
    let _ = d.add_token(&b"aa".to_vec());
    let _ = d.add_token(&b"bb".to_vec());
    d.update_stats(0, false);
    d.protect_index(0);
    // Index 0 has the worst rate but is protected; index 1 is evicted.
    assert_eq!(d.add_token(&b"cc".to_vec()), Some(1));
    assert_eq!(d.tokens()[0], b"aa".to_vec());
    d.unprotect();
    assert_eq!(d.add_token(&b"dd".to_vec()), Some(0));
}

#[test]
fn protecting_the_only_candidate_rejects_the_insertion() {
    let mut d = SmartTokens::with_capacity(1);
    let _ = d.add_token(&b"aa".to_vec());
    d.protect_index(0);
    assert_eq!(d.add_token(&b"bb".to_vec()), None);
    assert_eq!(d.tokens()[0], b"aa".to_vec());
}

#[test]
fn update_stats_ignores_out_of_range_indices() {
    let mut d = SmartTokens::with_capacity(2);
    let _ = d.add_token(&b"aa".to_vec());
    d.update_stats(7, true);
    assert_eq!(d.len(), 1);
}

#[test]
fn smart_token_roundtrip_protects_and_settles() {
    let mut d = SmartTokens::new();
    let _ = d.add_token(&b"tok".to_vec());
    let mut st = SmartToken::new();
    st.record_token_use(0, &mut d);
    // While in flight, the entry cannot be evicted even at capacity.
    st.post_exec(&mut d, true);
    // Settled: one more use, one more success on top of the initial (1, 1).
    let mut d2 = SmartTokens::with_capacity(1);
    let _ = d2.add_token(&b"x".to_vec());
    let mut st2 = SmartToken::new();
    st2.record_token_use(0, &mut d2);
    assert_eq!(d2.add_token(&b"y".to_vec()), None, "in-flight entry stays");
    st2.post_exec(&mut d2, false);
    assert_eq!(d2.add_token(&b"y".to_vec()), Some(0), "protection was lifted");
}

#[test]
fn token_insert_splices_a_token() {
    let mut rand = RomuDuoJrRand::with_seed(7);
    let mut d = SmartTokens::new();
    let _ = d.add_token(&b"KEY".to_vec());
    let mut op = SmartTokenInsert::new();
    let mut input = b"0123456789".to_vec();
    let r = op.mutate(&mut rand, &mut d, &mut input, 64);
    assert_eq!(r, MutationResult::Mutated);
    assert_eq!(input.len(), 13, "the whole token was inserted");
    assert!(
        input.windows(3).any(|w| w == b"KEY"),
        "the token appears contiguously: {:?}",
        input
    );
}

#[test]
fn token_insert_skips_without_tokens_or_room() {
    let mut rand = RomuDuoJrRand::with_seed(1);
    let mut empty = SmartTokens::new();
    let mut input = b"abc".to_vec();
    let mut op = SmartTokenInsert::new();
    assert_eq!(
        op.mutate(&mut rand, &mut empty, &mut input, 64),
        MutationResult::Skipped
    );
    let mut d = SmartTokens::new();
    let _ = d.add_token(&b"LONG".to_vec());
    assert_eq!(
        op.mutate(&mut rand, &mut d, &mut input, 2),
        MutationResult::Skipped,
        "no room below max_size"
    );
    assert_eq!(input, b"abc".to_vec());
}

#[test]
fn token_insert_truncates_at_max_size() {
    let mut rand = RomuDuoJrRand::with_seed(3);
    let mut d = SmartTokens::new();
    let _ = d.add_token(&b"ABCDEFGH".to_vec());
    let mut input = b"xy".to_vec();
    let r = op_insert(&mut rand, &mut d, &mut input, 5);
    assert_eq!(r, MutationResult::Mutated);
    assert_eq!(input.len(), 5, "insertion fills up to max_size only");
}

fn op_insert(
    rand: &mut RomuDuoJrRand,
    d: &mut SmartTokens,
    input: &mut Vec<u8>,
    max_size: usize,
) -> MutationResult {
    let mut op = SmartTokenInsert::new();
    op.mutate(rand, d, input, max_size)
}

#[test]
fn token_replace_overwrites_in_place() {
    let mut rand = RomuDuoJrRand::with_seed(11);
    let mut d = SmartTokens::new();
    let _ = d.add_token(&b"ZZ".to_vec());
    let mut input = b"aaaaaa".to_vec();
    let mut op = SmartTokenReplace::new();
    let r = op.mutate(&mut rand, &mut d, &mut input);
    assert_eq!(r, MutationResult::Mutated);
    assert_eq!(input.len(), 6, "replacement never changes the length");
    let z = input.iter().filter(|&&b| b == b'Z').count();
    assert!(z >= 1 && z <= 2, "the token was written: {:?}", input);
}

#[test]
fn token_replace_skips_on_empty_input() {
    let mut rand = RomuDuoJrRand::with_seed(2);
    let mut d = SmartTokens::new();
    let _ = d.add_token(&b"ZZ".to_vec());
    let mut input: Vec<u8> = Vec::new();
    let mut op = SmartTokenReplace::new();
    assert_eq!(
        op.mutate(&mut rand, &mut d, &mut input),
        MutationResult::Skipped
    );
}

#[test]
fn mutation_protects_until_post_exec() {
    let mut rand = RomuDuoJrRand::with_seed(5);
    let mut d = SmartTokens::with_capacity(1);
    let _ = d.add_token(&b"T".to_vec());
    let mut input = b"abcdef".to_vec();
    let mut op = SmartTokenReplace::new();
    assert_eq!(op.mutate(&mut rand, &mut d, &mut input), MutationResult::Mutated);
    assert_eq!(d.add_token(&b"u".to_vec()), None, "used entry is protected");
    op.post_exec(&mut d, true);
    assert_eq!(d.add_token(&b"u".to_vec()), Some(0), "protection lifted");
}
