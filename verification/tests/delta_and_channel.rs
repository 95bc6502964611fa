//! The mutation-delta search and the shared-memory token channel.

use token_discovery::extractors::CorpusExtractor;
use token_discovery::extractors::CoverageClass;
use token_discovery::extractors::DeltaSearch;
use token_discovery::extractors::MutationDeltaExtractor;
use token_discovery::shared_token_storage::decode_frame;
use token_discovery::shared_token_storage::encode_tokens;
use token_discovery::shared_token_storage::SeqlockReader;

/// A deterministic stand-in target: its coverage depends only on whether the
/// input holds the magic substring, so a probe's fingerprint matches the
/// child's when the magic is present and the parent's otherwise.
fn classify(input: &[u8]) -> CoverageClass {
    if input.windows(5).any(|w| w == b"MAGIC") {
        CoverageClass::MatchesChild
    } else {
        CoverageClass::MatchesParent
    }
}

fn run_search(mut search: DeltaSearch) -> Option<Vec<u8>> {
    let mut fuel = 10_000;
    while search.active() && fuel > 0 {
        let probe = search.current_input();
        let class = classify(&probe);
        search.step(class, b'z');
        fuel -= 1;
    }
    assert!(fuel > 0, "the search must terminate");
    search.result()
}

#[test]
fn mutation_delta_isolates_the_magic_range() {
    let extractor = MutationDeltaExtractor::new(3, 16);
    let search = extractor.begin(b"aaaaaaaa".to_vec(), b"aaMAGICaa".to_vec());
    let token = run_search(search).expect("a causative range exists");
    assert_eq!(token, b"MAGIC".to_vec());
}

#[test]
fn mutation_delta_rejects_short_ranges() {
    let extractor = MutationDeltaExtractor::new(8, 16);
    let search = extractor.begin(b"aaaaaaaa".to_vec(), b"aaMAGICaa".to_vec());
    assert!(run_search(search).is_none(), "five bytes are below the minimum");
}

#[test]
fn mutation_delta_is_idempotent_on_identical_inputs() {
    let extractor = MutationDeltaExtractor::new(3, 16);
    let first = run_search(extractor.begin(b"aaaaaaaa".to_vec(), b"aaMAGICaa".to_vec()));
    let second = run_search(extractor.begin(b"aaaaaaaa".to_vec(), b"aaMAGICaa".to_vec()));
    assert_eq!(first, second, "identical runs isolate the identical range");
}

#[test]
fn mutation_delta_gives_up_without_a_signal() {
    // The child never shows the magic, so no prefix reproduces its coverage.
    let extractor = MutationDeltaExtractor::new(1, 8);
    let search = extractor.begin(b"aaaa".to_vec(), b"bbbb".to_vec());
    let mut search = search;
    let mut fuel = 1000;
    while search.active() && fuel > 0 {
        search.step(CoverageClass::Other, b'q');
        fuel -= 1;
    }
    assert!(search.result().is_none());
}

#[test]
fn frame_round_trip_preserves_the_tokens() {
    let tokens = vec![b"alpha".to_vec(), b"bravo!".to_vec()];
    let (frame, count) = encode_tokens(&tokens, 4096);
    assert_eq!(count, 2);
    let back = decode_frame(&frame, count as u32);
    assert_eq!(back, tokens);
}

#[test]
fn encoding_truncates_at_capacity() {
    let tokens = vec![b"aaaa".to_vec(), b"bbbb".to_vec(), b"cccc".to_vec()];
    // Each record needs 6 bytes; 13 bytes hold exactly two records.
    let (frame, count) = encode_tokens(&tokens, 13);
    assert_eq!(count, 2);
    assert!(frame.len() <= 13);
    let back = decode_frame(&frame, count as u32);
    assert_eq!(back, vec![b"aaaa".to_vec(), b"bbbb".to_vec()]);
}

#[test]
fn reader_accepts_even_fresh_matching_sequences() {
    let tokens = vec![b"t1".to_vec(), b"t2!".to_vec()];
    let (frame, count) = encode_tokens(&tokens, 256);
    let mut reader = SeqlockReader::new();
    let got = reader
        .try_read(2, &frame, count as u32, 2)
        .expect("an even, fresh, stable sequence is accepted");
    assert_eq!(got, tokens);
    // A second read without writer activity sees the same sequence value.
    assert!(reader.try_read(2, &frame, count as u32, 2).is_none());
}

#[test]
fn reader_rejects_odd_or_torn_sequences() {
    let tokens = vec![b"t1".to_vec()];
    let (frame, count) = encode_tokens(&tokens, 256);
    let mut reader = SeqlockReader::new();
    assert!(
        reader.try_read(3, &frame, count as u32, 3).is_none(),
        "odd means writer in progress"
    );
    assert!(
        reader.try_read(2, &frame, count as u32, 4).is_none(),
        "a changed sequence means a torn frame"
    );
    assert!(reader.try_read(2, &frame, count as u32, 2).is_some());
}

#[test]
fn corpus_extractor_returns_newest_first() {
    let entries = vec![b"old".to_vec(), b"mid".to_vec(), b"new".to_vec()];
    let ex = CorpusExtractor;
    let got = ex.extract(&entries, 2).expect("entries exist");
    assert_eq!(got, vec![b"new".to_vec(), b"mid".to_vec()]);
    let all = ex.extract(&entries, 10).expect("entries exist");
    assert_eq!(
        all,
        vec![b"new".to_vec(), b"mid".to_vec(), b"old".to_vec()]
    );
    let none: Vec<Vec<u8>> = Vec::new();
    assert!(ex.extract(&none, 5).is_none());
    assert!(ex.extract(&entries, 0).is_none());
}

#[test]
fn decoding_stops_at_a_truncated_record() {
    // One whole record, then a header promising more bytes than exist.
    let mut frame = vec![2u8, 0, b'o', b'k'];
    frame.extend_from_slice(&[9, 0, b'x']);
    let back = decode_frame(&frame, 2);
    assert_eq!(back, vec![b"ok".to_vec()]);
}
