//! End-to-end checks of the suffix-array discovery.

use token_discovery::common_substring_discovery::clean_token;
use token_discovery::common_substring_discovery::find_common_substrings;
use token_discovery::common_substring_discovery::select_min_token_count;
use token_discovery::common_substring_discovery::select_threshold;
use token_discovery::common_substring_discovery::Candidate;
use token_discovery::common_substring_discovery::TokenSelectionMode;
use token_discovery::ratio::Ratio;
use token_discovery::suffix::suffix_array_with_lcp;

fn corpus(entries: &[&[u8]]) -> Vec<Vec<u8>> {
    entries.iter().map(|e| e.to_vec()).collect()
}

fn count_entries_containing(corpus: &[Vec<u8>], needle: &[u8]) -> usize {
    corpus
        .iter()
        .filter(|e| e.windows(needle.len()).any(|w| w == needle))
        .count()
}

#[test]
fn simple_common_substring() {
    let c = corpus(&[b"abcdefgh", b"xxabcdefyy", b"--abcdefgh!!"]);
    let strip: Vec<u8> = Vec::new();
    let res = find_common_substrings(
        &c,
        4,
        16,
        TokenSelectionMode::Threshold(Ratio::new(1, 1)),
        &strip,
        None,
        false,
    )
    .expect("discovery must run on a nonempty corpus");
    assert_eq!(res.corpus_size, 3);
    assert_eq!(res.threshold_absolute, 3);
    assert!(
        res.tokens.iter().any(|t| t.as_slice() == b"abcdef"),
        "expected the shared substring"
    );
    for t in res.tokens.iter() {
        assert!(t.len() >= 4 && t.len() <= 16);
        assert!(count_entries_containing(&c, t) >= 3);
    }
}

#[test]
fn input_boundary_guard() {
    // A scan without the boundary rule would join "foo" and "bar" into
    // "foobar" and report it as shared with the third entry.
    let c = corpus(&[b"foo", b"bar", b"foobar"]);
    let strip: Vec<u8> = Vec::new();
    let res = find_common_substrings(
        &c,
        6,
        16,
        TokenSelectionMode::Threshold(Ratio::new(1, 2)),
        &strip,
        None,
        false,
    );
    match res {
        None => {},
        Some(r) => assert!(r.tokens.is_empty(), "no token may span two entries"),
    }
}

#[test]
fn emitted_tokens_are_substrings_of_enough_entries() {
    let c = corpus(&[
        b"GET /index HTTP/1.0",
        b"GET /data HTTP/1.1",
        b"POST /index HTTP/1.1",
        b"HEAD /index HTTP/1.0",
    ]);
    let strip: Vec<u8> = Vec::new();
    let res = find_common_substrings(
        &c,
        4,
        12,
        TokenSelectionMode::Threshold(Ratio::new(1, 2)),
        &strip,
        None,
        false,
    )
    .expect("shared HTTP fragments exist");
    assert!(!res.tokens.is_empty());
    for t in res.tokens.iter() {
        assert!(t.len() >= 4 && t.len() <= 12);
        assert!(
            count_entries_containing(&c, t) >= res.threshold_absolute,
            "support below threshold for {:?}",
            t
        );
    }
}

#[test]
fn min_token_count_tie_handling() {
    let cands = vec![
        Candidate { bytes: b"AAAA".to_vec(), support: 5 },
        Candidate { bytes: b"BBBB".to_vec(), support: 5 },
        Candidate { bytes: b"CCCC".to_vec(), support: 3 },
        Candidate { bytes: b"DDDD".to_vec(), support: 3 },
        Candidate { bytes: b"EEEE".to_vec(), support: 2 },
    ];
    let (tokens, cutoff) = select_min_token_count(cands, 2);
    assert_eq!(cutoff, 5);
    let mut got: Vec<Vec<u8>> = tokens;
    got.sort();
    assert_eq!(got, vec![b"AAAA".to_vec(), b"BBBB".to_vec()]);

    let cands = vec![
        Candidate { bytes: b"AAAA".to_vec(), support: 5 },
        Candidate { bytes: b"BBBB".to_vec(), support: 5 },
        Candidate { bytes: b"CCCC".to_vec(), support: 3 },
        Candidate { bytes: b"DDDD".to_vec(), support: 3 },
        Candidate { bytes: b"EEEE".to_vec(), support: 2 },
    ];
    let (tokens, cutoff) = select_min_token_count(cands, 3);
    assert_eq!(cutoff, 3);
    let mut got: Vec<Vec<u8>> = tokens;
    got.sort();
    assert_eq!(
        got,
        vec![
            b"AAAA".to_vec(),
            b"BBBB".to_vec(),
            b"CCCC".to_vec(),
            b"DDDD".to_vec()
        ]
    );
}

#[test]
fn min_token_count_never_exceeds_candidates() {
    let cands = vec![
        Candidate { bytes: b"AAAA".to_vec(), support: 4 },
        Candidate { bytes: b"AAAA".to_vec(), support: 4 },
        Candidate { bytes: b"BBBB".to_vec(), support: 2 },
    ];
    let (tokens, _) = select_min_token_count(cands, 10);
    assert!(tokens.len() <= 3);
    assert_eq!(tokens.len(), 2, "duplicates are removed");
}

#[test]
fn threshold_selection_is_exact() {
    let cands = vec![
        Candidate { bytes: b"high".to_vec(), support: 9 },
        Candidate { bytes: b"low!".to_vec(), support: 2 },
        Candidate { bytes: b"high".to_vec(), support: 9 },
    ];
    // ceil(10 * 0.3) = 3
    let (tokens, min_inputs) = select_threshold(&cands, Ratio::new(3, 10), 10);
    assert_eq!(min_inputs, 3);
    assert_eq!(tokens, vec![b"high".to_vec()]);
}

#[test]
fn empty_corpus_yields_nothing() {
    let c: Vec<Vec<u8>> = Vec::new();
    let strip: Vec<u8> = Vec::new();
    let res = find_common_substrings(
        &c,
        2,
        8,
        TokenSelectionMode::Threshold(Ratio::new(1, 2)),
        &strip,
        None,
        false,
    );
    assert!(res.is_none());
}

#[test]
fn cleaning_strips_and_filters() {
    // Shared material is " \x00abcd\x00 " in every entry; stripping removes
    // the frame and the null filter keeps the clean core.
    let c = corpus(&[b"yy \x00abcd\x00 y", b"zz \x00abcd\x00 z", b"qq \x00abcd\x00 q"]);
    let strip: Vec<u8> = vec![b' ', 0u8];
    let res = find_common_substrings(
        &c,
        3,
        16,
        TokenSelectionMode::Threshold(Ratio::new(1, 1)),
        &strip,
        Some(Ratio::new(1, 5)),
        true,
    )
    .expect("discovery must run");
    assert!(
        res.tokens.iter().any(|t| t.as_slice() == b"abcd"),
        "stripped token expected, got {:?}",
        res.tokens
    );
    for t in res.tokens.iter() {
        assert!(!t.starts_with(&[0]) && !t.ends_with(&[0]));
    }
}

#[test]
fn suffix_array_of_banana_is_correct() {
    let text = b"banana".to_vec();
    let (sa, lcp) = suffix_array_with_lcp(&text).expect("construction succeeds");
    // suffixes sorted: a(5), ana(3), anana(1), banana(0), na(4), nana(2)
    assert_eq!(sa, vec![5, 3, 1, 0, 4, 2]);
    assert_eq!(lcp, vec![0, 1, 3, 0, 0, 2]);
}

#[test]
fn discovery_handles_single_entry_without_tokens() {
    // One entry alone can never reach a support of two.
    let c = corpus(&[b"abcabcabc"]);
    let strip: Vec<u8> = Vec::new();
    let res = find_common_substrings(
        &c,
        3,
        8,
        TokenSelectionMode::Threshold(Ratio::new(1, 1)),
        &strip,
        None,
        false,
    );
    match res {
        None => {},
        Some(r) => {
            for t in r.tokens.iter() {
                assert!(count_entries_containing(&c, t) >= 1);
            }
        },
    }
}

#[test]
fn clean_token_trims_both_ends() {
    let set = vec![b' ', 0u8];
    let cleaned = clean_token(&b" \x00ab c\x00 ".to_vec(), &set).expect("a core remains");
    assert_eq!(cleaned, b"ab c".to_vec());
    assert!(clean_token(&b" \x00 ".to_vec(), &set).is_none());
    let empty_set: Vec<u8> = Vec::new();
    assert_eq!(
        clean_token(&b"abc".to_vec(), &empty_set).expect("nothing to strip"),
        b"abc".to_vec()
    );
}
