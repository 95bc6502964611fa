//! Behavior of the individual pipeline processors.

use token_discovery::config::ProcessorConfig;
use token_discovery::processors::build_pipeline;
use token_discovery::processors::run_pipeline;
use token_discovery::processors::sort_tokens_by_len;
use token_discovery::processors::FilterNullBytes;
use token_discovery::processors::KeepStrategy;
use token_discovery::processors::Processor;
use token_discovery::processors::RemoveRepetitive;
use token_discovery::processors::RemoveSimilar;
use token_discovery::processors::RemoveSubstrings;
use token_discovery::processors::SplitAt;
use token_discovery::processors::Sais;
use token_discovery::processors::SelectionMode;
use token_discovery::processors::StripBytes;
use token_discovery::ratio::Ratio;

fn toks(entries: &[&[u8]]) -> Vec<Vec<u8>> {
    entries.iter().map(|e| e.to_vec()).collect()
}

#[test]
fn strip_bytes_then_filter_null_bytes() {
    let strip = StripBytes { bytes_to_strip: vec![0x20, 0x00], min_length: 3 };
    let input = toks(&[b" \x00hello\x00 ", b"\x00\x00\x00", b"world"]);
    let stripped = strip.process(input).expect("two tokens survive");
    assert_eq!(stripped, toks(&[b"hello", b"world"]));

    let nulls = FilterNullBytes { max_ratio: Ratio::new(1, 5) };
    let out = nulls.process(stripped).expect("both survive the null filter");
    assert_eq!(out, toks(&[b"hello", b"world"]));
}

#[test]
fn strip_bytes_drops_all_when_everything_is_stripped() {
    let strip = StripBytes { bytes_to_strip: vec![b'-'], min_length: 1 };
    assert!(strip.process(toks(&[b"---", b"--"])).is_none());
}

#[test]
fn filter_null_bytes_drops_heavy_tokens() {
    let nulls = FilterNullBytes { max_ratio: Ratio::new(1, 4) };
    let out = nulls
        .process(toks(&[b"a\x00\x00\x00", b"abcd", b"ab\x00cd"]))
        .expect("something survives");
    // 3/4 > 1/4 dropped; 0/4 kept; 1/5 <= 1/4 kept.
    assert_eq!(out, toks(&[b"abcd", b"ab\x00cd"]));
}

#[test]
fn split_at_splits_on_each_delimiter_in_order() {
    let split = SplitAt { delimiters: toks(&[b", ", b"="]), min_length: 1 };
    let out = split
        .process(toks(&[b"a=1, b=22, c=333"]))
        .expect("fragments survive");
    assert_eq!(out, toks(&[b"a", b"1", b"b", b"22", b"c", b"333"]));
}

#[test]
fn split_at_drops_short_fragments_and_keeps_pieces_contiguous() {
    let split = SplitAt { delimiters: toks(&[b"--"]), min_length: 3 };
    let input = toks(&[b"abc--x--defg"]);
    let out = split.process(input).expect("long fragments survive");
    assert_eq!(out, toks(&[b"abc", b"defg"]));
    for t in out.iter() {
        assert!(t.len() >= 3);
        assert!(b"abc--x--defg".windows(t.len()).any(|w| w == t.as_slice()));
    }
}

#[test]
fn split_at_empty_delimiter_is_a_no_op() {
    let split = SplitAt { delimiters: toks(&[b""]), min_length: 1 };
    let out = split.process(toks(&[b"abc"])).expect("kept");
    assert_eq!(out, toks(&[b"abc"]));
}

#[test]
fn remove_repetitive_drops_dominated_tokens() {
    let rep = RemoveRepetitive { threshold: Ratio::new(4, 5) };
    let out = rep
        .process(toks(&[b"aaaaa", b"aaaab", b"abcde"]))
        .expect("varied tokens survive");
    // "aaaaa": 5/5 >= 4/5 dropped. "aaaab": 4/5 >= 4/5 dropped. "abcde" kept.
    assert_eq!(out, toks(&[b"abcde"]));
}

#[test]
fn remove_repetitive_drops_empty_tokens() {
    let rep = RemoveRepetitive { threshold: Ratio::new(9, 10) };
    assert!(rep.process(toks(&[b""])).is_none());
}

#[test]
fn remove_substrings_keeps_only_maximal_tokens() {
    let rs = RemoveSubstrings;
    let out = rs
        .process(toks(&[b"cde", b"abcdef", b"abc", b"xyz"]))
        .expect("maximal tokens survive");
    let mut got = out;
    got.sort();
    assert_eq!(got, toks(&[b"abcdef", b"xyz"]));
}

#[test]
fn remove_substrings_never_grows_the_list() {
    let rs = RemoveSubstrings;
    let input = toks(&[b"aa", b"bb", b"aabb"]);
    let out = rs.process(input).expect("kept");
    assert!(out.len() <= 3);
    for t in out.iter() {
        assert!([b"aa".to_vec(), b"bb".to_vec(), b"aabb".to_vec()].contains(t));
    }
}

#[test]
fn remove_similar_keeps_longer_of_a_similar_pair() {
    let sim = RemoveSimilar { threshold: Ratio::new(4, 5), keep: KeepStrategy::Longer };
    // "abcdefghij" and "abcdefghiX" differ by one of ten: similarity 9/10 >= 4/5.
    let out = sim
        .process(toks(&[b"abcdefghiX", b"abcdefghij", b"qrs"]))
        .expect("kept");
    assert_eq!(out.len(), 2);
    assert!(out.iter().any(|t| t.as_slice() == b"qrs"));
    assert!(
        out.iter().any(|t| t.len() == 10),
        "one of the similar pair survives"
    );
}

#[test]
fn remove_similar_keeps_dissimilar_tokens() {
    let sim = RemoveSimilar { threshold: Ratio::new(9, 10), keep: KeepStrategy::Shorter };
    let input = toks(&[b"aaaa", b"zzzz"]);
    let out = sim.process(input).expect("kept");
    assert_eq!(out.len(), 2);
}

#[test]
fn sort_tokens_by_len_orders_both_ways() {
    let desc = sort_tokens_by_len(toks(&[b"a", b"ccc", b"bb"]), true);
    assert_eq!(desc, toks(&[b"ccc", b"bb", b"a"]));
    let asc = sort_tokens_by_len(toks(&[b"a", b"ccc", b"bb"]), false);
    assert_eq!(asc, toks(&[b"a", b"bb", b"ccc"]));
}

#[test]
fn processors_never_lengthen_tokens() {
    let inputs = toks(&[b"  hello  ", b"a=b=c", b"ababab", b"hello"]);
    let longest = inputs.iter().map(|t| t.len()).max().unwrap();
    let strip = StripBytes { bytes_to_strip: vec![b' '], min_length: 1 };
    if let Some(out) = strip.process(inputs.clone()) {
        assert!(out.len() <= inputs.len());
        for t in out.iter() {
            assert!(t.len() <= longest);
        }
    }
    let split = SplitAt { delimiters: toks(&[b"="]), min_length: 1 };
    if let Some(out) = split.process(inputs.clone()) {
        for t in out.iter() {
            assert!(t.len() <= longest);
        }
    }
    let sim = RemoveSimilar { threshold: Ratio::new(9, 10), keep: KeepStrategy::Longer };
    if let Some(out) = sim.process(inputs.clone()) {
        assert!(out.len() <= inputs.len());
        for t in out.iter() {
            assert!(t.len() <= longest);
        }
    }
    let rs = RemoveSubstrings;
    if let Some(out) = rs.process(inputs.clone()) {
        assert!(out.len() <= inputs.len());
        for t in out.iter() {
            assert!(t.len() <= longest);
        }
    }
}

#[test]
fn pipeline_is_built_from_the_configuration() {
    let configs = vec![
        ProcessorConfig::StripBytes { bytes: vec![b' '], min_length: None },
        ProcessorConfig::SplitAt { delimiters: vec![vec![b'=']], min_length: Some(1) },
        ProcessorConfig::FilterNullBytes { max_ratio: Ratio::new(1, 2) },
    ];
    let pipeline = build_pipeline(&configs, 2, 16);
    assert_eq!(pipeline.len(), 3);
    let out = run_pipeline(&pipeline, toks(&[b"  ab=cd  ", b"  x  "]))
        .expect("fragments survive the whole pipeline");
    assert_eq!(out, toks(&[b"ab", b"cd"]));
}

#[test]
fn pipeline_aborts_when_a_step_empties_the_list() {
    let configs = vec![ProcessorConfig::StripBytes { bytes: vec![b'-'], min_length: None }];
    let pipeline = build_pipeline(&configs, 2, 16);
    assert!(run_pipeline(&pipeline, toks(&[b"----"])).is_none());
}

#[test]
fn sais_processor_replaces_tokens_by_common_substrings() {
    let sais = Sais {
        min_len: 4,
        max_len: 16,
        mode: SelectionMode::Threshold(Ratio::new(1, 1)),
    };
    let out = sais
        .process(toks(&[b"abcdefgh", b"xxabcdefyy", b"--abcdefgh!!"]))
        .expect("shared substrings exist");
    assert!(out.iter().any(|t| t.as_slice() == b"abcdef"));
    for t in out.iter() {
        assert!(t.len() >= 4 && t.len() <= 16);
    }
}

#[test]
fn split_at_passes_short_data_through() {
    let split = SplitAt { delimiters: toks(&[b"longdelim"]), min_length: 1 };
    let out = split.process(toks(&[b"abc"])).expect("kept unchanged");
    assert_eq!(out, toks(&[b"abc"]));
}
