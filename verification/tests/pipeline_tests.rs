use mapreduce::hasher::{hash, partition};
use mapreduce::kv::parse_line;
use mapreduce::names::{map_filename, merge_filename, reduce_filename, result_filename};
use mapreduce::num::{parse_u64, u64_to_string};
use mapreduce::pipeline::{do_map, do_reduce, merge, run_single, split, JobError};
use mapreduce::wordcount::{reduce, Mapper, WordCount};

fn run_wc(nmap: usize, nreduce: usize, content: &str) -> mapreduce::pipeline::JobOutput {
    run_single(nmap, nreduce, content, &WordCount, &WordCount).unwrap()
}

#[test]
fn end_to_end_word_count() {
    let input = "the cat sat on the mat\nthe cat ran\n";
    let out = run_wc(2, 2, input);
    assert_eq!(out.result, "cat 2\nmat 1\non 1\nran 1\nsat 1\nthe 3\n");
}

#[test]
fn idempotent_runs_produce_identical_files() {
    let input = "the cat sat on the mat\nthe cat ran\n";
    let a = run_wc(2, 2, input);
    let b = run_wc(2, 2, input);
    assert_eq!(a.map_inputs, b.map_inputs);
    assert_eq!(a.intermediates, b.intermediates);
    assert_eq!(a.partials, b.partials);
    assert_eq!(a.result, b.result);
}

#[test]
fn malformed_line_fails_reduce() {
    let inputs = vec!["good 1\nbad line here\n".to_string()];
    assert_eq!(do_reduce(&inputs, &WordCount), Err(JobError::MalformedLine));
}

#[test]
fn empty_line_fails_reduce() {
    let inputs = vec!["a 1\n\n".to_string()];
    assert_eq!(do_reduce(&inputs, &WordCount), Err(JobError::MalformedLine));
}

#[test]
fn reduce_groups_and_sorts() {
    let inputs = vec!["b 1\na 1\n".to_string(), "a 1\nc 1\n".to_string()];
    let out = do_reduce(&inputs, &WordCount).unwrap();
    assert_eq!(out, "a 2\nb 1\nc 1\n");
}

#[test]
fn merge_sorts_across_partials() {
    let partials = vec!["b 2\n".to_string(), "a 1\nc 3\n".to_string()];
    assert_eq!(merge(&partials).unwrap(), "a 1\nb 2\nc 3\n");
}

#[test]
fn merge_rejects_duplicate_key() {
    let partials = vec!["a 1\n".to_string(), "a 2\n".to_string()];
    assert_eq!(merge(&partials), Err(JobError::DuplicateKey));
}

#[test]
fn merge_rejects_malformed_partial() {
    let partials = vec!["a\n".to_string()];
    assert_eq!(merge(&partials), Err(JobError::MalformedLine));
}

#[test]
fn invalid_config_is_rejected() {
    assert!(matches!(
        run_single(0, 3, "x\n", &WordCount, &WordCount),
        Err(JobError::InvalidConfig)
    ));
    assert!(matches!(
        run_single(5, 0, "x\n", &WordCount, &WordCount),
        Err(JobError::InvalidConfig)
    ));
}

#[test]
fn split_covers_input_exactly() {
    for input in [
        "",
        "one line no terminator",
        "a\nb\nc\nd\ne\n",
        "the cat sat on the mat\nthe cat ran\n",
        "x\n",
    ] {
        for nmap in [1usize, 2, 3, 5, 10] {
            let chunks = split(input, nmap);
            assert_eq!(chunks.len(), nmap);
            let joined: String = chunks.concat();
            assert_eq!(joined, input);
        }
    }
}

#[test]
fn split_never_cuts_a_line() {
    let input = "alpha beta\ngamma\ndelta epsilon zeta\neta\n";
    for nmap in [1usize, 2, 3, 4, 8] {
        for chunk in split(input, nmap) {
            assert!(chunk.is_empty() || chunk.ends_with('\n'));
        }
    }
}

#[test]
fn partition_is_deterministic_and_in_range() {
    for key in ["the", "cat", "a", "zebra", "42"] {
        let first = partition(key, 3);
        let second = partition(key, 3);
        assert_eq!(first, second);
        assert!(first < 3);
        assert_eq!(hash(key), hash(key));
    }
}

#[test]
fn every_key_lands_in_exactly_one_partition() {
    let nreduce = 3;
    let outs = do_map("the cat sat on the mat the cat ran", nreduce, &WordCount);
    assert_eq!(outs.len(), nreduce);
    for key in ["the", "cat", "sat", "on", "mat", "ran"] {
        let holders = outs
            .iter()
            .filter(|text| {
                text.lines()
                    .any(|l| l.split_whitespace().next() == Some(key))
            })
            .count();
        assert_eq!(holders, 1, "key {} must sit in exactly one partition", key);
    }
}

#[test]
fn pipeline_counts_match_direct_count() {
    let input = "red blue red\ngreen blue red\n";
    for (nmap, nreduce) in [(1, 1), (2, 3), (3, 2), (5, 5)] {
        let out = run_wc(nmap, nreduce, input);
        let mut expect: Vec<(&str, usize)> = vec![("blue", 2), ("green", 1), ("red", 3)];
        expect.sort();
        let got: Vec<(String, usize)> = out
            .result
            .lines()
            .map(|l| {
                let mut it = l.split_whitespace();
                (
                    it.next().unwrap().to_string(),
                    it.next().unwrap().parse().unwrap(),
                )
            })
            .collect();
        let expect: Vec<(String, usize)> =
            expect.iter().map(|(k, n)| (k.to_string(), *n)).collect();
        assert_eq!(got, expect);
    }
}

#[test]
fn final_result_keys_strictly_increase() {
    let out = run_wc(3, 2, "pear apple orange apple kiwi banana kiwi\n");
    let keys: Vec<&str> = out
        .result
        .lines()
        .map(|l| l.split_whitespace().next().unwrap())
        .collect();
    for pair in keys.windows(2) {
        assert!(pair[0] < pair[1]);
    }
}

#[test]
fn mapper_strips_to_alphanumeric_tokens() {
    let pairs = WordCount.apply("it's a trap! 99 bottles");
    let keys: Vec<&str> = pairs.iter().map(|kv| kv.key.as_str()).collect();
    assert_eq!(keys, vec!["its", "a", "trap", "99", "bottles"]);
    assert!(pairs.iter().all(|kv| kv.value == "1"));
}

#[test]
fn mapper_drops_tokens_with_no_kept_characters() {
    let pairs = WordCount.apply("--- !!! one ---");
    let keys: Vec<&str> = pairs.iter().map(|kv| kv.key.as_str()).collect();
    assert_eq!(keys, vec!["one"]);
}

#[test]
fn reduce_sums_numeric_values() {
    let values = vec!["1".to_string(), "1".to_string(), "1".to_string()];
    assert_eq!(reduce("anything", &values), "3");
    let values = vec!["10".to_string(), "32".to_string()];
    assert_eq!(reduce("k", &values), "42");
}

#[test]
fn reduce_counts_non_numeral_values_as_zero() {
    let values = vec!["1".to_string(), "x".to_string(), "2".to_string()];
    assert_eq!(reduce("k", &values), "3");
}

#[test]
fn parse_line_wants_exactly_two_tokens() {
    let kv = parse_line("key value").unwrap();
    assert_eq!(kv.key, "key");
    assert_eq!(kv.value, "value");
    let kv = parse_line("  key   value  ").unwrap();
    assert_eq!(kv.key, "key");
    assert_eq!(kv.value, "value");
    assert!(parse_line("three token line").is_none());
    assert!(parse_line("single").is_none());
    assert!(parse_line("").is_none());
}

#[test]
fn filenames_follow_the_patterns() {
    assert_eq!(map_filename("kjv.txt", 0), "mrtmp.kjv.txt-0");
    assert_eq!(map_filename("in", 12), "mrtmp.in-12");
    assert_eq!(reduce_filename("in", 3, 7), "mrtmp.in-3-7");
    assert_eq!(merge_filename("in", 2), "mrtmp.in-res-2");
    assert_eq!(result_filename("in"), "mrtmp.in");
}

#[test]
fn numerals_round_trip() {
    for n in [0u64, 1, 9, 10, 99, 100, 12345, u64::MAX] {
        let s = u64_to_string(n);
        assert_eq!(parse_u64(&s), Some(n));
    }
    assert_eq!(parse_u64(""), None);
    assert_eq!(parse_u64("12a"), None);
    assert_eq!(parse_u64("18446744073709551615"), Some(u64::MAX));
    assert_eq!(parse_u64("18446744073709551616"), None);
}

#[test]
fn intermediate_files_are_fresh_per_run() {
    let input = "a b a\nb a b\n";
    let out = run_wc(2, 2, input);
    assert_eq!(out.map_inputs.len(), 2);
    assert_eq!(out.intermediates.len(), 2);
    for per_map in &out.intermediates {
        assert_eq!(per_map.len(), 2);
    }
    assert_eq!(out.partials.len(), 2);
}
