use typewriter::numeric::permutator_numbers;
use typewriter::wordlist::{generate_permutations, go_bananas};
use typewriter::domains::generate_domains;

fn sorted(mut v: Vec<String>) -> Vec<String> {
    v.sort();
    v
}

fn strs(v: &[&str]) -> Vec<String> {
    v.iter().map(|s| s.to_string()).collect()
}

#[test]
fn single_run_counts_match_magnitude() {
    let mut v: Vec<String> = Vec::new();
    permutator_numbers(&mut v, "a5", 2).unwrap();
    assert_eq!(sorted(v), sorted(strs(&["a6", "a4", "a7", "a3"])));
}

#[test]
fn decrements_stop_before_negative() {
    let mut v: Vec<String> = Vec::new();
    permutator_numbers(&mut v, "a0", 1).unwrap();
    assert_eq!(v, strs(&["a1"]));
}

#[test]
fn leading_zeros_are_dropped_by_mutation() {
    let mut v: Vec<String> = Vec::new();
    permutator_numbers(&mut v, "a007", 1).unwrap();
    assert_eq!(sorted(v), sorted(strs(&["a8", "a6"])));
}

#[test]
fn runs_are_mutated_independently() {
    let mut v: Vec<String> = Vec::new();
    permutator_numbers(&mut v, "1a2", 1).unwrap();
    assert_eq!(sorted(v), sorted(strs(&["2a2", "0a2", "1a3", "1a1"])));
}

#[test]
fn oversized_run_is_an_overflow_error() {
    let mut v: Vec<String> = Vec::new();
    assert!(permutator_numbers(&mut v, "a9999999999", 1).is_err());
}

#[test]
fn token_without_digits_yields_no_variants() {
    let mut v: Vec<String> = Vec::new();
    permutator_numbers(&mut v, "dev", 3).unwrap();
    assert!(v.is_empty());
}

#[test]
fn nonpositive_magnitude_yields_no_variants() {
    let mut v: Vec<String> = Vec::new();
    permutator_numbers(&mut v, "a5", 0).unwrap();
    assert!(v.is_empty());
}

#[test]
fn hyphen_fragments_are_inserted() {
    let mut v: Vec<String> = Vec::new();
    go_bananas(&mut v, "dev-api", 1).unwrap();
    assert_eq!(sorted(v), sorted(strs(&["dev", "api"])));
}

#[test]
fn empty_fragments_are_skipped() {
    let mut v: Vec<String> = Vec::new();
    go_bananas(&mut v, "-a--b-", 1).unwrap();
    assert_eq!(sorted(v), sorted(strs(&["a", "b"])));
}

#[test]
fn compound_line_yields_whole_and_fragments() {
    let toks = generate_permutations(&strs(&["dev-api"]), 1).unwrap();
    assert_eq!(sorted(toks), sorted(strs(&["dev-api", "dev", "api"])));
}

#[test]
fn line_tokens_include_numeric_variants() {
    let toks = generate_permutations(&strs(&["dev-api2"]), 1).unwrap();
    assert_eq!(
        sorted(toks),
        sorted(strs(&["dev-api2", "dev-api3", "dev-api1", "dev", "api2", "api3", "api1"]))
    );
}

#[test]
fn spaces_are_stripped_from_lines() {
    let toks = generate_permutations(&strs(&[" d e v "]), 1).unwrap();
    assert_eq!(toks, strs(&["dev"]));
}

#[test]
fn duplicate_lines_collapse() {
    let toks = generate_permutations(&strs(&["dev", "dev"]), 1).unwrap();
    assert_eq!(toks, strs(&["dev"]));
}

#[test]
fn token_set_content_is_deterministic() {
    let lines = strs(&["dev-api2", "www", "a-1"]);
    let a = generate_permutations(&lines, 2).unwrap();
    let b = generate_permutations(&lines, 2).unwrap();
    assert_eq!(sorted(a), sorted(b));
}

#[test]
fn overflowing_line_fails_the_loader() {
    assert!(generate_permutations(&strs(&["ok", "9999999999"]), 1).is_err());
}

#[test]
fn overflowing_fragment_fails_the_splitter() {
    let mut v: Vec<String> = Vec::new();
    assert!(go_bananas(&mut v, "x-9999999999", 1).is_err());
}

#[test]
fn overflowing_fragment_fails_the_loader() {
    assert!(generate_permutations(&strs(&["a-9999999999"]), 1).is_err());
}

#[test]
fn depth_doubles_as_numeric_spread() {
    let toks = generate_permutations(&strs(&["a1"]), 2).unwrap();
    assert_eq!(sorted(toks), sorted(strs(&["a1", "a2", "a0", "a3"])));
}

#[test]
fn domain_lines_are_cleaned_filtered_and_deduplicated() {
    let doms = generate_domains(&strs(&[" foo .com", "nodots", "foo.com", "b.c"]));
    assert_eq!(sorted(doms), sorted(strs(&["foo.com", "b.c"])));
}

#[test]
fn digit_stripping_removes_every_digit() {
    assert_eq!(typewriter::strutil::strip_digits_str("a1b22c"), "abc");
}
