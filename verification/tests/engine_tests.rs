use typewriter::engine::permutator;

fn strs(v: &[&str]) -> Vec<String> {
    v.iter().map(|s| s.to_string()).collect()
}

fn run(domain: &str, domains: &[&str], tokens: &[&str], depth: i32, first: bool) -> Vec<String> {
    let doms = strs(domains);
    let toks = strs(tokens);
    let mut out: Vec<String> = Vec::new();
    permutator(domain, &doms, &toks, depth, first, &mut out);
    out
}

#[test]
fn apex_domain_scenario_emits_dot_candidate() {
    let out = run("foo.com", &["foo.com"], &["www"], 1, true);
    assert_eq!(out, strs(&["www.foo.com"]));
}

#[test]
fn first_label_equal_token_emits_nothing_for_that_token() {
    let out = run("dev.example.com", &["dev.example.com"], &["dev"], 1, true);
    assert!(out.is_empty());
}

#[test]
fn other_tokens_still_produce_candidates() {
    let out = run("dev.example.com", &["dev.example.com"], &["dev", "www"], 1, true);
    assert_eq!(out, strs(&["www.dev.example.com", "www-dev.example.com"]));
}

#[test]
fn digit_adjacent_scenario_emits_both_joins() {
    let out = run("1.example.com", &["1.example.com"], &["test1"], 1, true);
    assert_eq!(out, strs(&["test1.1.example.com", "test1-1.example.com"]));
}

#[test]
fn known_candidates_are_suppressed() {
    let out = run(
        "dev.example.com",
        &["dev.example.com", "www.dev.example.com"],
        &["www"],
        1,
        true,
    );
    assert_eq!(out, strs(&["www-dev.example.com"]));
}

#[test]
fn two_label_candidates_are_never_emitted() {
    let out = run("com", &["com"], &["www"], 1, true);
    assert!(out.is_empty());
}

#[test]
fn depth_two_recurses_once() {
    let out = run("x.com", &["x.com"], &["a"], 2, true);
    assert_eq!(out, strs(&["a.x.com"]));
}

#[test]
fn zero_depth_emits_nothing() {
    let out = run("x.com", &["x.com"], &["a"], 0, true);
    assert!(out.is_empty());
}

#[test]
fn apex_augmentation_fires_only_at_depth_one_first_level() {
    let out = run(
        "dev1.staging.example.com",
        &["dev1.staging.example.com"],
        &["api"],
        1,
        true,
    );
    assert_eq!(
        out,
        strs(&[
            "api.dev1.staging.example.com",
            "api-dev1.staging.example.com",
            "dev1apistaging.example.com",
            "dev1-apistaging.example.com",
        ])
    );
}

#[test]
fn apex_augmentation_skipped_on_recursive_levels() {
    let out = run(
        "dev1.staging.example.com",
        &["dev1.staging.example.com"],
        &["api"],
        1,
        false,
    );
    assert_eq!(
        out,
        strs(&["api.dev1.staging.example.com", "api-dev1.staging.example.com"])
    );
}

#[test]
fn apex_augmentation_skipped_when_stripped_label_matches() {
    let out = run("api1.staging.example.com", &["api1.staging.example.com"], &["api"], 1, true);
    assert!(out.is_empty());
}

#[test]
fn depth_two_traverses_all_tokens_in_order() {
    let out = run("x.com", &["x.com"], &["a", "b"], 2, true);
    assert_eq!(
        out,
        strs(&["a.x.com", "b.a.x.com", "b-a.x.com", "b.x.com", "a.b.x.com", "a-b.x.com"])
    );
}

#[test]
fn emission_count_stays_under_geometric_bound() {
    let out = run("x.com", &["x.com"], &["a", "b"], 2, true);
    // Bound for two tokens: one level gives 2 * (2 * (1 + 0) + 2) = 8,
    // two levels give 2 * (2 * (1 + 8) + 2) = 40.
    assert!(out.len() <= 40);
}
