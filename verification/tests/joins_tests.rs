use typewriter::joins::get_joins;

fn joins(domain: &str, token: &str, first: bool) -> Vec<String> {
    get_joins(domain, token, first)
}

#[test]
fn apex_domain_first_level_restricts_to_dot() {
    assert_eq!(joins("foo.com", "www", true), vec![".".to_string()]);
}

#[test]
fn apex_domain_rule_takes_precedence_over_equality() {
    assert_eq!(joins("foo.com", "foo", true), vec![".".to_string()]);
}

#[test]
fn apex_domain_not_first_level_uses_later_rules() {
    assert_eq!(joins("foo.com", "bar", false), vec![".".to_string(), "-".to_string()]);
}

#[test]
fn first_label_equality_gives_no_joins() {
    let empty: Vec<String> = Vec::new();
    assert_eq!(joins("dev.example.com", "dev", true), empty);
}

#[test]
fn digit_prefix_and_digit_suffix_keep_both_joins() {
    assert_eq!(joins("1.example.com", "test1", true), vec![".".to_string(), "-".to_string()]);
}

#[test]
fn long_token_prefixing_first_label_keeps_both_joins() {
    assert_eq!(joins("devapi.x.com", "deva", false), vec![".".to_string(), "-".to_string()]);
}

#[test]
fn digit_stripped_equality_gives_no_joins() {
    let empty: Vec<String> = Vec::new();
    assert_eq!(joins("api1.x.com", "api", false), empty);
}

#[test]
fn digit_stripped_suffix_restricts_to_dot() {
    assert_eq!(joins("api1.x.com", "pi", false), vec![".".to_string()]);
}

#[test]
fn unrelated_token_gets_both_joins() {
    assert_eq!(
        joins("dev.example.com", "www", true),
        vec![".".to_string(), "-".to_string()]
    );
}

#[test]
fn empty_domain_gets_both_joins() {
    assert_eq!(joins("", "www", false), vec![".".to_string(), "-".to_string()]);
}
