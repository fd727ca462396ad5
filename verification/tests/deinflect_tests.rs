use ace::deinflect::{Deinflector, ReasonInfo, RULE_V1, RULE_V5};

fn rule(kana_in: &str, kana_out: &str, rules_in: &[&str], rules_out: &[&str]) -> ReasonInfo {
    ReasonInfo {
        kana_in: kana_in.to_string(),
        kana_out: kana_out.to_string(),
        rules_in: rules_in.iter().map(|s| s.to_string()).collect(),
        rules_out: rules_out.iter().map(|s| s.to_string()).collect(),
    }
}

fn negative_table() -> Deinflector {
    Deinflector::new(vec![(
        "negative".to_string(),
        vec![rule("ない", "る", &["v1"], &["v1"])],
    )])
}

#[test]
fn deinflect_keeps_input_first() {
    let d = negative_table();
    let results = d.deinflect("食べない".to_string());
    assert!(results.len() >= 1);
    assert_eq!(results[0].term, "食べない");
    assert_eq!(results[0].rules, 0);
    assert!(results[0].reasons.is_empty());
}

#[test]
fn deinflect_empty_word_is_sole_candidate() {
    let d = negative_table();
    let results = d.deinflect(String::new());
    assert_eq!(results.len(), 1);
    assert_eq!(results[0].term, "");
}

#[test]
fn negative_rule_yields_ru_candidate_with_one_reason() {
    let d = negative_table();
    let results = d.deinflect("食べない".to_string());
    assert_eq!(results.len(), 2);
    assert_eq!(results[1].term, "食べる");
    assert!(results[1].term.ends_with("る"));
    assert_eq!(results[1].reasons.len(), 1);
    assert_eq!(results[1].reasons[0], "negative");
    assert_eq!(results[1].rules, RULE_V1);
}

#[test]
fn multi_step_deinflection_is_breadth_first() {
    // 食べない -> 食べる (negative) -> 食べ (stem): the intermediate form
    // must surface before rules apply to it in turn
    let d = Deinflector::new(vec![
        (
            "negative".to_string(),
            vec![rule("ない", "る", &["v1"], &["v1"])],
        ),
        ("stem".to_string(), vec![rule("る", "", &["v1"], &[])]),
    ]);
    let results = d.deinflect("食べない".to_string());
    let terms: Vec<&str> = results.iter().map(|r| r.term.as_str()).collect();
    let ru = terms.iter().position(|t| *t == "食べる").expect("intermediate candidate");
    let stem = terms.iter().position(|t| *t == "食べ").expect("stem candidate");
    assert!(ru < stem);
    let stem_reasons = &results[stem].reasons;
    assert_eq!(stem_reasons.len(), 2);
    assert_eq!(stem_reasons[0], "stem");
    assert_eq!(stem_reasons[1], "negative");
}

#[test]
fn category_mask_gates_rules() {
    // the candidate produced by the first rule carries the v5 class only,
    // so a v1-gated rule must not fire on it
    let d = Deinflector::new(vec![
        (
            "past".to_string(),
            vec![rule("た", "る", &[], &["v5"])],
        ),
        ("stem".to_string(), vec![rule("る", "", &["v1"], &[])]),
    ]);
    let results = d.deinflect("食べた".to_string());
    let terms: Vec<&str> = results.iter().map(|r| r.term.as_str()).collect();
    assert!(terms.contains(&"食べる"));
    assert!(!terms.contains(&"食べ"));
}

#[test]
fn empty_result_terms_are_rejected() {
    let d = Deinflector::new(vec![(
        "whole".to_string(),
        vec![rule("ない", "", &[], &[])],
    )]);
    let results = d.deinflect("ない".to_string());
    assert_eq!(results.len(), 1);
}

#[test]
fn rule_to_rule_flags_unions_known_categories() {
    let flags = Deinflector::rule_to_rule_flags(&vec!["v1".to_string(), "v5".to_string()]);
    assert_eq!(flags, RULE_V1 | RULE_V5);
}

#[test]
fn rule_to_rule_flags_drops_unknown_categories() {
    let flags = Deinflector::rule_to_rule_flags(&vec![
        "v1".to_string(),
        "not-a-category".to_string(),
    ]);
    assert_eq!(flags, RULE_V1);
}

#[test]
fn normalize_reasons_resolves_bitmasks() {
    let normalized = Deinflector::normalize_reasons(vec![(
        "negative".to_string(),
        vec![rule("ない", "る", &["v1"], &["v1", "v5"])],
    )]);
    assert_eq!(normalized.len(), 1);
    assert_eq!(normalized[0].0, "negative");
    assert_eq!(normalized[0].1.len(), 1);
    assert_eq!(normalized[0].1[0].kana_in, "ない");
    assert_eq!(normalized[0].1[0].kana_out, "る");
    assert_eq!(normalized[0].1[0].bits_in, RULE_V1);
    assert_eq!(normalized[0].1[0].bits_out, RULE_V1 | RULE_V5);
}
