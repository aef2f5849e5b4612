use compass_core::lexical::{is_stopword, lexical_tag_candidates, rank_tag_candidates};
use compass_core::related::lexical_term_set;

#[test]
fn stopwords_are_recognised() {
    assert!(is_stopword("the"));
    assert!(is_stopword("with"));
    assert!(!is_stopword("The"));
    assert!(!is_stopword("rust"));
}

#[test]
fn candidates_weight_title_and_category() {
    let c = rank_tag_candidates(Some("Game Theory"), Some("Nash Equilibrium"), "nash nash game 2024 a to", &[]);
    let got: Vec<(String, u64)> = c.iter().map(|c| (c.tag.clone(), c.count)).collect();
    assert_eq!(
        got,
        vec![
            ("nash".to_string(), 5),
            ("equilibrium".to_string(), 3),
            ("game".to_string(), 3),
            ("theory".to_string(), 2),
        ]
    );
    assert_eq!(c[0].reason, "lexical overlap count: 5");
}

#[test]
fn existing_tags_are_not_suggested_again() {
    let existing = vec!["NASH".to_string()];
    let c = rank_tag_candidates(None, None, "nash theory", &existing);
    let tags: Vec<&str> = c.iter().map(|c| c.tag.as_str()).collect();
    assert_eq!(tags, vec!["theory"]);
}

#[test]
fn at_most_twenty_candidates_are_ranked() {
    let body: String = (0..30).map(|i| format!("word{i:02}x ")).collect();
    let c = rank_tag_candidates(None, None, &body, &[]);
    assert_eq!(c.len(), 20);
    assert_eq!(c[0].tag, "word00x");
    assert_eq!(c[19].tag, "word19x");
}

#[test]
fn short_and_long_terms_are_dropped() {
    let long = "x".repeat(49);
    let c = rank_tag_candidates(None, None, &format!("a {long} ok 12 3d"), &[]);
    let tags: Vec<&str> = c.iter().map(|c| c.tag.as_str()).collect();
    assert_eq!(tags, vec!["3d", "ok"]);
}

#[test]
fn candidates_from_frontmatter() {
    let fm = "id: a\ntitle: Rust Ownership\ncategory: Programming\n";
    let c = lexical_tag_candidates(fm, "ownership rules", &["rust".to_string()]).unwrap();
    let got: Vec<(String, u64)> = c.iter().map(|c| (c.tag.clone(), c.count)).collect();
    assert_eq!(
        got,
        vec![("ownership".to_string(), 4), ("programming".to_string(), 2), ("rules".to_string(), 1)]
    );
}

#[test]
fn unicode_words_are_terms() {
    let c = rank_tag_candidates(None, None, "博弈论 博弈论 Ärger", &[]);
    let tags: Vec<&str> = c.iter().map(|c| c.tag.as_str()).collect();
    assert_eq!(tags, vec!["博弈论", "ärger"]);
}

#[test]
fn term_sets_are_distinct() {
    let mut terms = lexical_term_set("title: Alpha Beta\n", "beta gamma the").unwrap();
    terms.sort();
    assert_eq!(terms, vec!["alpha", "beta", "gamma"]);
    assert!(lexical_term_set("not: [yaml", "").unwrap().is_empty());
}
