use compass_core::tags::{add_tag, extract_tags};

#[test]
fn test_extract_tags_normalizes_and_deduplicates() {
    let tags = extract_tags("tags:\n  - Rust\n  - '#rust'\n  - sqlite\n");
    assert_eq!(tags, vec!["Rust", "sqlite"]);
    assert_eq!(extract_tags("tags: knowledge\n"), vec!["knowledge"]);
}

#[test]
fn extract_tags_ignores_other_shapes() {
    assert!(extract_tags("tags: 3\n").is_empty());
    assert!(extract_tags("not yaml: [").is_empty());
    assert_eq!(extract_tags("tags:\n  - 1\n  - ' #a '\n  - '##'\n"), vec!["a"]);
}

#[test]
fn add_tag_rewrites_the_tag_block() {
    let fm = "id: a\ntags:\n  - math\n  - strategy\nscore:\n  interest: 1\nstatus: x";
    assert_eq!(
        add_tag(fm, "Rust"),
        "id: a\ntags:\n  - math\n  - strategy\n  - Rust\nscore:\n  interest: 1\nstatus: x"
    );
}

#[test]
fn add_tag_inserts_before_score_or_at_end() {
    assert_eq!(add_tag("id: a\nscore:\n  x: 1", "b"), "id: a\ntags:\n  - b\nscore:\n  x: 1");
    assert_eq!(add_tag("id: a", "b"), "id: a\ntags:\n  - b");
    assert_eq!(add_tag("tags: solo\nid: a", "b"), "tags:\n  - solo\n  - b\nid: a");
}

#[test]
fn add_tag_quotes_when_yaml_needs_it() {
    for tag in ["yes", "a: b", "x'y", "123"] {
        let out = add_tag("id: a", tag);
        assert!(out.starts_with("id: a\ntags:\n  - "));
        assert_eq!(extract_tags(&out), vec![tag]);
    }
}

#[test]
fn extracted_tags_are_distinct_ignoring_case() {
    let tags = extract_tags("id: a\ntags:\n  - Rust\n  - rust\n  - ' #Go '\n  - ''\n  - RUST\n");
    assert_eq!(tags, vec!["Rust".to_string(), "Go".to_string()]);
}
