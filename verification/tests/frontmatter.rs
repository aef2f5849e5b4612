use compass_core::frontmatter::{content_updated_at, entity_fields, rewrite_score, yaml_scalar, EntityFields};
use compass_core::frontmatter::{
    extract_refs, has_unrendered_templater_marker, replace_score_block, split_frontmatter,
    FrontmatterError, MetadataPatchError,
};

fn sample_md() -> String {
    "---\n\
     id: know-000001\n\
     title: Game Theory\n\
     category: Knowledge\n\
     tags:\n  - math\n  - strategy\n\
     score:\n  interest: 5.0\n  strategy: 5.0\n  consensus: 0.0\n  composite: 3.2\n  updated_at: '2026-01-01T00:00:00+08:00'\n  last_boosted_at: '2026-01-01T00:00:00+08:00'\n  access_count: 0\n\
     status: active\n\
     ---\n\
     # Game Theory\n\n\
     ```mermaid\ngraph TD\nA-->B\n```\n\n\
     正文涉及 [[know-000002]]。\n"
        .to_string()
}

fn sample_block() -> String {
    "score:\n  interest: 8.5\n  strategy: 9.0\n  consensus: 7.0\n  composite: 8.2\n  updated_at: 2026-07-05T10:00:00+08:00\n  last_boosted_at: 2026-07-05T10:00:00+08:00\n  access_count: 3\n".to_string()
}

fn score_field(frontmatter: &str, field: &str) -> serde_yaml::Value {
    let v: serde_yaml::Value = serde_yaml::from_str(frontmatter).unwrap();
    v.get("score").unwrap().get(field).unwrap().clone()
}

#[test]
fn test_split_frontmatter() {
    let (fm, body) = split_frontmatter(&sample_md()).unwrap();
    assert!(fm.contains("id: know-000001"));
    assert!(fm.contains("score:"));
    assert!(body.contains("# Game Theory"));
    assert!(body.contains("```mermaid"));
}

#[test]
fn test_rejects_missing_frontmatter() {
    let r = split_frontmatter("no frontmatter here");
    assert!(r.is_err());
}

#[test]
fn test_split_frontmatter_handles_bom() {
    let md = format!("\u{feff}{}", sample_md());
    let (fm, body) = split_frontmatter(&md).unwrap();
    assert!(fm.contains("id: know-000001"));
    assert!(body.contains("# Game Theory"));
}

#[test]
fn split_frontmatter_names_the_missing_delimiter() {
    assert_eq!(split_frontmatter("text"), Err(FrontmatterError::MissingOpening));
    assert_eq!(split_frontmatter("---\nid: a\n"), Err(FrontmatterError::MissingClosing));
    assert_eq!(
        split_frontmatter("---\r\nid: a\r\n --- \r\nbody\r\nmore"),
        Ok(("id: a".to_string(), "body\nmore".to_string()))
    );
    assert_eq!(split_frontmatter("---\n---"), Ok((String::new(), String::new())));
}

#[test]
fn test_extract_refs_normalizes_aliases_and_headings() {
    assert_eq!(
        extract_refs("[[know-1|Display]] [[know-2#Heading]] [[know-3]]"),
        vec!["know-1", "know-2", "know-3"]
    );
}

#[test]
fn extract_refs_keeps_order_and_drops_empty_targets() {
    assert_eq!(extract_refs("[[ b ]] [[#only-heading]] [[|alias]] [[a]] [[b]]"), vec!["b", "a", "b"]);
    assert!(extract_refs("no links [single] here").is_empty());
}

#[test]
fn test_replace_score_preserves_other_fields() {
    let (fm, _) = split_frontmatter(&sample_md()).unwrap();
    let new_fm = replace_score_block(&fm, &sample_block());
    assert!(new_fm.contains("id: know-000001"));
    assert!(new_fm.contains("title: Game Theory"));
    assert!(new_fm.contains("category: Knowledge"));
    assert!(new_fm.contains("- math"));
    assert!(new_fm.contains("status: active"));
    assert_eq!(score_field(&new_fm, "interest").as_f64(), Some(8.5));
    assert_eq!(score_field(&new_fm, "composite").as_f64(), Some(8.2));
    assert_eq!(score_field(&new_fm, "access_count").as_u64(), Some(3));
}

#[test]
fn test_replace_score_when_absent() {
    let fm = "id: x\ntitle: y\n".to_string();
    let new_fm = replace_score_block(&fm, &sample_block());
    assert!(new_fm.contains("id: x"));
    assert!(new_fm.contains("score:"));
    assert_eq!(score_field(&new_fm, "interest").as_f64(), Some(8.5));
}

#[test]
fn replace_score_block_exact_text() {
    assert_eq!(
        replace_score_block("a: 1\nscore:\n  x: 1\n\nb: 2", "score:\n  x: 2\n"),
        "a: 1\nscore:\n  x: 2\nb: 2\n"
    );
    assert_eq!(replace_score_block("a: 1", "score:\n  x: 2\n"), "a: 1\nscore:\n  x: 2\n");
    assert_eq!(replace_score_block("a: 1\n\n\n", "score: 3\n\n"), "a: 1\n\n\nscore: 3\n");
}

#[test]
fn replace_score_block_is_idempotent() {
    let (fm, _) = split_frontmatter(&sample_md()).unwrap();
    let once = replace_score_block(&fm, &sample_block());
    let twice = replace_score_block(&once, &sample_block());
    assert_eq!(once, twice);
}

#[test]
fn templater_markers_are_detected() {
    assert!(has_unrendered_templater_marker("title: <% tp.file.title %>"));
    assert!(has_unrendered_templater_marker("title: plain <%"));
    assert!(has_unrendered_templater_marker("%>"));
    assert!(!has_unrendered_templater_marker("title: a % > b < %"));
}

#[test]
fn stale_patch_error_text() {
    let e = MetadataPatchError::Stale { expected: "a".to_string(), actual: "b".to_string() };
    assert_eq!(e.message(), "content hash is stale: expected a, actual b");
}

#[test]
fn score_rewrite_keeps_the_rest_of_the_note() {
    let out = rewrite_score("---\nid: a\nscore:\n  x: 1\nstatus: s\n---\nbody", "score:\n  x: 2\n").unwrap();
    assert_eq!(out, "---\nid: a\nscore:\n  x: 2\nstatus: s\n---\nbody");
    assert_eq!(rewrite_score("nothing", "score: 1\n"), Err(FrontmatterError::MissingOpening));
}

#[test]
fn replacing_the_same_score_block_twice_changes_nothing() {
    let block = "score:\n  interest: 7\n  composite: 7\n\n";
    for fm in ["id: a\nscore:\n  interest: 1\nstatus: active\n\n\n", "id: a\ntitle: T", ""] {
        let once = replace_score_block(fm, block);
        assert!(once.ends_with('\n') && !once.ends_with("\n\n"));
        assert_eq!(replace_score_block(&once, block), once);
    }
}

#[test]
fn replacing_a_block_with_carriage_returns_twice_changes_nothing() {
    let block = "score:\r\n  interest: 7\r\n\r\n";
    for fm in ["id: a\nscore:\n  interest: 1\nstatus: active\n", "id: a", ""] {
        let once = replace_score_block(fm, block);
        assert!(once.ends_with('\n') && !once.ends_with("\n\n"));
        assert_eq!(replace_score_block(&once, block), once);
    }
}

#[test]
fn content_updated_at_falls_back_to_updated_at_only_when_absent() {
    assert_eq!(
        content_updated_at("content_updated_at: '2026-01-01T00:00:00Z'\nupdated_at: x\n"),
        Ok(Some("2026-01-01T00:00:00Z".to_string()))
    );
    assert_eq!(content_updated_at("id: a\nupdated_at: '2026-02-02'\n"), Ok(Some("2026-02-02".to_string())));
    assert_eq!(content_updated_at("content_updated_at: 3\nupdated_at: x\n"), Ok(None));
    assert_eq!(content_updated_at("id: a\nupdated_at: 3\n"), Ok(None));
    assert_eq!(content_updated_at("id: a\n"), Ok(None));
    assert_eq!(content_updated_at("- a\n- b\n"), Err(FrontmatterError::NotYamlMapping));
    assert_eq!(content_updated_at("a: [\n"), Err(FrontmatterError::NotYamlMapping));
}

#[test]
fn entity_fields_need_a_string_id() {
    assert_eq!(
        entity_fields("id: know-1\ntitle: T\nlayer: knowledge\nstatus: 3\n"),
        Ok(Some(EntityFields {
            id: "know-1".to_string(),
            title: Some("T".to_string()),
            layer: Some("knowledge".to_string()),
            status: None,
        }))
    );
    assert_eq!(entity_fields("title: T\n"), Ok(None));
    assert_eq!(entity_fields("id: 7\n"), Ok(None));
    assert_eq!(entity_fields("just text"), Err(FrontmatterError::NotYamlMapping));
    assert_eq!(yaml_scalar("title: T\n", "title"), Some("T".to_string()));
    assert_eq!(yaml_scalar("title: [1]\n", "title"), None);
}

#[test]
fn wiki_links_are_the_leftmost_non_overlapping_matches() {
    assert_eq!(extract_refs("[[[a]]"), vec!["[a".to_string()]);
    assert_eq!(extract_refs("[[a]]] [[b"), vec!["a".to_string()]);
    assert_eq!(extract_refs("[[x\ny]][[z]]"), vec!["x\ny".to_string(), "z".to_string()]);
    assert_eq!(extract_refs("[[]] [[c|alias]]"), vec!["c".to_string()]);
    assert_eq!(extract_refs("[[abc\n\n[[t]]\n"), vec!["abc\n\n[[t".to_string()]);
}
