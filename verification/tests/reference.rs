use compass_core::reference::{ReferenceInput, ReferenceParser};

#[test]
fn test_reference_extraction() {
    let content = "这是 [[entity-001]] 和 [[Entity-002]] 的核心观点";
    let refs = ReferenceParser::extract_ids(content, None);
    assert_eq!(refs, vec!["entity-001", "entity-002"]);
}

#[test]
fn test_self_reference_filtered() {
    let content = "关于 [[entity-001]] 的讨论";
    let refs = ReferenceParser::extract_ids(content, Some("entity-001"));
    assert!(!refs.contains(&"entity-001".to_string()));
}

#[test]
fn test_self_reference_case_insensitive() {
    let content = "关于 [[Entity-001]] 的讨论";
    let refs = ReferenceParser::extract_ids(content, Some("entity-001"));
    assert!(refs.is_empty(), "case-insensitive self-ref should be filtered");
}

#[test]
fn test_duplicate_refs_deduplicated() {
    let content = "[[id1]] 和 [[ID1]] 和 [[id2]]";
    let refs = ReferenceParser::extract_ids(content, None);
    assert_eq!(refs, vec!["id1", "id2"]);
}

#[test]
fn test_no_refs() {
    let content = "这是一段没有引用的普通文本";
    let refs = ReferenceParser::extract_ids(content, None);
    assert!(refs.is_empty());
}

#[test]
fn test_complex_id_with_underscore() {
    let content = "参考 [[comp_v2-2026_04-01]] 这个实体";
    let refs = ReferenceParser::extract_ids(content, None);
    assert_eq!(refs, vec!["comp_v2-2026_04-01"]);
}

#[test]
fn test_cross_folder_wiki_link() {
    let content = "参考 [[Projects/compass-v2]] 这个实体";
    let refs = ReferenceParser::extract_ids(content, None);
    assert_eq!(refs, vec!["projects-compass-v2"]);
}

#[test]
fn test_self_reference_cross_folder() {
    let content = "关于 [[Projects/compass-v2]] 的讨论";
    let refs = ReferenceParser::extract_ids(content, Some("projects-compass-v2"));
    assert!(refs.is_empty(), "cross-folder self-ref should be filtered");
}

#[test]
fn ids_are_sorted_and_dashes_collapsed() {
    let refs = ReferenceParser::extract_ids("[[b]] [[a//b]] [[-c-]] [[A]] [[x y]]", None);
    assert_eq!(refs, vec!["a", "a-b", "b", "c"]);
}

#[test]
fn parse_wraps_extract_ids() {
    let out = ReferenceParser::parse(ReferenceInput {
        content: "[[Z]] [[y]] [[self]]".to_string(),
        current_entity_id: Some("SELF".to_string()),
    });
    assert_eq!(out.refs, vec!["y", "z"]);
}

#[test]
fn wiki_ids_are_the_leftmost_non_overlapping_matches() {
    assert_eq!(ReferenceParser::extract_ids("[[[a]]", None), vec!["a".to_string()]);
    assert_eq!(ReferenceParser::extract_ids("[[a b]] [[c]]]", None), vec!["c".to_string()]);
    assert_eq!(ReferenceParser::extract_ids("[[a]][[b]]", None), vec!["a".to_string(), "b".to_string()]);
}
