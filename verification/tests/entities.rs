use compass_core::entities::{content_hash, layer_dir, layer_prefix, next_id, parse_access_depth};
use compass_core::scoring::AccessDepth;

#[test]
fn test_layer_prefix() {
    assert_eq!(layer_prefix("knowledge"), "know");
    assert_eq!(layer_prefix("case"), "case");
    assert_eq!(layer_prefix("direction"), "dir");
    assert_eq!(layer_prefix("unknown"), "know");
}

#[test]
fn test_layer_dir() {
    assert_eq!(layer_dir("knowledge"), "Knowledge");
    assert_eq!(layer_dir("case"), "Cases");
    assert_eq!(layer_dir("unknown"), "Inbox");
}

#[test]
fn test_parse_access_depth() {
    assert_eq!(parse_access_depth("glance"), Some(AccessDepth::Glance));
    assert_eq!(parse_access_depth("read"), Some(AccessDepth::Read));
    assert_eq!(parse_access_depth("study"), Some(AccessDepth::Study));
    assert_eq!(parse_access_depth("apply"), Some(AccessDepth::Apply));
    assert_eq!(parse_access_depth("invalid"), None);
}

#[test]
fn test_next_id_empty() {
    assert_eq!(next_id(&[], "know"), "know000001");
}

#[test]
fn test_next_id_increment() {
    let ids = vec!["know000001".to_string()];
    assert_eq!(next_id(&ids, "know"), "know000002");
    assert_eq!(next_id(&ids, "case"), "case000001");
}

#[test]
fn next_id_takes_largest_numeric_suffix() {
    let ids = vec![
        "know000007".to_string(),
        "know000003".to_string(),
        "know-x".to_string(),
        "case000100".to_string(),
        "know1234567".to_string(),
    ];
    assert_eq!(next_id(&ids, "know"), "know1234568");
    assert_eq!(next_id(&ids, "case"), "case000101");
    assert_eq!(next_id(&ids, "ins"), "ins000001");
}

#[test]
fn next_id_is_fresh() {
    let ids = vec!["dir000001".to_string(), "dir000002".to_string()];
    let id = next_id(&ids, "dir");
    assert!(!ids.contains(&id));
}

#[test]
fn test_content_hash_stable() {
    assert_eq!(content_hash("abc"), content_hash("abc"));
    assert_ne!(content_hash("abc"), content_hash("abd"));
}

#[test]
fn content_hash_is_sixteen_hex_digits() {
    let h = content_hash("anything");
    assert_eq!(h.len(), 16);
    assert!(h.chars().all(|c| c.is_ascii_hexdigit() && !c.is_ascii_uppercase()));
}

#[test]
fn layers_ignore_case() {
    assert_eq!(layer_prefix("Insight"), "ins");
    assert_eq!(layer_dir("LOG"), "Logs");
    assert_eq!(layer_dir("Direction"), "Direction");
    assert_eq!(parse_access_depth("STUDY"), Some(AccessDepth::Study));
}

#[test]
fn default_access_depth_is_read() {
    assert_eq!(AccessDepth::default(), AccessDepth::Read);
}
