use compass_core::contracts::{
    can_transition, normalize_tag, note_content_hash, stable_suggestion_id, SuggestionKind,
    SuggestionStatus, TagError, TAG_ALGORITHM_VERSION,
};
use sha2::{Digest, Sha256};

#[test]
fn stable_id_is_deterministic_and_input_sensitive() {
    let first = stable_suggestion_id(
        SuggestionKind::Tag,
        "know-1",
        "decision",
        "hash",
        TAG_ALGORITHM_VERSION,
        "rust_lexical",
    );
    assert_eq!(first.len(), 68);
    assert_eq!(
        first,
        stable_suggestion_id(
            SuggestionKind::Tag,
            "know-1",
            "decision",
            "hash",
            TAG_ALGORITHM_VERSION,
            "rust_lexical",
        )
    );
    assert_ne!(
        first,
        stable_suggestion_id(
            SuggestionKind::Tag,
            "know-1",
            "other",
            "hash",
            TAG_ALGORITHM_VERSION,
            "rust_lexical",
        )
    );
}

#[test]
fn status_transitions_only_leave_pending_once() {
    assert!(can_transition(SuggestionStatus::Pending, SuggestionStatus::Accepted));
    assert!(can_transition(SuggestionStatus::Pending, SuggestionStatus::Rejected));
    assert!(!can_transition(SuggestionStatus::Accepted, SuggestionStatus::Rejected));
}

#[test]
fn note_hash_ignores_score_and_line_endings_but_not_metadata_or_body() {
    let first = "\u{feff}---\r\nid: know-1\r\ntags:\r\n  - rust\r\nscore:\r\n  interest: 1\r\n  composite: 2\r\nstatus: active\r\n---\r\nbody\r\n";
    let second = "---\nid: know-1\ntags:\n  - rust\nscore:\n  interest: 99\n  composite: 88\nstatus: active\n---\nbody\n";
    assert_eq!(note_content_hash(first).unwrap(), note_content_hash(second).unwrap());

    let changed = second.replace("- rust", "- rust\n  - sqlite");
    assert_ne!(note_content_hash(second).unwrap(), note_content_hash(&changed).unwrap());
}

#[test]
fn tags_are_normalized_without_hash_prefixes() {
    assert_eq!(normalize_tag("  decision science ").unwrap(), "decision science");
    assert!(normalize_tag("#decision").is_err());
    assert!(normalize_tag(" ").is_err());
}

#[test]
fn tag_errors_name_their_cause() {
    assert_eq!(normalize_tag("#x"), Err(TagError::ContainsHash));
    assert_eq!(normalize_tag("\t\n"), Err(TagError::Empty));
    assert_eq!(TagError::Empty.message(), "tag cannot be empty");
    assert_eq!(TagError::ContainsHash.message(), "tag must not contain #");
}

#[test]
fn stable_id_has_fixed_shape() {
    let id = stable_suggestion_id(SuggestionKind::Related, "a", "b", "c", "d", "e");
    assert!(id.starts_with("sug-"));
    assert!(id[4..].chars().all(|c| c.is_ascii_hexdigit() && !c.is_ascii_uppercase()));
    assert_ne!(id, stable_suggestion_id(SuggestionKind::Tag, "a", "b", "c", "d", "e"));
}

#[test]
fn stable_id_matches_sha256_of_joined_key() {
    // sha256("tag\nx\ny\nz\nv\ns") computed independently of the library.
    let digest = Sha256::digest("tag\nx\ny\nz\nv\ns".as_bytes());
    let hex: String = digest.iter().map(|b| format!("{b:02x}")).collect();
    assert_eq!(
        stable_suggestion_id(SuggestionKind::Tag, "x", "y", "z", "v", "s"),
        format!("sug-{hex}")
    );
}

#[test]
fn note_hash_is_sha256_of_canonical_note() {
    let note = "---\nid: a\nscore:\n  interest: 1\nstatus: x\n---\nbody";
    let digest = Sha256::digest("id: a\nstatus: x\n---\nbody".as_bytes());
    let hex: String = digest.iter().map(|b| format!("{b:02x}")).collect();
    assert_eq!(note_content_hash(note).unwrap(), hex);
}

#[test]
fn note_hash_requires_frontmatter() {
    assert!(note_content_hash("no frontmatter").is_err());
    assert!(note_content_hash("---\nid: a\nno closing").is_err());
}

#[test]
fn kind_names_are_wire_names() {
    assert_eq!(SuggestionKind::Tag.as_str(), "tag");
    assert_eq!(SuggestionKind::Related.as_str(), "related");
}

#[test]
fn settled_statuses_never_move() {
    for from in [SuggestionStatus::Accepted, SuggestionStatus::Rejected, SuggestionStatus::Expired] {
        for to in [
            SuggestionStatus::Pending,
            SuggestionStatus::Accepted,
            SuggestionStatus::Rejected,
            SuggestionStatus::Expired,
        ] {
            assert!(!can_transition(from, to));
        }
    }
    assert!(!can_transition(SuggestionStatus::Pending, SuggestionStatus::Pending));
    assert!(can_transition(SuggestionStatus::Pending, SuggestionStatus::Expired));
}

#[test]
fn normalized_tag_normalizes_to_itself() {
    let once = normalize_tag(" \tdecision science \n").unwrap();
    assert_eq!(once, "decision science");
    assert_eq!(normalize_tag(&once).unwrap(), once);
}

#[test]
fn note_hash_ignores_bare_cr_line_endings() {
    let lf = "---\nid: know-1\nstatus: active\n---\nbody\n";
    let cr = "---\rid: know-1\rstatus: active\r---\rbody\r";
    assert_eq!(note_content_hash(lf).unwrap(), note_content_hash(cr).unwrap());
}

#[test]
fn note_hash_ignores_a_changed_score_block() {
    let a = "---\nid: know-1\nscore:\n  interest: 1\n\n  composite: 2\ntags:\n  - rust\n---\nbody\n";
    let b = "---\nid: know-1\nscore: {}\n\ttrailing: 3\ntags:\n  - rust\n---\nbody\n";
    assert_eq!(note_content_hash(a).unwrap(), note_content_hash(b).unwrap());
}

#[test]
fn note_hash_ignores_bom_line_endings_and_score_block_together() {
    let a = "---\nid: know-1\nscore:\n  interest: 1\nstatus: active\n---\nbody\n";
    let b = "\u{feff}---\r\nid: know-1\r\nscore:\r\n  interest: 9\r\n  composite: 9\r\nstatus: active\r\n---\r\nbody\r\n";
    assert_eq!(note_content_hash(a).unwrap(), note_content_hash(b).unwrap());
}
