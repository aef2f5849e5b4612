use compass_core::contracts::note_content_hash;
use compass_core::frontmatter::{FrontmatterError, MetadataPatch, MetadataPatchError};
use compass_core::patch::{apply_metadata_patches, PatchError, PatchOutcome};

fn sample_md() -> String {
    "---\n\
     id: know-000001\n\
     title: Game Theory\n\
     category: Knowledge\n\
     tags:\n  - math\n  - strategy\n\
     score:\n  interest: 5.0\n  strategy: 5.0\n  consensus: 0.0\n  composite: 3.2\n  updated_at: '2026-01-01T00:00:00+08:00'\n  last_boosted_at: '2026-01-01T00:00:00+08:00'\n  access_count: 0\n\
     status: active\n\
     ---\n\
     # Game Theory\n\n\
     ```mermaid\ngraph TD\nA-->B\n```\n\n\
     正文涉及 [[know-000002]]。\n"
        .to_string()
}

#[test]
fn patch_preserves_bom_crlf_score_and_body() {
    let original = format!("\u{feff}{}", sample_md().replace('\n', "\r\n"));
    let expected = note_content_hash(&original).unwrap();
    let out = apply_metadata_patches(
        &original,
        &expected,
        &[
            MetadataPatch::AddTag("Rust".to_string()),
            MetadataPatch::AddLink("know-000003".to_string()),
        ],
    )
    .unwrap();
    let PatchOutcome::Changed { content, hash } = out else { panic!("expected a change") };
    assert!(content.starts_with('\u{feff}'));
    assert!(content.contains("\r\n"));
    assert!(content.contains("  - math\r\n  - strategy\r\n  - Rust"));
    assert!(content.contains("access_count: 0"));
    assert!(content.contains("# Game Theory\r\n"));
    assert!(content.ends_with("[[know-000003]]\r\n"));
    assert_eq!(note_content_hash(&content).unwrap(), hash.unwrap());
}

#[test]
fn stale_patch_is_refused_and_repeat_is_idempotent() {
    let original = sample_md();
    let stale = "0".repeat(64);
    let err = apply_metadata_patches(&original, &stale, &[MetadataPatch::AddTag("Rust".to_string())]).unwrap_err();
    let expected = note_content_hash(&original).unwrap();
    assert_eq!(
        err,
        PatchError::Stale(MetadataPatchError::Stale { expected: stale.clone(), actual: expected.clone() })
    );

    let first = apply_metadata_patches(&original, &expected, &[MetadataPatch::AddTag("Rust".to_string())]).unwrap();
    let PatchOutcome::Changed { content, hash } = first else { panic!("expected a change") };
    let hash = hash.unwrap();
    let second = apply_metadata_patches(&content, &hash, &[MetadataPatch::AddTag("rust".to_string())]).unwrap();
    assert_eq!(second, PatchOutcome::Unchanged { content_hash: hash });
}

#[test]
fn existing_links_are_not_added_twice() {
    let original = sample_md();
    let expected = note_content_hash(&original).unwrap();
    let out = apply_metadata_patches(&original, &expected, &[MetadataPatch::AddLink(" know-000002 ".to_string())]).unwrap();
    assert_eq!(out, PatchOutcome::Unchanged { content_hash: expected });
}

#[test]
fn bad_patches_are_refused() {
    let original = sample_md();
    let expected = note_content_hash(&original).unwrap();
    assert_eq!(
        apply_metadata_patches(&original, &expected, &[MetadataPatch::AddLink("a]b".to_string())]),
        Err(PatchError::InvalidLink)
    );
    assert_eq!(
        apply_metadata_patches(&original, &expected, &[MetadataPatch::AddLink("  ".to_string())]),
        Err(PatchError::InvalidLink)
    );
    assert!(matches!(
        apply_metadata_patches(&original, &expected, &[MetadataPatch::AddTag("#x".to_string())]),
        Err(PatchError::Tag(_))
    ));
    assert_eq!(
        apply_metadata_patches("no frontmatter", &expected, &[]),
        Err(PatchError::Note(FrontmatterError::MissingOpening))
    );
}

#[test]
fn link_goes_after_a_blank_line() {
    let original = "---\nid: a\n---\nbody";
    let expected = note_content_hash(original).unwrap();
    let out = apply_metadata_patches(original, &expected, &[MetadataPatch::AddLink("b".to_string())]).unwrap();
    let PatchOutcome::Changed { content, .. } = out else { panic!("expected a change") };
    assert_eq!(content, "---\nid: a\n---\nbody\n\n[[b]]\n");
}

#[test]
fn changes_already_in_the_note_leave_it_unchanged() {
    let note = "---\nid: know-1\ntags:\n  - rust\n---\nSee [[know-2]].\n";
    let hash = note_content_hash(note).unwrap();
    let outcome = apply_metadata_patches(
        note,
        &hash,
        &[MetadataPatch::AddTag("RUST".to_string()), MetadataPatch::AddLink(" know-2 ".to_string())],
    )
    .unwrap();
    assert_eq!(outcome, PatchOutcome::Unchanged { content_hash: hash });
}
