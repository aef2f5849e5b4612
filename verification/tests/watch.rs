use compass_core::watch::{WatchAction, WatchBatch};
use compass_core::watch::{collect_event_paths, is_hidden_path, is_sync_conflict_path, is_template_path, relative_path};

#[test]
fn hidden_paths_are_filtered() {
    assert!(is_hidden_path("/vault/.obsidian/config.md"));
    assert!(!is_hidden_path("/vault/knowledge/test.md"));
}

#[test]
fn relative_paths_use_forward_slashes() {
    let vault = "/vault";
    let joined = std::path::PathBuf::from(vault).join("knowledge/test.md");
    assert_eq!(relative_path(vault, joined.to_str().unwrap()), "knowledge/test.md");
}

#[test]
fn sync_conflict_event_requests_rebuild_and_retains_removed_primary_path() {
    let removed_primary = "/vault/Knowledge/note.md".to_string();
    let conflict = "/vault/Knowledge/note.sync-conflict-20260712-120000-DEVICE.md".to_string();

    let (paths, rebuild_required) =
        collect_event_paths(&[removed_primary.clone(), conflict], &[false, false], true);

    assert!(rebuild_required);
    assert!(paths.contains(&removed_primary));
}

#[test]
fn event_paths_keep_markdown_and_removed_only() {
    let paths = vec![
        "/vault/a.md".to_string(),
        "/vault/b.txt".to_string(),
        "/vault/.git/c.md".to_string(),
        "/vault/gone".to_string(),
        "/vault/.md".to_string(),
    ];
    let (kept, rebuild) = collect_event_paths(&paths, &[true, true, true, false, true], false);
    assert_eq!(kept, vec!["/vault/a.md".to_string()]);
    assert!(!rebuild);
    let (kept, _) = collect_event_paths(&paths, &[true, true, true, false, true], true);
    assert_eq!(kept, vec!["/vault/a.md".to_string(), "/vault/gone".to_string()]);
}

#[test]
fn hidden_conflicts_do_not_rebuild() {
    let (kept, rebuild) =
        collect_event_paths(&["/vault/.git/x.sync-conflict-1.md".to_string()], &[true], false);
    assert!(kept.is_empty());
    assert!(!rebuild);
}

#[test]
fn sync_conflict_names_are_recognised() {
    assert!(is_sync_conflict_path("/v/n.sync-conflict-20260101-000000-ABC.md"));
    assert!(!is_sync_conflict_path("/v/n.md"));
    assert!(!is_sync_conflict_path("/v/x.sync-conflict-dir/.."));
}

#[test]
fn paths_outside_the_vault_stay_whole() {
    assert_eq!(relative_path("/vault", "/other/a.md"), "/other/a.md");
    assert_eq!(relative_path("/vault", "/vault/x\\y.md"), "x/y.md");
    assert!(is_hidden_path("/v/.compass/index.db"));
    assert!(!is_hidden_path("/v/.compassx/a.md"));
}

#[test]
fn batches_collect_paths_once_and_rebuild_wins() {
    let mut b = WatchBatch::new();
    assert!(b.on_event(&["/v/a.md".to_string(), "/v/a.md".to_string()], &[true, true], false));
    assert!(!b.on_event(&[], &[], false) || !b.paths().is_empty());
    assert_eq!(b.on_timer(), WatchAction::Reindex(vec!["/v/a.md".to_string()]));
    assert!(b.paths().is_empty());
    assert!(!b.on_event(&["/v/x.txt".to_string()], &[true], false));
    b.on_event(&["/v/n.sync-conflict-1.md".to_string(), "/v/b.md".to_string()], &[true, true], false);
    assert_eq!(b.on_timer(), WatchAction::Rebuild);
    assert!(!b.rebuild_required());
}

#[test]
fn template_paths_are_recognised() {
    assert!(is_template_path("Knowledge/Templates/template.md"));
    assert!(is_template_path("Templates/daily.md"));
    assert!(!is_template_path("Knowledge/TemplatesOld/note.md"));
    assert!(!is_template_path("Knowledge/note.md"));
}
