use compass_core::index::select_unique_ids;
use compass_core::index::{fts_query, RebuildStats};

#[test]
fn test_fts_query_sanitizes() {
    assert_eq!(fts_query("Nash equilibrium"), "\"Nash\" \"equilibrium\"");
    assert_eq!(fts_query(""), "");
    assert_eq!(fts_query("   "), "");
    assert_eq!(fts_query("\"inject"), "\"inject\"");
}

#[test]
fn fts_query_drops_words_of_only_quotes() {
    assert_eq!(fts_query("a \"\" b"), "\"a\" \"b\"");
    assert_eq!(fts_query("x\"y\"z"), "\"xyz\"");
    assert_eq!(fts_query("\ttabs\nand\u{3000}wide "), "\"tabs\" \"and\" \"wide\"");
}

#[test]
fn rebuild_stats_start_at_zero() {
    let s = RebuildStats::default();
    assert_eq!((s.indexed, s.skipped, s.duplicates), (0, 0, 0));
}

#[test]
fn rebuild_keeps_first_of_each_id() {
    let ids: Vec<String> = ["a", "b", "a", "c", "b"].iter().map(|s| s.to_string()).collect();
    let (kept, stats) = select_unique_ids(&ids, 7);
    assert_eq!(kept, vec![0, 1, 3]);
    assert_eq!((stats.indexed, stats.skipped, stats.duplicates), (3, 7, 2));
}
