use compass_core::related::{related_candidate_excluded, shared_count, shared_tag_count};
use compass_core::requests::related_limit;

fn strings(v: &[&str]) -> Vec<String> {
    v.iter().map(|s| s.to_string()).collect()
}

#[test]
fn related_candidates_skip_self_archived_and_linked() {
    let neighbors = strings(&["know-2"]);
    assert!(related_candidate_excluded("know-1", "know-1", None, &neighbors));
    assert!(related_candidate_excluded("know-1", "know-3", Some("Archived"), &neighbors));
    assert!(related_candidate_excluded("know-1", "know-2", Some("active"), &neighbors));
    assert!(!related_candidate_excluded("know-1", "know-3", Some("active"), &neighbors));
    assert!(!related_candidate_excluded("know-1", "know-3", None, &[]));
}

#[test]
fn shared_counts_are_set_intersections() {
    assert_eq!(shared_count(&strings(&["a", "b", "c"]), &strings(&["c", "a", "z"])), 2);
    assert_eq!(shared_count(&strings(&["a", "a"]), &strings(&["a"])), 1);
    assert_eq!(shared_count(&[], &strings(&["a"])), 0);
    assert_eq!(shared_tag_count(&strings(&["Rust", "SQL"]), &strings(&["rust", "go"])), 1);
    assert_eq!(related_limit(10), 10);
}
