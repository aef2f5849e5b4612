use compass_core::contracts::{SuggestionKind, SuggestionStatus};
use compass_core::errors::{AppError, ErrorBody};
use compass_core::suggestions::{
    check_agent_candidate, check_candidate_count, check_fresh, check_targets, ensure_kind,
    map_patch_failure, parse_suggestion_status, plan_accept, plan_reject, tag_present,
    AcceptPlan, PatchFailure, RejectPlan,
};

#[test]
fn statuses_parse_from_their_names() {
    for s in [
        SuggestionStatus::Pending,
        SuggestionStatus::Accepted,
        SuggestionStatus::Rejected,
        SuggestionStatus::Expired,
    ] {
        assert_eq!(parse_suggestion_status(s.name()), Ok(s));
    }
    assert_eq!(
        parse_suggestion_status("Pending"),
        Err(AppError::Internal("invalid suggestion status".to_string()))
    );
}

#[test]
fn accept_is_idempotent_and_refuses_rejected() {
    assert_eq!(plan_accept("tag", SuggestionKind::Tag, "s1", "pending"), Ok(AcceptPlan::Apply));
    assert_eq!(plan_accept("tag", SuggestionKind::Tag, "s1", "accepted"), Ok(AcceptPlan::Unchanged));
    assert_eq!(plan_accept("tag", SuggestionKind::Tag, "s1", "expired"), Ok(AcceptPlan::Unchanged));
    assert_eq!(
        plan_accept("tag", SuggestionKind::Tag, "s1", "rejected"),
        Err(AppError::Conflict {
            code: "suggestion_rejected".to_string(),
            message: "rejected suggestion cannot be accepted".to_string()
        })
    );
    assert_eq!(
        plan_accept("related", SuggestionKind::Tag, "s1", "pending"),
        Err(AppError::NotFound("s1".to_string()))
    );
    assert_eq!(
        plan_accept("tag", SuggestionKind::Tag, "s1", "weird"),
        Err(AppError::Internal("invalid suggestion status".to_string()))
    );
}

#[test]
fn reject_is_read_only_on_settled_suggestions() {
    assert_eq!(plan_reject("related", SuggestionKind::Related, "s", "pending"), Ok(RejectPlan::MarkRejected));
    assert_eq!(plan_reject("related", SuggestionKind::Related, "s", "rejected"), Ok(RejectPlan::Unchanged));
    assert_eq!(plan_reject("related", SuggestionKind::Related, "s", "expired"), Ok(RejectPlan::Unchanged));
    assert_eq!(
        plan_reject("related", SuggestionKind::Related, "s", "accepted"),
        Err(AppError::Conflict {
            code: "suggestion_accepted".to_string(),
            message: "accepted suggestion cannot be rejected".to_string()
        })
    );
    assert!(ensure_kind("tag", SuggestionKind::Tag, "x").is_ok());
    assert_eq!(ensure_kind("tag", SuggestionKind::Related, "x"), Err(AppError::NotFound("x".to_string())));
}

#[test]
fn stale_and_missing_targets_are_reported() {
    assert!(check_fresh("abc", "abc").is_ok());
    assert_eq!(
        check_fresh("abc", "abd"),
        Err(AppError::Conflict {
            code: "suggestion_expired".to_string(),
            message: "suggestion content hash is stale".to_string()
        })
    );
    assert_eq!(
        check_targets(SuggestionKind::Related, "e", false, "c", false),
        Err(AppError::NotFound("e".to_string()))
    );
    assert_eq!(
        check_targets(SuggestionKind::Related, "e", true, "c", false),
        Err(AppError::NotFound("c".to_string()))
    );
    assert!(check_targets(SuggestionKind::Tag, "e", true, "c", false).is_ok());
}

#[test]
fn patch_failures_map_to_answers() {
    assert_eq!(
        map_patch_failure(&PatchFailure::Stale("changed".to_string())),
        AppError::Conflict { code: "suggestion_expired".to_string(), message: "changed".to_string() }
    );
    assert_eq!(map_patch_failure(&PatchFailure::Other("io".to_string())), AppError::Internal("io".to_string()));
}

#[test]
fn agent_candidates_are_checked_in_order() {
    assert_eq!(check_agent_candidate("h", "h", "agent", "v1", " Rust "), Ok("Rust".to_string()));
    assert_eq!(
        check_agent_candidate("old", "h", "", "", "#bad"),
        Err(AppError::Conflict {
            code: "suggestion_expired".to_string(),
            message: "agent candidate content hash is stale".to_string()
        })
    );
    assert_eq!(
        check_agent_candidate("h", "h", "  ", "v1", "ok"),
        Err(AppError::BadRequest("agent candidate source and algorithm_version are required".to_string()))
    );
    assert_eq!(
        check_agent_candidate("h", "h", "agent", "v1", "#bad"),
        Err(AppError::BadRequest("tag must not contain #".to_string()))
    );
    assert!(check_candidate_count(20).is_ok());
    assert_eq!(
        check_candidate_count(21),
        Err(AppError::Unprocessable("candidates must contain at most 20 items".to_string()))
    );
}

#[test]
fn existing_tags_match_ignoring_ascii_case() {
    let existing = vec!["Rust".to_string(), "Ärger".to_string()];
    assert!(tag_present(&existing, "rust"));
    assert!(tag_present(&existing, "RUST"));
    assert!(!tag_present(&existing, "ärger"));
    assert!(!tag_present(&existing, "rus"));
}

#[test]
fn errors_are_answered_with_status_and_body() {
    let e = AppError::not_found("know-1");
    assert_eq!(e.status_code(), 404);
    assert_eq!(e.body(), ErrorBody::Plain("entity not found: know-1".to_string()));
    let c = AppError::conflict("suggestion_expired", "stale");
    assert_eq!(c.status_code(), 409);
    assert_eq!(
        c.body(),
        ErrorBody::Coded { code: "suggestion_expired".to_string(), message: "stale".to_string() }
    );
    assert_eq!(AppError::bad_request("b").status_code(), 400);
    assert_eq!(AppError::unprocessable("u").status_code(), 422);
    assert_eq!(AppError::internal("i").status_code(), 500);
    assert_eq!(AppError::internal("i").body(), ErrorBody::Plain("i".to_string()));
}
