//! The decisions of the suggestion workflow: which stored suggestions may be
//! accepted or rejected, what an agent may submit, and how failures of the
//! write-back are answered. The reads and writes around these decisions are
//! made by the caller.
use vstd::prelude::*;

use crate::contracts::{
    kind_name, normalize_tag, normalize_tag_spec, transition_allowed, SuggestionKind,
    SuggestionStatus, TagError, MAX_SUGGESTIONS_PER_REQUEST,
};
use crate::errors::{AppError, AppErrorView};
use crate::text::{chars_of, eq_ignore_ascii_case, eq_ignore_case, string_views, trim, trim_chars};

verus! {

/// The wire name of a status.
pub open spec fn status_name(s: SuggestionStatus) -> Seq<char> {
    match s {
        SuggestionStatus::Pending => "pending"@,
        SuggestionStatus::Accepted => "accepted"@,
        SuggestionStatus::Rejected => "rejected"@,
        SuggestionStatus::Expired => "expired"@,
    }
}

/// The status a stored name stands for, if any.
pub open spec fn status_of_name(name: Seq<char>) -> Option<SuggestionStatus> {
    if name == "pending"@ {
        Some(SuggestionStatus::Pending)
    } else if name == "accepted"@ {
        Some(SuggestionStatus::Accepted)
    } else if name == "rejected"@ {
        Some(SuggestionStatus::Rejected)
    } else if name == "expired"@ {
        Some(SuggestionStatus::Expired)
    } else {
        None
    }
}

/// The error for a stored status that is not one of the four names.
pub open spec fn invalid_status_error() -> AppErrorView {
    AppErrorView::Internal("invalid suggestion status"@)
}

fn invalid_status() -> (e: AppError)
    ensures
        e@ == invalid_status_error(),
{
    AppError::internal("invalid suggestion status")
}

/// Whether the stored text `s` equals the literal `lit`.
fn text_is(s: &str, lit: &str) -> (r: bool)
    ensures
        r == (s@ == lit@),
{
    let a = chars_of(s);
    let b = chars_of(lit);
    crate::text::eq_chars(&a, &b)
}

impl SuggestionStatus {
    /// `"pending"`, `"accepted"`, `"rejected"` or `"expired"`.
    pub fn name(self) -> (r: &'static str)
        ensures
            r@ == status_name(self),
    {
        match self {
            SuggestionStatus::Pending => "pending",
            SuggestionStatus::Accepted => "accepted",
            SuggestionStatus::Rejected => "rejected",
            SuggestionStatus::Expired => "expired",
        }
    }
}

/// Reads a stored status name; any other text is an internal error.
pub fn parse_suggestion_status(status: &str) -> (r: Result<SuggestionStatus, AppError>)
    ensures
        match status_of_name(status@) {
            Some(s) => r == Ok::<SuggestionStatus, AppError>(s),
            None => r matches Err(e) && e@ == invalid_status_error(),
        },
{
    if text_is(status, "pending") {
        Ok(SuggestionStatus::Pending)
    } else if text_is(status, "accepted") {
        Ok(SuggestionStatus::Accepted)
    } else if text_is(status, "rejected") {
        Ok(SuggestionStatus::Rejected)
    } else if text_is(status, "expired") {
        Ok(SuggestionStatus::Expired)
    } else {
        Err(invalid_status())
    }
}

/// A stored suggestion of another kind than the route serves is answered as
/// not found, under the suggestion's id.
pub fn ensure_kind(kind: &str, expected: SuggestionKind, suggestion_id: &str) -> (r: Result<(), AppError>)
    ensures
        kind@ == kind_name(expected) <==> r is Ok,
        r matches Err(e) ==> e@ == AppErrorView::NotFound(suggestion_id@),
{
    let name = expected.as_str();
    if text_is(kind, name) {
        Ok(())
    } else {
        Err(AppError::not_found(suggestion_id))
    }
}

/// What an accept request does once the stored suggestion was read.
#[derive(Debug, Clone, Copy, PartialEq, Eq, Structural)]
pub enum AcceptPlan {
    /// The suggestion is already settled: answer with it as stored.
    Unchanged,
    /// The suggestion is pending: check the note and apply the change.
    Apply,
}

/// What a reject request does once the stored suggestion was read.
#[derive(Debug, Clone, Copy, PartialEq, Eq, Structural)]
pub enum RejectPlan {
    /// The suggestion is already settled: answer with it as stored.
    Unchanged,
    /// The suggestion is pending: mark it rejected.
    MarkRejected,
}

/// The error for accepting a rejected suggestion.
pub open spec fn rejected_conflict() -> AppErrorView {
    AppErrorView::Conflict {
        code: "suggestion_rejected"@,
        message: "rejected suggestion cannot be accepted"@,
    }
}

/// The error for rejecting an accepted suggestion.
pub open spec fn accepted_conflict() -> AppErrorView {
    AppErrorView::Conflict {
        code: "suggestion_accepted"@,
        message: "accepted suggestion cannot be rejected"@,
    }
}

/// The decision on an accept request for a stored suggestion of kind `kind`
/// and status `status`.
pub open spec fn accept_plan_spec(
    kind: Seq<char>,
    expected: SuggestionKind,
    suggestion_id: Seq<char>,
    status: Seq<char>,
) -> Result<AcceptPlan, AppErrorView> {
    if kind != kind_name(expected) {
        Err(AppErrorView::NotFound(suggestion_id))
    } else {
        match status_of_name(status) {
            Some(SuggestionStatus::Pending) => Ok(AcceptPlan::Apply),
            Some(SuggestionStatus::Rejected) => Err(rejected_conflict()),
            Some(_) => Ok(AcceptPlan::Unchanged),
            None => Err(invalid_status_error()),
        }
    }
}

/// The decision on a reject request.
pub open spec fn reject_plan_spec(
    kind: Seq<char>,
    expected: SuggestionKind,
    suggestion_id: Seq<char>,
    status: Seq<char>,
) -> Result<RejectPlan, AppErrorView> {
    if kind != kind_name(expected) {
        Err(AppErrorView::NotFound(suggestion_id))
    } else {
        match status_of_name(status) {
            Some(SuggestionStatus::Pending) => Ok(RejectPlan::MarkRejected),
            Some(SuggestionStatus::Accepted) => Err(accepted_conflict()),
            Some(_) => Ok(RejectPlan::Unchanged),
            None => Err(invalid_status_error()),
        }
    }
}

/// A plan or an error, with the error taken by its view.
pub open spec fn plan_view<P>(r: Result<P, AppError>) -> Result<P, AppErrorView> {
    match r {
        Ok(p) => Ok(p),
        Err(e) => Err(e@),
    }
}

/// Decides an accept request: settled suggestions (accepted or expired) are
/// answered unchanged, so accepting twice is harmless; a rejected one cannot
/// be accepted; a pending one is applied.
pub fn plan_accept(kind: &str, expected: SuggestionKind, suggestion_id: &str, status: &str) -> (r: Result<AcceptPlan, AppError>)
    ensures
        plan_view(r) == accept_plan_spec(kind@, expected, suggestion_id@, status@),
{
    match ensure_kind(kind, expected, suggestion_id) {
        Ok(()) => {},
        Err(e) => return Err(e),
    }
    match parse_suggestion_status(status) {
        Ok(SuggestionStatus::Pending) => Ok(AcceptPlan::Apply),
        Ok(SuggestionStatus::Rejected) => Err(AppError::conflict(
            "suggestion_rejected",
            "rejected suggestion cannot be accepted",
        )),
        Ok(_) => Ok(AcceptPlan::Unchanged),
        Err(e) => Err(e),
    }
}

/// Decides a reject request: settled suggestions (rejected or expired) are
/// answered unchanged, an accepted one cannot be rejected, a pending one is
/// marked rejected.
pub fn plan_reject(kind: &str, expected: SuggestionKind, suggestion_id: &str, status: &str) -> (r: Result<RejectPlan, AppError>)
    ensures
        plan_view(r) == reject_plan_spec(kind@, expected, suggestion_id@, status@),
{
    match ensure_kind(kind, expected, suggestion_id) {
        Ok(()) => {},
        Err(e) => return Err(e),
    }
    match parse_suggestion_status(status) {
        Ok(SuggestionStatus::Pending) => Ok(RejectPlan::MarkRejected),
        Ok(SuggestionStatus::Accepted) => Err(AppError::conflict(
            "suggestion_accepted",
            "accepted suggestion cannot be rejected",
        )),
        Ok(_) => Ok(RejectPlan::Unchanged),
        Err(e) => Err(e),
    }
}

/// A request changes a stored suggestion only where its status may move to
/// the new one: accepting changes only what may become accepted, rejecting
/// only what may become rejected, and a settled suggestion is never changed
/// by either.
pub proof fn law_plans_follow_transitions(
    kind: Seq<char>,
    expected: SuggestionKind,
    id: Seq<char>,
    status: Seq<char>,
    s: SuggestionStatus,
)
    requires
        status_of_name(status) == Some(s),
        kind == kind_name(expected),
    ensures
        accept_plan_spec(kind, expected, id, status) == Ok::<AcceptPlan, AppErrorView>(AcceptPlan::Apply)
            <==> transition_allowed(s, SuggestionStatus::Accepted),
        reject_plan_spec(kind, expected, id, status) == Ok::<RejectPlan, AppErrorView>(RejectPlan::MarkRejected)
            <==> transition_allowed(s, SuggestionStatus::Rejected),
        s != SuggestionStatus::Pending ==> !(accept_plan_spec(kind, expected, id, status) == Ok::<AcceptPlan, AppErrorView>(AcceptPlan::Apply)),
{
}

/// Once a suggestion is accepted, a second accept answers it unchanged and a
/// reject is refused; once rejected, a second reject answers it unchanged
/// and an accept is refused.
pub proof fn law_settled_suggestions_are_stable(kind: Seq<char>, expected: SuggestionKind, id: Seq<char>)
    requires
        kind == kind_name(expected),
    ensures
        accept_plan_spec(kind, expected, id, status_name(SuggestionStatus::Accepted))
            == Ok::<AcceptPlan, AppErrorView>(AcceptPlan::Unchanged),
        reject_plan_spec(kind, expected, id, status_name(SuggestionStatus::Accepted))
            == Err::<RejectPlan, AppErrorView>(accepted_conflict()),
        reject_plan_spec(kind, expected, id, status_name(SuggestionStatus::Rejected))
            == Ok::<RejectPlan, AppErrorView>(RejectPlan::Unchanged),
        accept_plan_spec(kind, expected, id, status_name(SuggestionStatus::Rejected))
            == Err::<AcceptPlan, AppErrorView>(rejected_conflict()),
        accept_plan_spec(kind, expected, id, status_name(SuggestionStatus::Expired))
            == Ok::<AcceptPlan, AppErrorView>(AcceptPlan::Unchanged),
        reject_plan_spec(kind, expected, id, status_name(SuggestionStatus::Expired))
            == Ok::<RejectPlan, AppErrorView>(RejectPlan::Unchanged),
{
    reveal_strlit("pending");
    reveal_strlit("accepted");
    reveal_strlit("rejected");
    reveal_strlit("expired");
    assert("accepted"@ != "pending"@) by { assert("accepted"@[0] != "pending"@[0]); }
    assert("rejected"@ != "pending"@) by { assert("rejected"@[0] != "pending"@[0]); }
    assert("rejected"@ != "accepted"@) by { assert("rejected"@[0] != "accepted"@[0]); }
    assert("expired"@ != "pending"@) by { assert("expired"@[0] != "pending"@[0]); }
    assert("expired"@ != "accepted"@) by { assert("expired"@[0] != "accepted"@[0]); }
    assert("expired"@ != "rejected"@) by { assert("expired"@[0] != "rejected"@[0]); }
}

/// The error for a note that changed since the suggestion was made.
pub open spec fn stale_conflict() -> AppErrorView {
    AppErrorView::Conflict {
        code: "suggestion_expired"@,
        message: "suggestion content hash is stale"@,
    }
}

/// Before a pending suggestion is applied, the note's current content hash
/// must be the one the suggestion was made for; otherwise the suggestion
/// is stale (the caller then marks it expired).
pub fn check_fresh(actual_hash: &str, recorded_hash: &str) -> (r: Result<(), AppError>)
    ensures
        r is Ok <==> actual_hash@ == recorded_hash@,
        r matches Err(e) ==> e@ == stale_conflict(),
{
    if text_is(actual_hash, recorded_hash) {
        Ok(())
    } else {
        Err(AppError::conflict("suggestion_expired", "suggestion content hash is stale"))
    }
}

/// The entities an accepted suggestion needs must exist: the suggestion's
/// entity, and for a related suggestion the candidate as well.
pub fn check_targets(
    kind: SuggestionKind,
    entity_id: &str,
    entity_found: bool,
    candidate: &str,
    candidate_found: bool,
) -> (r: Result<(), AppError>)
    ensures
        r is Ok <==> entity_found && (kind == SuggestionKind::Related ==> candidate_found),
        !entity_found ==> (r matches Err(e) && e@ == AppErrorView::NotFound(entity_id@)),
        entity_found && kind == SuggestionKind::Related && !candidate_found
            ==> (r matches Err(e) && e@ == AppErrorView::NotFound(candidate@)),
{
    if !entity_found {
        Err(AppError::not_found(entity_id))
    } else if kind == SuggestionKind::Related && !candidate_found {
        Err(AppError::not_found(candidate))
    } else {
        Ok(())
    }
}

/// Why applying a change to a note failed.
#[derive(Debug, Clone, PartialEq, Eq)]
pub enum PatchFailure {
    /// The note changed since the suggestion was made; the text says how.
    Stale(String),
    /// Any other failure, with its text.
    Other(String),
}

/// A failed write-back is answered as a stale suggestion when the note had
/// changed, and as an internal error otherwise.
pub fn map_patch_failure(failure: &PatchFailure) -> (e: AppError)
    ensures
        match failure {
            PatchFailure::Stale(m) => e@ == (AppErrorView::Conflict { code: "suggestion_expired"@, message: m@ }),
            PatchFailure::Other(m) => e@ == AppErrorView::Internal(m@),
        },
{
    match failure {
        PatchFailure::Stale(m) => AppError::conflict("suggestion_expired", m.as_str()),
        PatchFailure::Other(m) => AppError::internal(m.as_str()),
    }
}

// ---------------------------------------------------------------- agent candidates

/// The error for a request with too many candidates.
pub open spec fn too_many_candidates_error() -> AppErrorView {
    AppErrorView::Unprocessable("candidates must contain at most 20 items"@)
}

/// A request may submit at most `MAX_SUGGESTIONS_PER_REQUEST` candidates.
pub fn check_candidate_count(n: usize) -> (r: Result<(), AppError>)
    ensures
        r is Ok <==> n <= MAX_SUGGESTIONS_PER_REQUEST,
        r matches Err(e) ==> e@ == too_many_candidates_error(),
{
    if n > MAX_SUGGESTIONS_PER_REQUEST {
        Err(AppError::unprocessable("candidates must contain at most 20 items"))
    } else {
        Ok(())
    }
}

/// The text of a tag error.
pub open spec fn tag_error_text(e: TagError) -> Seq<char> {
    match e {
        TagError::Empty => "tag cannot be empty"@,
        TagError::ContainsHash => "tag must not contain #"@,
    }
}

impl TagError {
    /// What the error says.
    pub fn message(self) -> (r: &'static str)
        ensures
            r@ == tag_error_text(self),
    {
        match self {
            TagError::Empty => "tag cannot be empty",
            TagError::ContainsHash => "tag must not contain #",
        }
    }
}

/// The error for a candidate made for another version of the note.
pub open spec fn stale_candidate_error() -> AppErrorView {
    AppErrorView::Conflict {
        code: "suggestion_expired"@,
        message: "agent candidate content hash is stale"@,
    }
}

/// The error for a candidate without its provenance.
pub open spec fn missing_provenance_error() -> AppErrorView {
    AppErrorView::BadRequest("agent candidate source and algorithm_version are required"@)
}

/// What checking one agent candidate gives: its normalised tag, or the error.
pub open spec fn candidate_check_spec(
    candidate_hash: Seq<char>,
    current_hash: Seq<char>,
    source: Seq<char>,
    algorithm_version: Seq<char>,
    tag: Seq<char>,
) -> Result<Seq<char>, AppErrorView> {
    if candidate_hash != current_hash {
        Err(stale_candidate_error())
    } else if trim(source).len() == 0 || trim(algorithm_version).len() == 0 {
        Err(missing_provenance_error())
    } else {
        match normalize_tag_spec(tag) {
            Ok(t) => Ok(t),
            Err(e) => Err(AppErrorView::BadRequest(tag_error_text(e))),
        }
    }
}

/// Checks an agent's tag candidate: it must be made for the note's current
/// content hash, name its source and algorithm version, and carry a valid
/// tag, which is returned normalised.
pub fn check_agent_candidate(
    candidate_hash: &str,
    current_hash: &str,
    source: &str,
    algorithm_version: &str,
    tag: &str,
) -> (r: Result<String, AppError>)
    ensures
        match r {
            Ok(t) => candidate_check_spec(candidate_hash@, current_hash@, source@, algorithm_version@, tag@)
                == Ok::<Seq<char>, AppErrorView>(t@),
            Err(e) => candidate_check_spec(candidate_hash@, current_hash@, source@, algorithm_version@, tag@)
                == Err::<Seq<char>, AppErrorView>(e@),
        },
{
    if !text_is(candidate_hash, current_hash) {
        return Err(AppError::conflict("suggestion_expired", "agent candidate content hash is stale"));
    }
    let s = trim_chars(&chars_of(source));
    let a = trim_chars(&chars_of(algorithm_version));
    if s.len() == 0 || a.len() == 0 {
        return Err(AppError::bad_request("agent candidate source and algorithm_version are required"));
    }
    match normalize_tag(tag) {
        Ok(t) => Ok(t),
        Err(e) => Err(AppError::bad_request(e.message())),
    }
}

/// Whether `tag` is among `existing`, ignoring ASCII case.
pub open spec fn tag_present_spec(existing: Seq<Seq<char>>, tag: Seq<char>) -> bool {
    exists|i: int| 0 <= i < existing.len() && eq_ignore_case(#[trigger] existing[i], tag)
}

/// Whether a note already carries `tag`, ignoring ASCII case; such
/// candidates are skipped.
pub fn tag_present(existing: &[String], tag: &str) -> (r: bool)
    ensures
        r == tag_present_spec(string_views(existing@), tag@),
{
    let t = chars_of(tag);
    let mut i: usize = 0;
    while i < existing.len()
        invariant
            i <= existing@.len(),
            t@ == tag@,
            forall|k: int| 0 <= k < i ==> !eq_ignore_case(#[trigger] string_views(existing@)[k], tag@),
        decreases existing.len() - i,
    {
        let e = chars_of(existing[i].as_str());
        if eq_ignore_ascii_case(&e, &t) {
            proof { assert(string_views(existing@)[i as int] == e@); }
            return true;
        }
        proof { assert(string_views(existing@)[i as int] == e@); }
        i = i + 1;
    }
    false
}

} // verus!
