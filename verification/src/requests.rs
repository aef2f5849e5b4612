//! The parameters of the HTTP requests, with the defaults that apply when a
//! request leaves a parameter out.
use vstd::prelude::*;

use crate::errors::{AppError, AppErrorView};

verus! {

/// The layer a new entity is created in unless the request names one.
pub fn default_layer() -> (s: String)
    ensures
        s@ == "knowledge"@,
{
    "knowledge".to_owned()
}

/// How many entities an agent context holds unless the request says.
pub fn default_top_k() -> (n: usize)
    ensures
        n == 5,
{
    5
}

/// The feed mode unless the request names one.
pub fn default_feed_mode() -> (s: String)
    ensures
        s@ == "explore"@,
{
    "explore".to_owned()
}

/// How many items a listing returns unless the request says.
pub fn default_limit() -> (n: u32)
    ensures
        n == 20,
{
    20
}

/// How many related entities are suggested unless the request says.
pub fn default_related_limit() -> (n: u32)
    ensures
        n == 10,
{
    10
}

/// The most related entities one request returns.
pub const MAX_RELATED: u32 = 20;

/// The number of related suggestions a request gets: what it asked for, at
/// most `MAX_RELATED`.
pub fn related_limit(requested: u32) -> (n: u32)
    ensures
        n == if requested < MAX_RELATED { requested } else { MAX_RELATED },
{
    if requested < MAX_RELATED { requested } else { MAX_RELATED }
}

/// An edge of the knowledge graph: `source` links to `target`.
#[derive(Debug, Clone, PartialEq, Eq)]
pub struct GraphEdge {
    pub source: String,
    pub target: String,
}

/// A request to record that an entity was accessed, at some depth.
#[derive(Debug, Clone, PartialEq, Eq)]
pub struct AccessRequest {
    pub depth: String,
}

/// A request for the entities most relevant to an agent's task.
#[derive(Debug, Clone, PartialEq, Eq)]
pub struct AgentContextRequest {
    pub task: String,
    pub top_k: usize,
}

/// The parameters of the feed.
#[derive(Debug, Clone, PartialEq, Eq)]
pub struct FeedQuery {
    pub mode: String,
    pub limit: u32,
}

/// The parameters of the top-entities listing.
#[derive(Debug, Clone, PartialEq, Eq)]
pub struct TopQuery {
    pub layer: Option<String>,
    pub limit: u32,
}

/// The parameters of a search.
#[derive(Debug, Clone, PartialEq, Eq)]
pub struct SearchQuery {
    pub q: String,
    pub limit: u32,
}

/// The parameters of a related-entities request.
#[derive(Debug, Clone, PartialEq, Eq)]
pub struct RelatedQuery {
    pub limit: u32,
}

/// The parameters of a weekly report: dates as `YYYY-MM-DD` and an IANA
/// time zone name.
#[derive(Debug, Clone, PartialEq, Eq, Default)]
pub struct WeeklyReportQuery {
    pub from: Option<String>,
    pub to: Option<String>,
    pub tz: Option<String>,
}

/// The orders the feed can be read in.
#[derive(Debug, Clone, Copy, PartialEq, Eq, Structural)]
pub enum FeedMode {
    /// Highest composite first.
    Explore,
    /// Least recently boosted first, never boosted before all.
    Consolidate,
    /// Highest strategy first.
    Strategic,
}

/// The mode a feed request names, if it names one.
pub open spec fn feed_mode_of(mode: Seq<char>) -> Option<FeedMode> {
    if mode == "explore"@ {
        Some(FeedMode::Explore)
    } else if mode == "consolidate"@ {
        Some(FeedMode::Consolidate)
    } else if mode == "strategic"@ {
        Some(FeedMode::Strategic)
    } else {
        None
    }
}

/// The error for an unknown feed mode.
pub open spec fn unknown_mode_error() -> AppErrorView {
    AppErrorView::Unprocessable("mode must be explore, consolidate, or strategic"@)
}

fn text_is(s: &str, lit: &str) -> (r: bool)
    ensures
        r == (s@ == lit@),
{
    crate::text::eq_chars(&crate::text::chars_of(s), &crate::text::chars_of(lit))
}

/// Reads a feed mode; any other text is refused.
pub fn parse_feed_mode(mode: &str) -> (r: Result<FeedMode, AppError>)
    ensures
        match feed_mode_of(mode@) {
            Some(m) => r == Ok::<FeedMode, AppError>(m),
            None => r matches Err(e) && e@ == unknown_mode_error(),
        },
{
    if text_is(mode, "explore") {
        Ok(FeedMode::Explore)
    } else if text_is(mode, "consolidate") {
        Ok(FeedMode::Consolidate)
    } else if text_is(mode, "strategic") {
        Ok(FeedMode::Strategic)
    } else {
        Err(AppError::unprocessable("mode must be explore, consolidate, or strategic"))
    }
}

} // verus!
