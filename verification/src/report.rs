//! The weekly report's window and the parts of the report that do not
//! depend on score arithmetic: the window's bounds, data quality, and the
//! entities created in the window.
use vstd::prelude::*;

use crate::contracts::DataQuality;
use crate::errors::{AppError, AppErrorView};
use crate::text::{chars_of, eq_chars, extend_chars, opt_view, string_of, string_views, trim, trim_chars};

verus! {

/// A calendar date.
#[derive(Debug, Clone, Copy, PartialEq, Eq, Structural)]
pub struct CalendarDate {
    pub year: i32,
    pub month: u32,
    pub day: u32,
}

/// Whether date `a` comes before date `b`.
pub open spec fn date_before(a: CalendarDate, b: CalendarDate) -> bool {
    a.year < b.year || (a.year == b.year && (a.month < b.month || (a.month == b.month && a.day < b.day)))
}

/// The date a `YYYY-MM-DD` text denotes and its canonical `YYYY-MM-DD`
/// text, or `None` when it denotes no date (a name for what
/// `chrono::NaiveDate::parse_from_str` with `%Y-%m-%d` gives, and the
/// date's `%Y-%m-%d` formatting).
pub uninterp spec fn parse_date_spec(s: Seq<char>) -> Option<(CalendarDate, Seq<char>)>;

/// `chrono::NaiveDate::parse_from_str(s, "%Y-%m-%d")`, the date read as year,
/// month and day and formatted back with `%Y-%m-%d`. The contract claims
/// that the result depends on the text alone.
#[verifier::external_body]
fn parse_date(s: &str) -> (r: Option<(CalendarDate, String)>)
    ensures
        match r {
            Some((d, t)) => parse_date_spec(s@) == Some((d, t@)),
            None => parse_date_spec(s@) is None,
        },
{
    chrono::NaiveDate::parse_from_str(s, "%Y-%m-%d").ok().map(|d| (
        CalendarDate {
            year: chrono::Datelike::year(&d),
            month: chrono::Datelike::month(&d),
            day: chrono::Datelike::day(&d),
        },
        d.format("%Y-%m-%d").to_string(),
    ))
}

/// The canonical name of an IANA time zone, or `None` when `name` names
/// none (a name for what parsing `name` as a `chrono_tz::Tz` and asking its
/// name gives).
pub uninterp spec fn tz_name_spec(name: Seq<char>) -> Option<Seq<char>>;

/// `str::parse::<chrono_tz::Tz>`, then the zone's name. The contract claims
/// that the result depends on the text alone.
#[verifier::external_body]
fn tz_name(name: &str) -> (r: Option<String>)
    ensures
        opt_view(r) == tz_name_spec(name@),
{
    name.parse::<chrono_tz::Tz>().ok().map(|tz| tz.name().to_string())
}

/// The UTC instant, as RFC 3339 text with whole seconds and `Z`, of local
/// midnight at the start of `date` in zone `tz`; the earlier one when the
/// local time occurs twice; `None` when it does not occur or `tz` names no
/// zone (a name for what `chrono_tz` and `chrono` give).
pub uninterp spec fn local_midnight_spec(date: CalendarDate, tz: Seq<char>) -> Option<Seq<char>>;

/// `chrono::TimeZone::from_local_datetime` of the date's midnight in the
/// zone, converted to UTC and written with `to_rfc3339_opts(Secs, true)`.
/// The contract claims that the result depends on the date and zone name
/// alone.
#[verifier::external_body]
fn local_midnight(date: CalendarDate, tz: &str) -> (r: Option<String>)
    ensures
        opt_view(r) == local_midnight_spec(date, tz@),
{
    let zone: chrono_tz::Tz = tz.parse().ok()?;
    let local = chrono::NaiveDate::from_ymd_opt(date.year, date.month, date.day)?.and_hms_opt(0, 0, 0)?;
    match chrono::TimeZone::from_local_datetime(&zone, &local) {
        chrono::LocalResult::Single(v) => Some(v.with_timezone(&chrono::Utc).to_rfc3339_opts(chrono::SecondsFormat::Secs, true)),
        chrono::LocalResult::Ambiguous(v, _) => Some(v.with_timezone(&chrono::Utc).to_rfc3339_opts(chrono::SecondsFormat::Secs, true)),
        chrono::LocalResult::None => None,
    }
}

/// The window of a weekly report.
#[derive(Debug, Clone, PartialEq, Eq)]
pub struct ReportWindow {
    pub from: CalendarDate,
    pub to: CalendarDate,
    /// `from` as `YYYY-MM-DD`.
    pub from_text: String,
    /// `to` as `YYYY-MM-DD`.
    pub to_text: String,
    /// The zone's canonical name.
    pub tz: String,
    /// Local midnight at the start of `from`, in UTC.
    pub start_utc: String,
    /// Local midnight at the start of `to`, in UTC.
    pub end_utc: String,
}

/// A report window with its texts as characters.
pub ghost struct ReportWindowView {
    pub from: CalendarDate,
    pub to: CalendarDate,
    pub from_text: Seq<char>,
    pub to_text: Seq<char>,
    pub tz: Seq<char>,
    pub start_utc: Seq<char>,
    pub end_utc: Seq<char>,
}

/// The view of a window.
pub open spec fn window_view(w: ReportWindow) -> ReportWindowView {
    ReportWindowView {
        from: w.from,
        to: w.to,
        from_text: w.from_text@,
        to_text: w.to_text@,
        tz: w.tz@,
        start_utc: w.start_utc@,
        end_utc: w.end_utc@,
    }
}

/// The error for a request whose parameter `field` fails `what`.
pub open spec fn field_error(field: Seq<char>, what: Seq<char>) -> AppErrorView {
    AppErrorView::Unprocessable(field + what)
}

/// What a weekly report request's parameters give: both dates are required
/// and must be `YYYY-MM-DD`, `from` must come before `to`, the zone is
/// required and must be an IANA zone, and local midnight must exist at the
/// start of both dates.
pub open spec fn report_window_spec(from: Option<Seq<char>>, to: Option<Seq<char>>, tz: Option<Seq<char>>)
    -> Result<ReportWindowView, AppErrorView> {
    match from {
        None => Err(field_error("from"@, " is required"@)),
        Some(f) => match parse_date_spec(f) {
            None => Err(field_error("from"@, " must be YYYY-MM-DD"@)),
            Some((fd, ft)) => match to {
                None => Err(field_error("to"@, " is required"@)),
                Some(t) => match parse_date_spec(t) {
                    None => Err(field_error("to"@, " must be YYYY-MM-DD"@)),
                    Some((td, tt)) => if !date_before(fd, td) {
                        Err(AppErrorView::Unprocessable("from must be before to"@))
                    } else {
                        match tz {
                            None => Err(AppErrorView::Unprocessable("tz is required"@)),
                            Some(z) => if trim(z).len() == 0 {
                                Err(AppErrorView::Unprocessable("tz is required"@))
                            } else {
                                match tz_name_spec(z) {
                                    None => Err(AppErrorView::Unprocessable("tz must be a valid IANA timezone"@)),
                                    Some(name) => match local_midnight_spec(fd, z) {
                                        None => Err(field_error("invalid from"@, " local midnight"@)),
                                        Some(start) => match local_midnight_spec(td, z) {
                                            None => Err(field_error("invalid to"@, " local midnight"@)),
                                            Some(end) => Ok(ReportWindowView {
                                                from: fd,
                                                to: td,
                                                from_text: ft,
                                                to_text: tt,
                                                tz: name,
                                                start_utc: start,
                                                end_utc: end,
                                            }),
                                        },
                                    },
                                }
                            },
                        }
                    },
                },
            },
        },
    }
}

fn unprocessable2(a: &str, b: &str) -> (e: AppError)
    ensures
        e@ == AppErrorView::Unprocessable(a@ + b@),
{
    let mut v = chars_of(a);
    extend_chars(&mut v, &chars_of(b));
    let s = string_of(&v);
    AppError::unprocessable(s.as_str())
}

fn is_before(a: CalendarDate, b: CalendarDate) -> (r: bool)
    ensures
        r == date_before(a, b),
{
    a.year < b.year || (a.year == b.year && (a.month < b.month || (a.month == b.month && a.day < b.day)))
}

/// Reads the window of a weekly report from its request parameters.
pub fn parse_report_window(from: Option<&str>, to: Option<&str>, tz: Option<&str>) -> (r: Result<ReportWindow, AppError>)
    ensures
        match r {
            Ok(w) => report_window_spec(
                match from { Some(s) => Some(s@), None => None },
                match to { Some(s) => Some(s@), None => None },
                match tz { Some(s) => Some(s@), None => None },
            ) == Ok::<ReportWindowView, AppErrorView>(window_view(w)),
            Err(e) => report_window_spec(
                match from { Some(s) => Some(s@), None => None },
                match to { Some(s) => Some(s@), None => None },
                match tz { Some(s) => Some(s@), None => None },
            ) == Err::<ReportWindowView, AppErrorView>(e@),
        },
{
    let f = match from {
        None => return Err(unprocessable2("from", " is required")),
        Some(f) => f,
    };
    let (fd, ft) = match parse_date(f) {
        None => return Err(unprocessable2("from", " must be YYYY-MM-DD")),
        Some(p) => p,
    };
    let t = match to {
        None => return Err(unprocessable2("to", " is required")),
        Some(t) => t,
    };
    let (td, tt) = match parse_date(t) {
        None => return Err(unprocessable2("to", " must be YYYY-MM-DD")),
        Some(p) => p,
    };
    if !is_before(fd, td) {
        return Err(AppError::unprocessable("from must be before to"));
    }
    let z = match tz {
        None => return Err(AppError::unprocessable("tz is required")),
        Some(z) => z,
    };
    if trim_chars(&chars_of(z)).len() == 0 {
        return Err(AppError::unprocessable("tz is required"));
    }
    let name = match tz_name(z) {
        None => return Err(AppError::unprocessable("tz must be a valid IANA timezone")),
        Some(n) => n,
    };
    let start = match local_midnight(fd, z) {
        None => return Err(unprocessable2("invalid from", " local midnight")),
        Some(s) => s,
    };
    let end = match local_midnight(td, z) {
        None => return Err(unprocessable2("invalid to", " local midnight")),
        Some(s) => s,
    };
    Ok(ReportWindow { from: fd, to: td, from_text: ft, to_text: tt, tz: name, start_utc: start, end_utc: end })
}

/// When a report for the window is said to be generated: midnight UTC at
/// the start of its `to` date.
pub open spec fn generated_at_spec(w: ReportWindowView) -> Seq<char> {
    w.to_text + "T00:00:00Z"@
}

impl ReportWindow {
    /// `<to>T00:00:00Z`.
    pub fn generated_at(&self) -> (r: String)
        ensures
            r@ == generated_at_spec(window_view(*self)),
    {
        let mut v = chars_of(self.to_text.as_str());
        extend_chars(&mut v, &chars_of("T00:00:00Z"));
        string_of(&v)
    }
}

/// The report's data quality: when the index holds no history at all, the
/// report says so and names `history` as missing.
pub fn data_quality(history_unavailable: bool) -> (q: DataQuality)
    ensures
        q.history_unavailable == history_unavailable,
        history_unavailable ==> string_views(q.missing@) == seq!["history"@],
        !history_unavailable ==> q.missing@.len() == 0,
{
    let mut missing: Vec<String> = Vec::new();
    if history_unavailable {
        missing.push("history".to_owned());
        proof { assert(string_views(missing@) =~= seq!["history"@]); }
    }
    DataQuality { history_unavailable, missing }
}

/// A timeline event as the report reads it.
#[derive(Debug, Clone, PartialEq, Eq)]
pub struct TimelineEvent {
    pub event_type: String,
    pub entity_id: String,
}

/// The entities of `create` events, each once, in the order of their first
/// creation.
pub open spec fn created_ids(events: Seq<(Seq<char>, Seq<char>)>) -> Seq<Seq<char>>
    decreases events.len(),
{
    if events.len() == 0 {
        Seq::<Seq<char>>::empty()
    } else {
        let r = created_ids(events.drop_last());
        let e = events.last();
        if e.0 == "create"@ && !r.contains(e.1) {
            r.push(e.1)
        } else {
            r
        }
    }
}

/// The events as (type, entity) pairs.
pub open spec fn event_pairs(v: Seq<TimelineEvent>) -> Seq<(Seq<char>, Seq<char>)> {
    v.map_values(|e: TimelineEvent| (e.event_type@, e.entity_id@))
}

fn contains_string(v: &Vec<String>, s: &str) -> (r: bool)
    ensures
        r == string_views(v@).contains(s@),
{
    let t = chars_of(s);
    let mut i: usize = 0;
    while i < v.len()
        invariant
            i <= v@.len(),
            t@ == s@,
            forall|k: int| 0 <= k < i ==> (#[trigger] v@[k])@ != s@,
        decreases v.len() - i,
    {
        if eq_chars(&chars_of(v[i].as_str()), &t) {
            proof { assert(string_views(v@)[i as int] == s@); }
            return true;
        }
        i = i + 1;
    }
    proof {
        if string_views(v@).contains(s@) {
            let k = choose|k: int| 0 <= k < v@.len() && string_views(v@)[k] == s@;
            assert(v@[k]@ == s@);
        }
    }
    false
}

/// The entities created in the window, from its timeline events.
pub fn new_entity_ids(events: &[TimelineEvent]) -> (r: Vec<String>)
    ensures
        string_views(r@) == created_ids(event_pairs(events@)),
{
    let ghost ev = event_pairs(events@);
    let mut out: Vec<String> = Vec::new();
    let mut i: usize = 0;
    proof { assert(ev.take(0) =~= Seq::<(Seq<char>, Seq<char>)>::empty()); }
    while i < events.len()
        invariant
            i <= events@.len(),
            ev == event_pairs(events@),
            string_views(out@) == created_ids(ev.take(i as int)),
        decreases events.len() - i,
    {
        let e = &events[i];
        proof {
            assert(ev.take(i + 1).drop_last() =~= ev.take(i as int));
            assert(ev.take(i + 1).last() == (e.event_type@, e.entity_id@));
        }
        let is_create = eq_chars(&chars_of(e.event_type.as_str()), &chars_of("create"));
        if is_create && !contains_string(&out, e.entity_id.as_str()) {
            let ghost before = string_views(out@);
            out.push(e.entity_id.clone());
            proof { assert(string_views(out@) =~= before.push(e.entity_id@)); }
        }
        i = i + 1;
    }
    proof { assert(ev.take(events@.len() as int) =~= ev); }
    out
}

} // verus!
