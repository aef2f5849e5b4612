//! Score triggers, access depths and the cooldown rule that keeps a trigger
//! from firing again too soon.
use vstd::prelude::*;

use crate::instant::{days_between, days_between_text, TimestampError};

verus! {

/// Events that raise a score.
#[derive(Debug, Clone, Copy, PartialEq, Eq, Structural)]
pub enum Trigger {
    /// Cited by another note: consensus +2, cooldown 1 day.
    Cited,
    /// Created a link: interest +1, cooldown 7 days.
    Linked,
    /// A case was added: strategy +3, no cooldown.
    CaseAdded,
    /// Marked as important by hand: interest +10, no cooldown.
    ManualMark,
    /// A review was completed: consensus +2, cooldown 7 days.
    ReviewCompleted,
}

/// The cooldown of each trigger in days; `None` means none.
pub open spec fn cooldown_spec(t: Trigger) -> Option<i64> {
    match t {
        Trigger::Cited => Some(1),
        Trigger::Linked => Some(7),
        Trigger::CaseAdded => None,
        Trigger::ManualMark => None,
        Trigger::ReviewCompleted => Some(7),
    }
}

impl Trigger {
    /// The cooldown in days; `None` means the trigger has no cooldown.
    pub fn cooldown_days(&self) -> (r: Option<i64>)
        ensures
            r == cooldown_spec(*self),
    {
        match self {
            Trigger::Cited => Some(1),
            Trigger::Linked => Some(7),
            Trigger::CaseAdded => None,
            Trigger::ManualMark => None,
            Trigger::ReviewCompleted => Some(7),
        }
    }

    /// The name under which score history records this trigger.
    pub fn name(&self) -> (r: &'static str)
        ensures
            r@ == trigger_name(*self),
    {
        match self {
            Trigger::Cited => { proof { reveal_strlit("Cited"); } "Cited" },
            Trigger::Linked => { proof { reveal_strlit("Linked"); } "Linked" },
            Trigger::CaseAdded => { proof { reveal_strlit("CaseAdded"); } "CaseAdded" },
            Trigger::ManualMark => { proof { reveal_strlit("ManualMark"); } "ManualMark" },
            Trigger::ReviewCompleted => { proof { reveal_strlit("ReviewCompleted"); } "ReviewCompleted" },
        }
    }
}

/// The history name of a trigger.
pub open spec fn trigger_name(t: Trigger) -> Seq<char> {
    match t {
        Trigger::Cited => seq!['C', 'i', 't', 'e', 'd'],
        Trigger::Linked => seq!['L', 'i', 'n', 'k', 'e', 'd'],
        Trigger::CaseAdded => seq!['C', 'a', 's', 'e', 'A', 'd', 'd', 'e', 'd'],
        Trigger::ManualMark => seq!['M', 'a', 'n', 'u', 'a', 'l', 'M', 'a', 'r', 'k'],
        Trigger::ReviewCompleted => seq!['R', 'e', 'v', 'i', 'e', 'w', 'C', 'o', 'm', 'p', 'l', 'e', 't', 'e', 'd'],
    }
}

/// How deeply a note was accessed.
#[derive(Debug, Clone, Copy, PartialEq, Eq, Structural)]
pub enum AccessDepth {
    /// Glanced at the title: interest +0, consensus +0.1.
    Glance,
    /// Read in full: interest +1, consensus +0.5 (the default).
    Read,
    /// Studied: interest +3, consensus +1.
    Study,
    /// Applied: interest +2, strategy +5, consensus +2.
    Apply,
}

impl Default for AccessDepth {
    fn default() -> (r: Self)
        ensures
            r == AccessDepth::Read,
    {
        AccessDepth::Read
    }
}

/// A trigger stays in cooldown while fewer whole days than its cooldown have
/// elapsed since it last fired.
pub open spec fn cooldown_active_spec(elapsed_days: i64, cooldown_days: i64) -> bool {
    elapsed_days < cooldown_days
}

/// Whether `elapsed_days` whole days are still inside a cooldown of
/// `cooldown_days` days.
pub fn cooldown_active(elapsed_days: i64, cooldown_days: i64) -> (r: bool)
    ensures
        r == cooldown_active_spec(elapsed_days, cooldown_days),
{
    elapsed_days < cooldown_days
}

/// The outcome of `in_cooldown`: the whole days between the two timestamps
/// (truncated, so 23 hours count as 0 days and 25 hours as 1) compared with
/// the cooldown.
pub open spec fn in_cooldown_spec(last_triggered: Seq<char>, now: Seq<char>, cooldown_days: i64) -> Result<bool, TimestampError> {
    match days_between_text(now, last_triggered) {
        Ok(d) => Ok(cooldown_active_spec(d, cooldown_days)),
        Err(e) => Err(e),
    }
}

/// Whether a trigger that last fired at `last_triggered` is still in its
/// cooldown at `now`; both are RFC 3339 timestamps.
pub fn in_cooldown(last_triggered: &str, now: &str, cooldown_days: i64) -> (r: Result<bool, TimestampError>)
    ensures
        r == in_cooldown_spec(last_triggered@, now@, cooldown_days),
{
    match days_between(now, last_triggered) {
        Ok(d) => Ok(cooldown_active(d, cooldown_days)),
        Err(e) => Err(e),
    }
}

/// Whether a trigger may fire at `now`, given when it last fired: always
/// when it has no cooldown or never fired, otherwise when its cooldown is over.
pub open spec fn trigger_eligible_spec(trigger: Trigger, now: Seq<char>, last_for_type: Option<Seq<char>>) -> Result<bool, TimestampError> {
    match (cooldown_spec(trigger), last_for_type) {
        (Some(cd), Some(last)) => match in_cooldown_spec(last, now, cd) {
            Ok(active) => Ok(!active),
            Err(e) => Err(e),
        },
        _ => Ok(true),
    }
}

/// The cooldown check of `apply_trigger_if_eligible`: whether the trigger may
/// be applied at `now`.
pub fn trigger_eligible(trigger: Trigger, now: &str, last_for_type: Option<&str>) -> (r: Result<bool, TimestampError>)
    ensures
        r == trigger_eligible_spec(trigger, now@, match last_for_type {
            Some(l) => Some(l@),
            None => None,
        }),
{
    match (trigger.cooldown_days(), last_for_type) {
        (Some(cd), Some(last)) => match in_cooldown(last, now, cd) {
            Ok(active) => Ok(!active),
            Err(e) => Err(e),
        },
        _ => Ok(true),
    }
}

/// A trigger without cooldown is always eligible, whatever its history.
pub proof fn law_no_cooldown_always_eligible(trigger: Trigger, now: Seq<char>, last: Option<Seq<char>>)
    requires
        cooldown_spec(trigger).is_none(),
    ensures
        trigger_eligible_spec(trigger, now, last) == Ok::<bool, TimestampError>(true),
{
}

/// A longer cooldown never ends sooner: if a trigger is in a cooldown of `a`
/// days, it is in any cooldown of `b >= a` days too.
pub proof fn law_cooldown_monotone(last: Seq<char>, now: Seq<char>, a: i64, b: i64)
    requires
        a <= b,
        in_cooldown_spec(last, now, a) == Ok::<bool, TimestampError>(true),
    ensures
        in_cooldown_spec(last, now, b) == Ok::<bool, TimestampError>(true),
{
}

/// The cooldown table of the triggers at work: once `d` whole days have
/// passed since a trigger last fired, it may fire again exactly when `d`
/// reaches its cooldown: 1 day for `Cited`, 7 days for `Linked` and
/// `ReviewCompleted`; `CaseAdded` and `ManualMark` may always fire. So a
/// review completed 3 days ago does not count again, and one completed 7
/// days ago does.
pub proof fn law_trigger_cooldown_table(trigger: Trigger, now: Seq<char>, last: Seq<char>)
    requires
        days_between_text(now, last) is Ok,
    ensures
        trigger_eligible_spec(trigger, now, Some(last)) == Ok::<bool, TimestampError>(match trigger {
            Trigger::Cited => days_between_text(now, last)->Ok_0 >= 1,
            Trigger::Linked => days_between_text(now, last)->Ok_0 >= 7,
            Trigger::ReviewCompleted => days_between_text(now, last)->Ok_0 >= 7,
            Trigger::CaseAdded => true,
            Trigger::ManualMark => true,
        }),
{
}

/// A trigger with a cooldown cannot be judged when a timestamp cannot be
/// read: the answer is the timestamp error, never a decision.
pub proof fn law_unreadable_timestamps_decide_nothing(trigger: Trigger, now: Seq<char>, last: Seq<char>)
    requires
        days_between_text(now, last) is Err,
        trigger != Trigger::CaseAdded,
        trigger != Trigger::ManualMark,
    ensures
        trigger_eligible_spec(trigger, now, Some(last)) is Err,
{
}

} // verus!
