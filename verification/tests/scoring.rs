use compass_core::instant::TimestampError;
use compass_core::scoring::{in_cooldown, trigger_eligible, Trigger};

#[test]
fn test_trigger_cooldown_days() {
    assert_eq!(Trigger::Cited.cooldown_days(), Some(1));
    assert_eq!(Trigger::Linked.cooldown_days(), Some(7));
    assert_eq!(Trigger::CaseAdded.cooldown_days(), None);
    assert_eq!(Trigger::ManualMark.cooldown_days(), None);
    assert_eq!(Trigger::ReviewCompleted.cooldown_days(), Some(7));
}

#[test]
fn test_in_cooldown_within() {
    let r = in_cooldown("2026-07-05T12:00:00Z", "2026-07-06T00:00:00Z", 1).unwrap();
    assert!(r, "12 hours < 1 day, still in cooldown");
}

#[test]
fn test_in_cooldown_expired() {
    let r = in_cooldown("2026-07-04T00:00:00Z", "2026-07-06T00:00:00Z", 1).unwrap();
    assert!(!r, "2 days >= 1 day, cooldown over");
}

#[test]
fn test_in_cooldown_7day() {
    let r = in_cooldown("2026-07-03T00:00:00Z", "2026-07-06T00:00:00Z", 7).unwrap();
    assert!(r);
}

#[test]
fn test_in_cooldown_bad_timestamp() {
    assert!(in_cooldown("not-a-time", "2026-07-06T00:00:00Z", 1).is_err());
}

#[test]
fn in_cooldown_counts_whole_days() {
    // 23 hours are zero whole days, 25 hours one.
    assert!(in_cooldown("2026-07-05T01:00:00Z", "2026-07-06T00:00:00Z", 1).unwrap());
    assert!(!in_cooldown("2026-07-04T23:00:00Z", "2026-07-06T00:00:00Z", 1).unwrap());
    // Offsets are honoured: 08:00+08:00 is 00:00Z.
    assert!(!in_cooldown("2026-07-05T08:00:00+08:00", "2026-07-06T00:00:00Z", 1).unwrap());
    assert_eq!(
        in_cooldown("2026-07-05T00:00:00Z", "garbage", 1),
        Err(TimestampError::Unparsable)
    );
}

#[test]
fn test_eligible_in_cooldown_returns_none() {
    let r = trigger_eligible(Trigger::Cited, "2026-07-06T00:00:00Z", Some("2026-07-05T12:00:00Z")).unwrap();
    assert!(!r);
}

#[test]
fn test_eligible_expired_applies() {
    let r = trigger_eligible(Trigger::Cited, "2026-07-06T00:00:00Z", Some("2026-07-04T00:00:00Z")).unwrap();
    assert!(r);
}

#[test]
fn test_eligible_no_cooldown_type_always_applies() {
    let r = trigger_eligible(Trigger::ManualMark, "2026-07-06T00:00:00Z", Some("2026-07-05T00:00:00Z")).unwrap();
    assert!(r);
}

#[test]
fn test_eligible_never_triggered_applies() {
    let r = trigger_eligible(Trigger::Cited, "2026-07-06T00:00:00Z", None).unwrap();
    assert!(r);
}

#[test]
fn trigger_names_for_history() {
    assert_eq!(Trigger::Cited.name(), "Cited");
    assert_eq!(Trigger::ReviewCompleted.name(), "ReviewCompleted");
}
