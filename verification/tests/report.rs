use compass_core::errors::AppError;
use compass_core::report::{data_quality, new_entity_ids, parse_report_window, TimelineEvent};

#[test]
fn report_window_in_shanghai() {
    let w = parse_report_window(Some("2026-07-06"), Some("2026-07-13"), Some("Asia/Shanghai")).unwrap();
    assert_eq!(w.from_text, "2026-07-06");
    assert_eq!(w.tz, "Asia/Shanghai");
    assert_eq!(w.start_utc, "2026-07-05T16:00:00Z");
    assert_eq!(w.end_utc, "2026-07-12T16:00:00Z");
    assert_eq!(w.generated_at(), "2026-07-13T00:00:00Z");
}

#[test]
fn test_weekly_report_rejects_missing_or_invalid_timezone() {
    let e = parse_report_window(Some("2026-07-06"), Some("2026-07-13"), Some("Not/AZone")).unwrap_err();
    assert!(matches!(e, AppError::Unprocessable(_)));
    let e = parse_report_window(Some("2026-07-06"), Some("2026-07-13"), None).unwrap_err();
    assert!(matches!(e, AppError::Unprocessable(_)));
}

#[test]
fn report_window_errors_name_the_field() {
    let msg = |r: Result<_, AppError>| match r {
        Err(AppError::Unprocessable(m)) => m,
        other => panic!("unexpected {other:?}"),
    };
    assert_eq!(msg(parse_report_window(None, Some("2026-07-13"), Some("UTC"))), "from is required");
    assert_eq!(msg(parse_report_window(Some("07/06/2026"), Some("2026-07-13"), Some("UTC"))), "from must be YYYY-MM-DD");
    assert_eq!(msg(parse_report_window(Some("2026-07-06"), None, Some("UTC"))), "to is required");
    assert_eq!(msg(parse_report_window(Some("2026-07-13"), Some("2026-07-06"), Some("UTC"))), "from must be before to");
    assert_eq!(msg(parse_report_window(Some("2026-07-06"), Some("2026-07-06"), Some("UTC"))), "from must be before to");
    assert_eq!(msg(parse_report_window(Some("2026-07-06"), Some("2026-07-13"), Some("  "))), "tz is required");
    assert_eq!(
        msg(parse_report_window(Some("2026-07-06"), Some("2026-07-13"), Some("Mars/Base"))),
        "tz must be a valid IANA timezone"
    );
}

#[test]
fn created_entities_are_listed_once() {
    let ev = |t: &str, id: &str| TimelineEvent { event_type: t.to_string(), entity_id: id.to_string() };
    let events = vec![ev("access", "a"), ev("create", "b"), ev("create", "c"), ev("create", "b")];
    assert_eq!(new_entity_ids(&events), vec!["b".to_string(), "c".to_string()]);
}

#[test]
fn missing_history_is_reported() {
    let q = data_quality(true);
    assert!(q.history_unavailable);
    assert_eq!(q.missing, vec!["history".to_string()]);
    assert!(data_quality(false).missing.is_empty());
}
