use compass_core::instant::{days_between, next_run_time, TimestampError, UtcInstant};

fn at(text: &str) -> UtcInstant {
    let d = chrono::DateTime::parse_from_rfc3339(text).unwrap();
    UtcInstant { secs: d.timestamp(), nanos: d.timestamp_subsec_nanos() }
}

fn show(i: UtcInstant) -> chrono::DateTime<chrono::Utc> {
    chrono::DateTime::from_timestamp(i.secs, i.nanos).unwrap()
}

#[test]
fn test_next_run_time() {
    let next = show(next_run_time(at("2026-07-09T01:00:00Z")));
    assert_eq!(next.format("%H").to_string(), "02");

    let next = show(next_run_time(at("2026-07-09T03:00:00Z")));
    assert_eq!(next.format("%H").to_string(), "02");
    assert_eq!(next.format("%d").to_string(), "10");
}

#[test]
fn next_run_time_is_strictly_later() {
    assert_eq!(show(next_run_time(at("2026-07-09T02:00:00Z"))).to_rfc3339(), "2026-07-10T02:00:00+00:00");
    assert_eq!(show(next_run_time(at("2026-07-09T01:59:59.999Z"))).to_rfc3339(), "2026-07-09T02:00:00+00:00");
    assert_eq!(show(next_run_time(at("1969-12-31T23:00:00Z"))).to_rfc3339(), "1970-01-01T02:00:00+00:00");
}

#[test]
fn days_between_truncates_and_reports_bad_input() {
    assert_eq!(days_between("2026-07-06T00:00:00Z", "2026-07-04T01:00:00Z"), Ok(1));
    assert_eq!(days_between("2026-07-04T00:00:00Z", "2026-07-06T00:00:00Z"), Ok(-2));
    assert_eq!(days_between("x", "2026-07-06T00:00:00Z"), Err(TimestampError::Unparsable));
}

#[test]
fn days_between_rounds_spans_toward_zero() {
    assert_eq!(days_between("2026-07-05T23:59:59Z", "2026-07-04T00:00:00Z"), Ok(1));
    assert_eq!(days_between("2026-07-04T00:00:00Z", "2026-07-05T00:00:00.5Z"), Ok(-1));
    assert_eq!(days_between("2026-07-04T00:00:00Z", "2026-07-05T23:59:59.9Z"), Ok(-1));
    assert_eq!(days_between("2026-07-04T00:00:00+02:00", "2026-07-02T23:00:00Z"), Ok(0));
}
