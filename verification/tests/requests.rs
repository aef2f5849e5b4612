use compass_core::requests::{parse_feed_mode, FeedMode};
use compass_core::requests::{
    default_feed_mode, default_layer, default_limit, default_related_limit, default_top_k,
    related_limit, WeeklyReportQuery,
};

#[test]
fn request_defaults() {
    assert_eq!(default_layer(), "knowledge");
    assert_eq!(default_top_k(), 5);
    assert_eq!(default_feed_mode(), "explore");
    assert_eq!(default_limit(), 20);
    assert_eq!(default_related_limit(), 10);
    assert_eq!(WeeklyReportQuery::default().tz, None);
}

#[test]
fn related_limit_is_capped() {
    assert_eq!(related_limit(5), 5);
    assert_eq!(related_limit(20), 20);
    assert_eq!(related_limit(500), 20);
}

#[test]
fn feed_modes_are_checked() {
    assert_eq!(parse_feed_mode("explore"), Ok(FeedMode::Explore));
    assert_eq!(parse_feed_mode("consolidate"), Ok(FeedMode::Consolidate));
    assert_eq!(parse_feed_mode("strategic"), Ok(FeedMode::Strategic));
    assert_eq!(
        parse_feed_mode("invalid"),
        Err(compass_core::errors::AppError::Unprocessable(
            "mode must be explore, consolidate, or strategic".to_string()
        ))
    );
}
