//! Topic filters.
use mqtt_broker::topic::topic_matches;

#[test]
fn plain_filters_are_exact() {
    assert!(topic_matches("a/b", "a/b"));
    assert!(!topic_matches("a/b", "a/c"));
    assert!(!topic_matches("a/b", "a"));
    assert!(!topic_matches("a", "a/b"));
    assert!(!topic_matches("a/b", "a/b/"));
    assert!(topic_matches("", ""));
    assert!(!topic_matches("A", "a"));
}

#[test]
fn hash_matches_parent_and_below() {
    assert!(topic_matches("test/#", "test"));
    assert!(topic_matches("test/#", "test/hello/foo"));
    assert!(topic_matches("test/#", "test/other"));
    assert!(!topic_matches("test/#", "tests"));
    assert!(!topic_matches("test/#", "other/test"));
    assert!(topic_matches("#", "a/b/c"));
    assert!(topic_matches("#", ""));
    assert!(topic_matches("$SYS/#", "$SYS/broker/version"));
    assert!(topic_matches("+/#", "sensor/room1"));
}

#[test]
fn hash_inside_a_filter_ends_it() {
    assert!(topic_matches("a/#/b", "a/x"));
    assert!(topic_matches("a/#/b", "a"));
}

#[test]
fn plus_matches_one_level() {
    assert!(topic_matches("test/+/foo", "test/hello/foo"));
    assert!(!topic_matches("test/+/foo", "test/other"));
    assert!(!topic_matches("test/+/foo", "test/a/b/foo"));
    assert!(topic_matches("sensor/+/temp", "sensor/room1/temp"));
    assert!(topic_matches("a/+", "a/"));
    assert!(!topic_matches("a/+", "a"));
    assert!(topic_matches("+", "x"));
    assert!(!topic_matches("+", "x/y"));
}

#[test]
fn wildcards_fill_a_whole_level() {
    assert!(!topic_matches("a+", "ab"));
    assert!(!topic_matches("a#", "ab"));
    assert!(topic_matches("a+", "a+"));
    assert!(topic_matches("+/+", "/"));
}
