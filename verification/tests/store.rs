//! Tests of the subscribed-feed store: its operations, its JSON form, and
//! the parser that reads the form back.

use fead::feeds::{Feed, FeedsManager};
use fead::store::parse_feeds;
use fead::FeedError;

#[test]
fn add_persist_parse_round_trips_one_feed() {
    let mut feeds: Vec<Feed> = Vec::new();
    feeds.add_feed("Foo".to_string(), "http://x".to_string());
    let text = feeds.persist();
    let loaded = parse_feeds(&text).unwrap();
    assert_eq!(loaded.len(), 1);
    assert_eq!(loaded[0].title, "Foo");
    assert_eq!(loaded[0].url, "http://x");
}

#[test]
fn persist_writes_the_documented_json_form() {
    let mut feeds: Vec<Feed> = Vec::new();
    feeds.add_feed("a".to_string(), "b".to_string());
    feeds.add_feed("c".to_string(), "d".to_string());
    assert_eq!(
        feeds.persist(),
        "[{\"title\":\"a\",\"url\":\"b\"},{\"title\":\"c\",\"url\":\"d\"}]"
    );
    let empty: Vec<Feed> = Vec::new();
    assert_eq!(empty.persist(), "[]");
}

#[test]
fn remove_drops_every_feed_with_the_title() {
    let mut feeds: Vec<Feed> = Vec::new();
    feeds.add_feed("Foo".to_string(), "http://one".to_string());
    feeds.add_feed("Bar".to_string(), "http://two".to_string());
    feeds.add_feed("Foo".to_string(), "http://three".to_string());
    feeds.remove_feed("Foo");
    assert_eq!(feeds.len(), 1);
    assert_eq!(feeds[0].title, "Bar");
    assert_eq!(feeds[0].url, "http://two");
}

#[test]
fn escaped_titles_round_trip() {
    let mut feeds: Vec<Feed> = Vec::new();
    feeds.add_feed("he said \"hi\"\n".to_string(), "a\\b".to_string());
    feeds.add_feed("ctrl:\u{1}\t\r\u{8}\u{c}".to_string(), "smile \u{1F600}".to_string());
    let text = feeds.persist();
    let loaded = parse_feeds(&text).unwrap();
    assert_eq!(loaded.len(), 2);
    assert_eq!(loaded[0].title, "he said \"hi\"\n");
    assert_eq!(loaded[0].url, "a\\b");
    assert_eq!(loaded[1].title, "ctrl:\u{1}\t\r\u{8}\u{c}");
    assert_eq!(loaded[1].url, "smile \u{1F600}");
}

#[test]
fn persisted_form_is_json_that_other_readers_accept() {
    let mut feeds: Vec<Feed> = Vec::new();
    feeds.add_feed("quote \" and \u{1} ctrl".to_string(), "http://x?a=1&b=2".to_string());
    let text = feeds.persist();
    let value: serde_json::Value = serde_json::from_str(&text).unwrap();
    assert_eq!(value[0]["title"].as_str(), Some("quote \" and \u{1} ctrl"));
    assert_eq!(value[0]["url"].as_str(), Some("http://x?a=1&b=2"));
}

#[test]
fn parser_accepts_whitespace_and_either_member_order() {
    let text = " [ { \"url\" : \"u\" , \"title\" : \"t\" } ] ";
    let loaded = parse_feeds(text).unwrap();
    assert_eq!(loaded.len(), 1);
    assert_eq!(loaded[0].title, "t");
    assert_eq!(loaded[0].url, "u");
}

#[test]
fn parser_resolves_unicode_escapes() {
    let text = "[{\"title\":\"\\u0041\\u00e9\",\"url\":\"\\ud83d\\ude00\"}]";
    let loaded = parse_feeds(text).unwrap();
    assert_eq!(loaded[0].title, "A\u{e9}");
    assert_eq!(loaded[0].url, "\u{1F600}");
}

#[test]
fn parser_reads_the_empty_array() {
    assert!(parse_feeds("[]").unwrap().is_empty());
    assert!(parse_feeds("  [ ]  ").unwrap().is_empty());
}

#[test]
fn parser_rejects_what_is_not_the_store_form() {
    assert_eq!(parse_feeds(""), Err(FeedError::Serialization));
    assert_eq!(parse_feeds("not json"), Err(FeedError::Serialization));
    assert_eq!(parse_feeds("[{}]"), Err(FeedError::Serialization));
    assert_eq!(parse_feeds("[{\"title\":\"a\"}]"), Err(FeedError::Serialization));
    assert_eq!(parse_feeds("[] trailing"), Err(FeedError::Serialization));
    assert_eq!(
        parse_feeds("[{\"title\":\"a\",\"url\":\"b\"},]"),
        Err(FeedError::Serialization)
    );
    assert_eq!(
        parse_feeds("[{\"title\":\"a\",\"url\":\"b\"}}]"),
        Err(FeedError::Serialization)
    );
}

#[test]
fn parser_rejects_lone_surrogate_escapes() {
    assert!(parse_feeds("[{\"title\":\"\\ud800\",\"url\":\"u\"}]").is_err());
    assert!(parse_feeds("[{\"title\":\"\\udc00\",\"url\":\"u\"}]").is_err());
}
