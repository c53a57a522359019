use chrono::{DateTime, Utc};
use trendarc::{NewsItem, Timestamp};

fn ts(dt: DateTime<Utc>) -> Timestamp {
    Timestamp::new(dt.timestamp(), dt.timestamp_subsec_nanos())
}

#[test]
fn test_news_item_creation() {
    let published_at = ts(Utc::now());
    let news_item = NewsItem::new(
        "test-id".to_string(),
        "Test Title".to_string(),
        "https://example.com/test".to_string(),
        "test-source".to_string(),
        "test-author".to_string(),
        published_at,
    );

    assert_eq!(news_item.id, "test-id");
    assert_eq!(news_item.title, "Test Title");
    assert_eq!(news_item.url, "https://example.com/test");
    assert_eq!(news_item.source, "test-source");
    assert_eq!(news_item.author, "test-author");
    assert_eq!(news_item.published_at, published_at);
}

#[test]
fn test_news_item_with_empty_fields() {
    let news_item = NewsItem::new(
        String::new(),
        String::new(),
        String::new(),
        String::new(),
        String::new(),
        ts(Utc::now()),
    );

    assert!(news_item.id.is_empty());
    assert!(news_item.title.is_empty());
    assert!(news_item.url.is_empty());
    assert!(news_item.source.is_empty());
    assert!(news_item.author.is_empty());
}

#[test]
fn test_news_item_clone() {
    let original = NewsItem::new(
        "id".to_string(),
        "Title".to_string(),
        "url".to_string(),
        "source".to_string(),
        "author".to_string(),
        ts(Utc::now()),
    );

    let cloned = original.clone();

    assert_eq!(original.id, cloned.id);
    assert_eq!(original.title, cloned.title);
    assert_eq!(original.url, cloned.url);
    assert_eq!(original.source, cloned.source);
    assert_eq!(original.author, cloned.author);
    assert_eq!(original.published_at, cloned.published_at);
}

#[test]
fn test_news_item_debug_formatting() {
    let news_item = NewsItem::new(
        "test-id".to_string(),
        "Test Title".to_string(),
        "https://example.com/test".to_string(),
        "test-source".to_string(),
        "test-author".to_string(),
        ts(Utc::now()),
    );

    let debug_str = format!("{:?}", news_item);

    assert!(debug_str.contains("NewsItem"));
    assert!(debug_str.contains("test-id"));
    assert!(debug_str.contains("Test Title"));
}

#[test]
fn test_news_item_with_unicode() {
    let news_item = NewsItem::new(
        "æµ‹è¯•ID".to_string(),
        "æµ‹è¯•æ ‡é¢˜ ğŸš€".to_string(),
        "https://ä¾‹å­.com/æµ‹è¯•".to_string(),
        "æ¥æº ğŸ˜Š".to_string(),
        "ä½œè€… ğŸ‘¨â€ğŸ’»".to_string(),
        ts(Utc::now()),
    );

    assert_eq!(news_item.id, "æµ‹è¯•ID");
    assert_eq!(news_item.title, "æµ‹è¯•æ ‡é¢˜ ğŸš€");
    assert_eq!(news_item.source, "æ¥æº ğŸ˜Š");
    assert_eq!(news_item.author, "ä½œè€… ğŸ‘¨â€ğŸ’»");
}

#[test]
fn test_news_item_with_long_url() {
    let long_url =
        "https://example.com/very/long/path/to/article/with/many/segments/1234567890".to_string();
    let news_item = NewsItem::new(
        "id".to_string(),
        "Title".to_string(),
        long_url.clone(),
        "source".to_string(),
        "author".to_string(),
        ts(Utc::now()),
    );

    assert_eq!(news_item.url, long_url);
}

#[test]
fn test_news_item_with_special_characters_in_title() {
    let special_title = "Title with <script>alert('xss')</script> & special chars: @#$%".to_string();
    let news_item = NewsItem::new(
        "id".to_string(),
        special_title.clone(),
        "url".to_string(),
        "source".to_string(),
        "author".to_string(),
        ts(Utc::now()),
    );

    assert_eq!(news_item.title, special_title);
}

#[test]
fn timestamp_order_uses_seconds_then_nanoseconds() {
    let a = Timestamp::new(10, 5);
    let b = Timestamp::new(10, 6);
    let c = Timestamp::new(11, 0);
    let before_epoch = Timestamp::new(-1, 999_999_999);
    assert!(a.is_earlier_than(&b));
    assert!(!b.is_earlier_than(&a));
    assert!(b.is_earlier_than(&c));
    assert!(!a.is_earlier_than(&a));
    assert!(before_epoch.is_earlier_than(&Timestamp::new(0, 0)));
}
