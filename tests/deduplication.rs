use trendarc::news_deduplication_service::{deduplicate_by, DedupKey};
use trendarc::{NewsDeduplicationService, NewsItem, Timestamp};

fn create_test_news_item(id: &str, url: &str, title: &str) -> NewsItem {
    NewsItem::new(
        id.to_string(),
        title.to_string(),
        url.to_string(),
        "test_source".to_string(),
        "test_author".to_string(),
        Timestamp::new(1_700_000_000, 0),
    )
}

#[test]
fn test_deduplicate_by_url_removes_duplicates() {
    let news = vec![
        create_test_news_item("1", "http://example.com/1", "Title 1"),
        create_test_news_item("2", "http://example.com/1", "Title 2"),
        create_test_news_item("3", "http://example.com/2", "Title 3"),
    ];

    let result = NewsDeduplicationService::deduplicate_by_url(news);

    assert_eq!(result.len(), 2);
    assert_eq!(result[0].url, "http://example.com/1");
    assert_eq!(result[1].url, "http://example.com/2");
}

#[test]
fn test_deduplicate_by_url_keeps_first_occurrence() {
    let news = vec![
        create_test_news_item("1", "http://example.com/1", "Title 1"),
        create_test_news_item("2", "http://example.com/1", "Title 2"),
    ];

    let result = NewsDeduplicationService::deduplicate_by_url(news);

    assert_eq!(result.len(), 1);
    assert_eq!(result[0].title, "Title 1");
}

#[test]
fn test_deduplicate_by_title_removes_duplicates() {
    let news = vec![
        create_test_news_item("1", "http://example.com/1", "Same Title"),
        create_test_news_item("2", "http://example.com/2", "Same Title"),
        create_test_news_item("3", "http://example.com/3", "Different Title"),
    ];

    let result = NewsDeduplicationService::deduplicate_by_title(news);

    assert_eq!(result.len(), 2);
    assert_eq!(result[0].title, "Same Title");
    assert_eq!(result[1].title, "Different Title");
}

#[test]
fn test_deduplicate_by_url_and_title() {
    let news = vec![
        create_test_news_item("1", "http://example.com/1", "Title A"),
        create_test_news_item("2", "http://example.com/1", "Title A"),
        create_test_news_item("3", "http://example.com/1", "Title B"),
        create_test_news_item("4", "http://example.com/2", "Title A"),
        create_test_news_item("5", "http://example.com/2", "Title B"),
    ];

    let result = NewsDeduplicationService::deduplicate_by_url_and_title(news);
    assert_eq!(result.len(), 4);
    assert_eq!(result[0].title, "Title A");
    assert_eq!(result[1].title, "Title B");
    assert_eq!(result[2].title, "Title A");
    assert_eq!(result[3].title, "Title B");
}

#[test]
fn test_deduplicate_empty_vector() {
    let news: Vec<NewsItem> = vec![];
    let result = NewsDeduplicationService::deduplicate_by_url(news);
    assert!(result.is_empty());
}

#[test]
fn test_deduplicate_single_item() {
    let news = vec![create_test_news_item("1", "http://example.com/1", "Title 1")];
    let result = NewsDeduplicationService::deduplicate_by_url(news);
    assert_eq!(result.len(), 1);
}

#[test]
fn dedup_by_url_is_exact_string_equality() {
    let news = vec![
        create_test_news_item("1", "http://example.com/a", "A"),
        create_test_news_item("2", "http://example.com/a/", "B"),
        create_test_news_item("3", "HTTP://EXAMPLE.COM/a", "C"),
        create_test_news_item("4", "http://example.com/a?x=1", "D"),
        create_test_news_item("5", "http://example.com/a", "E"),
    ];
    let result = NewsDeduplicationService::deduplicate_by_url(news);
    let titles: Vec<&str> = result.iter().map(|n| n.title.as_str()).collect();
    assert_eq!(titles, vec!["A", "B", "C", "D"]);
}

#[test]
fn dedup_keeps_first_even_when_later_is_newer() {
    let mut newer = create_test_news_item("2", "u", "later");
    newer.published_at = Timestamp::new(1_800_000_000, 0);
    let news = vec![create_test_news_item("1", "u", "first"), newer];
    let result = NewsDeduplicationService::deduplicate_by_url(news);
    assert_eq!(result.len(), 1);
    assert_eq!(result[0].title, "first");
    assert_eq!(result[0].id, "1");
}

#[test]
fn dedup_output_has_unique_urls_and_is_shorter() {
    let news = vec![
        create_test_news_item("1", "a", "1"),
        create_test_news_item("2", "b", "2"),
        create_test_news_item("3", "a", "3"),
        create_test_news_item("4", "", "4"),
        create_test_news_item("5", "", "5"),
        create_test_news_item("6", "b", "6"),
    ];
    let n = news.len();
    let result = NewsDeduplicationService::deduplicate_by_url(news);
    assert!(result.len() <= n);
    for i in 0..result.len() {
        for j in (i + 1)..result.len() {
            assert_ne!(result[i].url, result[j].url);
        }
    }
    let ids: Vec<&str> = result.iter().map(|n| n.id.as_str()).collect();
    assert_eq!(ids, vec!["1", "2", "4"]);
}

#[test]
fn dedup_twice_equals_dedup_once() {
    let news = vec![
        create_test_news_item("1", "a", "x"),
        create_test_news_item("2", "a", "y"),
        create_test_news_item("3", "b", "x"),
    ];
    let once = deduplicate_by(news, DedupKey::Url);
    let twice = deduplicate_by(once.clone(), DedupKey::Url);
    let ids_once: Vec<&str> = once.iter().map(|n| n.id.as_str()).collect();
    let ids_twice: Vec<&str> = twice.iter().map(|n| n.id.as_str()).collect();
    assert_eq!(ids_once, ids_twice);
    assert_eq!(ids_once, vec!["1", "3"]);
}
