use trendarc::hacker_news::{convert_to_domain, first_ids, linked_items};
use trendarc::{HackerNewsItem, Timestamp};

fn raw(id: u32, url: Option<&str>, time: u64) -> HackerNewsItem {
    HackerNewsItem {
        id,
        title: format!("Story {}", id),
        url: url.map(|u| u.to_string()),
        by: "pg".to_string(),
        score: 12,
        time,
    }
}

#[test]
fn converts_fields_and_time() {
    let item = convert_to_domain(raw(8863, Some("http://example.com/x"), 1_175_714_200));
    assert_eq!(item.id, "8863");
    assert_eq!(item.title, "Story 8863");
    assert_eq!(item.url, "http://example.com/x");
    assert_eq!(item.source, "hackernews");
    assert_eq!(item.author, "pg");
    assert_eq!(item.published_at, Timestamp::new(1_175_714_200, 0));
}

#[test]
fn converts_zero_id_and_missing_url() {
    let item = convert_to_domain(raw(0, None, 0));
    assert_eq!(item.id, "0");
    assert_eq!(item.url, "");
    assert_eq!(item.published_at, Timestamp::new(0, 0));
    let big = convert_to_domain(raw(u32::MAX, None, 5));
    assert_eq!(big.id, "4294967295");
}

#[test]
fn out_of_range_time_falls_back_to_now() {
    let item = convert_to_domain(raw(1, Some("u"), u64::MAX));
    assert!(item.published_at.nanos < 1_000_000_000);
    assert!(item.published_at.secs > 1_600_000_000);
}

#[test]
fn keeps_only_linked_items_in_order() {
    let raws = vec![raw(1, Some("a"), 10), raw(2, None, 20), raw(3, Some("c"), 30)];
    let items = linked_items(raws);
    let ids: Vec<&str> = items.iter().map(|n| n.id.as_str()).collect();
    assert_eq!(ids, vec!["1", "3"]);
}

#[test]
fn takes_at_most_limit_ids() {
    let ids = vec![5, 4, 3, 2, 1];
    assert_eq!(first_ids(&ids, 3), vec![5, 4, 3]);
    assert_eq!(first_ids(&ids, 10), ids);
    assert!(first_ids(&ids, 0).is_empty());
}
