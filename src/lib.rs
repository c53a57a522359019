//! Aggregation of news items from several sources: deduplication by key,
//! stable ordering, and the pipelines that combine fetched batches.

pub mod hacker_news;
pub mod news_deduplication_service;
pub mod news_item;
pub mod news_sorting_service;
pub mod pipeline;
pub mod text_order;
pub mod timestamp;

pub use hacker_news::HackerNewsItem;
pub use news_deduplication_service::NewsDeduplicationService;
pub use news_item::NewsItem;
pub use news_sorting_service::NewsSortingService;
pub use timestamp::Timestamp;
