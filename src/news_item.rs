use crate::timestamp::Timestamp;
use vstd::prelude::*;

verus! {

/// A news item gathered from some source. Every field is always present;
/// an empty string stands for an unknown value.
#[derive(Clone, Debug)]
pub struct NewsItem {
    /// Identifier given by the origin source.
    pub id: String,
    /// Headline.
    pub title: String,
    /// Link to the article; the deduplication key.
    pub url: String,
    /// Name of the source the item came from.
    pub source: String,
    /// Author as the source reports it.
    pub author: String,
    /// Publication instant, used for ordering.
    pub published_at: Timestamp,
}

impl NewsItem {
    pub fn new(
        id: String,
        title: String,
        url: String,
        source: String,
        author: String,
        published_at: Timestamp,
    ) -> (r: NewsItem)
        ensures
            r.id@ == id@,
            r.title@ == title@,
            r.url@ == url@,
            r.source@ == source@,
            r.author@ == author@,
            r.published_at == published_at,
    {
        NewsItem { id, title, url, source, author, published_at }
    }
}

} // verus!
