use crate::news_item::NewsItem;
use crate::timestamp::Timestamp;
use chrono::{TimeZone, Utc};
use vstd::prelude::*;

verus! {

/// Unix time of the last second of the year 9999.
pub const LAST_SECOND_OF_9999: i64 = 253402300799;

/// An item as the Hacker News API describes it.
#[derive(Clone, Debug)]
pub struct HackerNewsItem {
    pub id: u32,
    pub title: String,
    /// Absent for posts that link nowhere (asks, polls).
    pub url: Option<String>,
    pub by: String,
    pub score: i32,
    /// Unix time of the post, in seconds.
    pub time: u64,
}

/// The character of a decimal digit.
pub open spec fn digit_char(d: nat) -> char {
    if d == 0 { '0' }
    else if d == 1 { '1' }
    else if d == 2 { '2' }
    else if d == 3 { '3' }
    else if d == 4 { '4' }
    else if d == 5 { '5' }
    else if d == 6 { '6' }
    else if d == 7 { '7' }
    else if d == 8 { '8' }
    else { '9' }
}

/// `n` written in decimal, without sign or leading zeros.
pub open spec fn decimal(n: nat) -> Seq<char>
    decreases n,
{
    if n < 10 {
        seq![digit_char(n)]
    } else {
        decimal(n / 10).push(digit_char(n % 10))
    }
}

/// The link of an item, or the empty string where it has none.
pub open spec fn link_of(raw: HackerNewsItem) -> Seq<char> {
    match raw.url {
        Some(u) => u@,
        None => Seq::empty(),
    }
}

/// `item` is `raw` taken into the library's form. The publication time is
/// the post's Unix time where that is a representable instant; otherwise it
/// is the time of conversion, of which only the nanosecond range is known.
pub open spec fn is_conversion_of(raw: HackerNewsItem, item: NewsItem) -> bool {
    &&& item.id@ == decimal(raw.id as nat)
    &&& item.title@ == raw.title@
    &&& item.url@ == link_of(raw)
    &&& item.source@ == "hackernews"@
    &&& item.author@ == raw.by@
    &&& raw.time <= LAST_SECOND_OF_9999 ==> item.published_at == Timestamp {
        secs: raw.time as i64,
        nanos: 0,
    }
    &&& raw.time > LAST_SECOND_OF_9999 ==> item.published_at.nanos < 1_000_000_000
}

/// The items of `raws` that carry a link, in order.
pub open spec fn linked(raws: Seq<HackerNewsItem>) -> Seq<HackerNewsItem>
    decreases raws.len(),
{
    if raws.len() == 0 {
        Seq::empty()
    } else {
        let before = linked(raws.drop_last());
        if raws.last().url is Some {
            before.push(raws.last())
        } else {
            before
        }
    }
}

/// Relies on `u32`'s `to_string`, which writes the number in decimal with
/// no sign and no leading zeros.
#[verifier::external_body]
fn decimal_string(n: u32) -> (r: String)
    ensures
        r@ == decimal(n as nat),
{
    n.to_string()
}

/// Relies on chrono's `Utc.timestamp_opt(secs, 0)`: for an in-range number
/// of seconds a single instant whose Unix time is `secs` with no nanosecond
/// part, and none out of range. The range spans years far beyond 9999 in
/// both directions.
#[verifier::external_body]
fn utc_from_unix_seconds(secs: i64) -> (r: Option<Timestamp>)
    ensures
        r matches Some(t) ==> t.secs == secs && t.nanos == 0,
        0 <= secs <= LAST_SECOND_OF_9999 ==> r is Some,
{
    match Utc.timestamp_opt(secs, 0).single() {
        Some(d) => Some(Timestamp { secs: d.timestamp(), nanos: d.timestamp_subsec_nanos() }),
        None => None,
    }
}

/// Relies on chrono's `Utc::now`: the current instant from the system
/// clock, whose nanosecond part is below one second.
#[verifier::external_body]
fn utc_now() -> (r: Timestamp)
    ensures
        r.nanos < 1_000_000_000,
{
    let d = Utc::now();
    Timestamp { secs: d.timestamp(), nanos: d.timestamp_subsec_nanos() }
}

/// Takes an API item into the library's form, filed under "hackernews".
pub fn convert_to_domain(raw: HackerNewsItem) -> (r: NewsItem)
    ensures
        is_conversion_of(raw, r),
{
    let HackerNewsItem { id, title, url, by, score: _, time } = raw;
    let link = match url {
        Some(u) => u,
        None => String::new(),
    };
    let published = if time <= LAST_SECOND_OF_9999 as u64 {
        match utc_from_unix_seconds(time as i64) {
            Some(t) => t,
            None => utc_now(),
        }
    } else {
        utc_now()
    };
    NewsItem::new(decimal_string(id), title, link, "hackernews".to_owned(), by, published)
}

/// Keeps the items that carry a link and converts them, in order.
pub fn linked_items(raws: Vec<HackerNewsItem>) -> (r: Vec<NewsItem>)
    ensures
        r@.len() == linked(raws@).len(),
        forall|k: int| 0 <= k < r@.len() ==> is_conversion_of(linked(raws@)[k], #[trigger] r@[k]),
{
    let ghost input = raws@;
    let mut items: Vec<NewsItem> = Vec::new();
    proof {
        assert(input.take(0) == Seq::<HackerNewsItem>::empty());
    }
    for raw in it: raws.into_iter()
        invariant
            it.seq() == input,
            items@.len() == linked(input.take(it.index() as int)).len(),
            forall|k: int|
                0 <= k < items@.len() ==> is_conversion_of(
                    linked(input.take(it.index() as int))[k],
                    #[trigger] items@[k],
                ),
    {
        let ghost i = it.index() as int;
        proof {
            assert(input[i] == raw);
            assert(input.take(i + 1).drop_last() == input.take(i));
        }
        if raw.url.is_some() {
            let item = convert_to_domain(raw);
            items.push(item);
        }
    }
    proof {
        assert(input.take(input.len() as int) == input);
    }
    items
}

/// The first `limit` identifiers, or all of them where there are fewer.
pub fn first_ids(ids: &Vec<u32>, limit: usize) -> (r: Vec<u32>)
    ensures
        r@ == ids@.take(if limit < ids@.len() { limit as int } else { ids@.len() as int }),
{
    let n = if limit < ids.len() { limit } else { ids.len() };
    let mut r: Vec<u32> = Vec::new();
    let mut i: usize = 0;
    while i < n
        invariant
            n <= ids@.len(),
            i <= n,
            r@ == ids@.take(i as int),
        decreases n - i,
    {
        proof {
            assert(ids@.take(i + 1) == ids@.take(i as int).push(ids@[i as int]));
        }
        r.push(ids[i]);
        i = i + 1;
    }
    r
}

} // verus!
