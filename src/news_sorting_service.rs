use crate::news_item::NewsItem;
use crate::text_order::{
    lemma_bytes_transitive, lemma_bytes_trichotomy, text_bytes, text_less,
    text_precedes,
};
use vstd::prelude::*;

verus! {

/// The orderings offered for news items.
#[derive(Clone, Copy, Debug, PartialEq, Eq, Structural)]
pub enum SortKey {
    /// Latest publication first.
    NewestFirst,
    /// Earliest publication first.
    OldestFirst,
    /// Title, lexicographically.
    Title,
    /// Source name, lexicographically.
    Source,
    /// Author name, lexicographically.
    Author,
}

/// Under `key`, `a` must come strictly before `b`.
pub open spec fn goes_before(key: SortKey, a: NewsItem, b: NewsItem) -> bool {
    match key {
        SortKey::NewestFirst => b.published_at.earlier_than(a.published_at),
        SortKey::OldestFirst => a.published_at.earlier_than(b.published_at),
        SortKey::Title => text_less(a.title@, b.title@),
        SortKey::Source => text_less(a.source@, b.source@),
        SortKey::Author => text_less(a.author@, b.author@),
    }
}

/// Under `key`, `a` and `b` have equal comparison keys.
pub open spec fn tied(key: SortKey, a: NewsItem, b: NewsItem) -> bool {
    match key {
        SortKey::NewestFirst | SortKey::OldestFirst => a.published_at == b.published_at,
        SortKey::Title => text_bytes(a.title@) == text_bytes(b.title@),
        SortKey::Source => text_bytes(a.source@) == text_bytes(b.source@),
        SortKey::Author => text_bytes(a.author@) == text_bytes(b.author@),
    }
}

/// No item of `s` goes before an item that precedes it.
pub open spec fn in_order(key: SortKey, s: Seq<NewsItem>) -> bool {
    forall|i: int, j: int| 0 <= i < j < s.len() ==> !goes_before(key, #[trigger] s[j], #[trigger] s[i])
}

/// The items of `s` whose key equals that of `y`, in the order of `s`.
pub open spec fn ties_of(key: SortKey, s: Seq<NewsItem>, y: NewsItem) -> Seq<NewsItem>
    decreases s.len(),
{
    if s.len() == 0 {
        Seq::empty()
    } else {
        let t = ties_of(key, s.drop_last(), y);
        if tied(key, s.last(), y) {
            t.push(s.last())
        } else {
            t
        }
    }
}

/// `r` is `s` stably sorted by `key`: `r` is in order, and for every key the
/// items that carry it appear in `r` exactly as they appear in `s`. This makes
/// `r` a rearrangement of `s`, and determines it.
pub open spec fn is_stable_sort_of(key: SortKey, s: Seq<NewsItem>, r: Seq<NewsItem>) -> bool {
    &&& in_order(key, r)
    &&& forall|y: NewsItem| #[trigger] ties_of(key, r, y) == ties_of(key, s, y)
}

/// Exactly one of "before", "after", "tied" holds between two items.
pub proof fn lemma_order_total(key: SortKey, a: NewsItem, b: NewsItem)
    ensures
        goes_before(key, a, b) || goes_before(key, b, a) || tied(key, a, b),
        !(goes_before(key, a, b) && goes_before(key, b, a)),
        !(goes_before(key, a, b) && tied(key, a, b)),
{
    match key {
        SortKey::Title => lemma_bytes_trichotomy(text_bytes(a.title@), text_bytes(b.title@)),
        SortKey::Source => lemma_bytes_trichotomy(text_bytes(a.source@), text_bytes(b.source@)),
        SortKey::Author => lemma_bytes_trichotomy(text_bytes(a.author@), text_bytes(b.author@)),
        _ => {},
    }
}

pub proof fn lemma_before_transitive(key: SortKey, a: NewsItem, b: NewsItem, c: NewsItem)
    requires
        goes_before(key, a, b),
        goes_before(key, b, c),
    ensures
        goes_before(key, a, c),
{
    match key {
        SortKey::Title => lemma_bytes_transitive(
            text_bytes(a.title@),
            text_bytes(b.title@),
            text_bytes(c.title@),
        ),
        SortKey::Source => lemma_bytes_transitive(
            text_bytes(a.source@),
            text_bytes(b.source@),
            text_bytes(c.source@),
        ),
        SortKey::Author => lemma_bytes_transitive(
            text_bytes(a.author@),
            text_bytes(b.author@),
            text_bytes(c.author@),
        ),
        _ => {},
    }
}

/// "Not after" is transitive.
proof fn lemma_not_after_transitive(key: SortKey, a: NewsItem, b: NewsItem, c: NewsItem)
    requires
        !goes_before(key, b, a),
        !goes_before(key, c, b),
    ensures
        !goes_before(key, c, a),
{
    lemma_order_total(key, a, b);
    lemma_order_total(key, b, c);
    lemma_order_total(key, a, c);
    if goes_before(key, c, a) {
        if goes_before(key, a, b) {
            lemma_before_transitive(key, c, a, b);
        }
    }
}

proof fn lemma_ties_concat(key: SortKey, a: Seq<NewsItem>, b: Seq<NewsItem>, y: NewsItem)
    ensures
        ties_of(key, a + b, y) == ties_of(key, a, y) + ties_of(key, b, y),
    decreases b.len(),
{
    if b.len() == 0 {
        assert(a + b == a);
        assert(ties_of(key, a, y) + ties_of(key, b, y) == ties_of(key, a, y));
    } else {
        lemma_ties_concat(key, a, b.drop_last(), y);
        assert((a + b).drop_last() == a + b.drop_last());
        assert((a + b).last() == b.last());
        if tied(key, b.last(), y) {
            assert(ties_of(key, a, y) + ties_of(key, b.drop_last(), y).push(b.last()) == (
            ties_of(key, a, y) + ties_of(key, b.drop_last(), y)).push(b.last()));
        }
    }
}

proof fn lemma_ties_none(key: SortKey, s: Seq<NewsItem>, y: NewsItem)
    requires
        forall|i: int| 0 <= i < s.len() ==> !tied(key, #[trigger] s[i], y),
    ensures
        ties_of(key, s, y) == Seq::<NewsItem>::empty(),
    decreases s.len(),
{
    if s.len() > 0 {
        lemma_ties_none(key, s.drop_last(), y);
    }
}

proof fn lemma_ties_single(key: SortKey, x: NewsItem, y: NewsItem)
    ensures
        ties_of(key, seq![x], y) == (if tied(key, x, y) {
            seq![x]
        } else {
            Seq::<NewsItem>::empty()
        }),
{
    let e = seq![x].drop_last();
    assert(e == Seq::<NewsItem>::empty());
    assert(ties_of(key, e, y) == Seq::<NewsItem>::empty());
    assert(seq![x].last() == x);
    assert(Seq::<NewsItem>::empty().push(x) == seq![x]);
}

/// Inserting `x` after every item it does not go before, and before the
/// rest, extends a stable sort of `s` to one of `s.push(x)`.
proof fn lemma_insert_sorted(
    key: SortKey,
    s: Seq<NewsItem>,
    r: Seq<NewsItem>,
    x: NewsItem,
    p: int,
)
    requires
        is_stable_sort_of(key, s, r),
        0 <= p <= r.len(),
        p == 0 || !goes_before(key, x, r[p - 1]),
        forall|k: int| p <= k < r.len() ==> goes_before(key, x, #[trigger] r[k]),
    ensures
        is_stable_sort_of(key, s.push(x), r.insert(p, x)),
{
    let r2 = r.insert(p, x);
    let head = r.take(p);
    let tail = r.skip(p);
    assert(r2 == head + seq![x] + tail);
    assert(r == head + tail);
    assert forall|i: int, j: int| 0 <= i < j < r2.len() implies !goes_before(
        key,
        #[trigger] r2[j],
        #[trigger] r2[i],
    ) by {
        if j < p {
            assert(r2[i] == r[i] && r2[j] == r[j]);
        } else if j == p {
            assert(r2[i] == r[i]);
            if i < p - 1 {
                assert(!goes_before(key, r[p - 1], r[i]));
                lemma_not_after_transitive(key, r[i], r[p - 1], x);
            }
        } else if i == p {
            assert(r2[j] == r[j - 1]);
            lemma_order_total(key, x, r[j - 1]);
        } else if i < p {
            assert(r2[i] == r[i] && r2[j] == r[j - 1]);
        } else {
            assert(r2[i] == r[i - 1] && r2[j] == r[j - 1]);
        }
    }
    assert forall|y: NewsItem| #[trigger]
        ties_of(key, r2, y) == ties_of(key, s.push(x), y) by {
        lemma_ties_concat(key, head + seq![x], tail, y);
        lemma_ties_concat(key, head, seq![x], y);
        lemma_ties_concat(key, head, tail, y);
        lemma_ties_single(key, x, y);
        assert(s.push(x).drop_last() == s);
        assert(ties_of(key, r, y) == ties_of(key, s, y));
        if tied(key, x, y) {
            assert forall|i: int| 0 <= i < tail.len() implies !tied(key, #[trigger] tail[i], y) by {
                assert(tail[i] == r[p + i]);
                lemma_order_total(key, x, tail[i]);
            }
            lemma_ties_none(key, tail, y);
            assert(ties_of(key, head, y) + Seq::<NewsItem>::empty() == ties_of(key, head, y));
        } else {
            assert(ties_of(key, head, y) + Seq::<NewsItem>::empty() == ties_of(key, head, y));
        }
    }
}

proof fn lemma_ties_split_first(key: SortKey, s: Seq<NewsItem>, y: NewsItem)
    requires
        s.len() > 0,
    ensures
        ties_of(key, s, y) == ties_of(key, seq![s[0]], y) + ties_of(key, s.skip(1), y),
{
    assert(s == seq![s[0]] + s.skip(1));
    lemma_ties_concat(key, seq![s[0]], s.skip(1), y);
}

proof fn lemma_ties_members(key: SortKey, s: Seq<NewsItem>, y: NewsItem)
    ensures
        forall|k: int|
            0 <= k < ties_of(key, s, y).len() ==> exists|j: int|
                0 <= j < s.len() && s[j] == #[trigger] ties_of(key, s, y)[k],
    decreases s.len(),
{
    if s.len() > 0 {
        let prev = s.drop_last();
        lemma_ties_members(key, prev, y);
        assert forall|k: int| 0 <= k < ties_of(key, s, y).len() implies exists|j: int|
            0 <= j < s.len() && s[j] == #[trigger] ties_of(key, s, y)[k] by {
            if k < ties_of(key, prev, y).len() {
                let j = choose|j: int| 0 <= j < prev.len() && prev[j] == ties_of(key, prev, y)[k];
                assert(s[j] == prev[j]);
            } else {
                assert(s[s.len() - 1] == ties_of(key, s, y)[k]);
            }
        }
    }
}

/// Two sequences in order under `key` that agree, key by key, on the items
/// they hold and their order are equal.
proof fn lemma_in_order_unique(key: SortKey, a: Seq<NewsItem>, b: Seq<NewsItem>)
    requires
        in_order(key, a),
        in_order(key, b),
        forall|y: NewsItem| #[trigger] ties_of(key, a, y) == ties_of(key, b, y),
    ensures
        a == b,
    decreases a.len() + b.len(),
{
    if a.len() == 0 || b.len() == 0 {
        if b.len() > 0 {
            lemma_ties_split_first(key, b, b[0]);
            lemma_ties_single(key, b[0], b[0]);
            assert(ties_of(key, a, b[0]).len() == 0);
        }
        if a.len() > 0 {
            lemma_ties_split_first(key, a, a[0]);
            lemma_ties_single(key, a[0], a[0]);
            assert(ties_of(key, b, a[0]).len() == 0);
        }
        assert(a == b);
    } else {
        let a0 = a[0];
        let b0 = b[0];
        lemma_ties_split_first(key, a, a0);
        lemma_ties_split_first(key, b, a0);
        lemma_ties_split_first(key, a, b0);
        lemma_ties_split_first(key, b, b0);
        lemma_ties_single(key, a0, a0);
        lemma_ties_single(key, b0, b0);
        lemma_ties_single(key, a0, b0);
        lemma_ties_single(key, b0, a0);
        lemma_ties_members(key, b, a0);
        lemma_ties_members(key, a, b0);
        assert(ties_of(key, b, a0)[0] == a0);
        let j = choose|j: int| 0 <= j < b.len() && b[j] == #[trigger] ties_of(key, b, a0)[0];
        assert(ties_of(key, a, b0)[0] == b0);
        let k = choose|k: int| 0 <= k < a.len() && a[k] == #[trigger] ties_of(key, a, b0)[0];
        lemma_order_total(key, a0, b0);
        lemma_order_total(key, a0, a0);
        lemma_order_total(key, b0, b0);
        if j > 0 {
            assert(!goes_before(key, b[j], b[0]));
        }
        if k > 0 {
            assert(!goes_before(key, a[k], a[0]));
        }
        assert(tied(key, a0, b0));
        assert(a0 == b0);
        assert forall|y: NewsItem| #[trigger]
            ties_of(key, a.skip(1), y) == ties_of(key, b.skip(1), y) by {
            lemma_ties_split_first(key, a, y);
            lemma_ties_split_first(key, b, y);
            let h = ties_of(key, seq![a0], y);
            assert(ties_of(key, a.skip(1), y) == ties_of(key, a, y).skip(h.len() as int));
            assert(ties_of(key, b.skip(1), y) == ties_of(key, b, y).skip(h.len() as int));
        }
        lemma_in_order_unique(key, a.skip(1), b.skip(1));
        assert(a == seq![a0] + a.skip(1));
        assert(b == seq![b0] + b.skip(1));
    }
}

/// A stable sort has one result: any two stable sorts of the same input
/// are equal.
pub proof fn lemma_stable_sort_unique(
    key: SortKey,
    s: Seq<NewsItem>,
    r1: Seq<NewsItem>,
    r2: Seq<NewsItem>,
)
    requires
        is_stable_sort_of(key, s, r1),
        is_stable_sort_of(key, s, r2),
    ensures
        r1 == r2,
{
    assert forall|y: NewsItem| #[trigger] ties_of(key, r1, y) == ties_of(key, r2, y) by {
        assert(ties_of(key, r1, y) == ties_of(key, s, y));
        assert(ties_of(key, r2, y) == ties_of(key, s, y));
    }
    lemma_in_order_unique(key, r1, r2);
}

/// Sorting is idempotent: stably sorting the result of a stable sort gives
/// that result back.
pub proof fn lemma_sort_idempotent(
    key: SortKey,
    x: Seq<NewsItem>,
    once: Seq<NewsItem>,
    twice: Seq<NewsItem>,
)
    requires
        is_stable_sort_of(key, x, once),
        is_stable_sort_of(key, once, twice),
    ensures
        twice == once,
{
    assert(is_stable_sort_of(key, once, once));
    lemma_stable_sort_unique(key, once, twice, once);
}

fn item_goes_before(key: SortKey, a: &NewsItem, b: &NewsItem) -> (r: bool)
    ensures
        r == goes_before(key, *a, *b),
{
    match key {
        SortKey::NewestFirst => b.published_at.is_earlier_than(&a.published_at),
        SortKey::OldestFirst => a.published_at.is_earlier_than(&b.published_at),
        SortKey::Title => text_precedes(&a.title, &b.title),
        SortKey::Source => text_precedes(&a.source, &b.source),
        SortKey::Author => text_precedes(&a.author, &b.author),
    }
}

/// Stable insertion sort by `key`. An input already in order comes back
/// unchanged.
pub fn stable_sort(news: Vec<NewsItem>, key: SortKey) -> (r: Vec<NewsItem>)
    ensures
        is_stable_sort_of(key, news@, r@),
        in_order(key, news@) ==> r@ == news@,
{
    let ghost input = news@;
    let mut sorted: Vec<NewsItem> = Vec::new();
    proof {
        assert(input.take(0) == Seq::<NewsItem>::empty());
    }
    for item in it: news.into_iter()
        invariant
            it.seq() == input,
            is_stable_sort_of(key, input.take(it.index() as int), sorted@),
            in_order(key, input) ==> sorted@ == input.take(it.index() as int),
    {
        let ghost i = it.index() as int;
        let mut p: usize = sorted.len();
        while p > 0 && item_goes_before(key, &item, &sorted[p - 1])
            invariant
                p <= sorted.len(),
                forall|k: int| p <= k < sorted.len() ==> goes_before(key, item, #[trigger] sorted@[k]),
            decreases p,
        {
            p = p - 1;
        }
        proof {
            assert(input[i] == item);
            assert(input.take(i + 1) == input.take(i).push(item));
            lemma_insert_sorted(key, input.take(i), sorted@, item, p as int);
            if in_order(key, input) && p < sorted.len() {
                assert(sorted@[sorted.len() - 1] == input[i - 1]);
                assert(goes_before(key, input[i], input[i - 1]));
            }
        }
        sorted.insert(p, item);
        proof {
            if in_order(key, input) {
                assert(sorted@ == input.take(i).push(item));
            }
        }
    }
    proof {
        assert(input.take(input.len() as int) == input);
    }
    sorted
}

/// Orderings of news items.
pub struct NewsSortingService;

impl NewsSortingService {
    /// Newest first; items published at the same instant keep their order.
    pub fn sort_by_published_at_desc(news: Vec<NewsItem>) -> (r: Vec<NewsItem>)
        ensures
            is_stable_sort_of(SortKey::NewestFirst, news@, r@),
    {
        stable_sort(news, SortKey::NewestFirst)
    }

    /// Oldest first; items published at the same instant keep their order.
    pub fn sort_by_published_at_asc(news: Vec<NewsItem>) -> (r: Vec<NewsItem>)
        ensures
            is_stable_sort_of(SortKey::OldestFirst, news@, r@),
    {
        stable_sort(news, SortKey::OldestFirst)
    }

    /// By title, lexicographically; equal titles keep their order.
    pub fn sort_by_title(news: Vec<NewsItem>) -> (r: Vec<NewsItem>)
        ensures
            is_stable_sort_of(SortKey::Title, news@, r@),
    {
        stable_sort(news, SortKey::Title)
    }

    /// By source name, lexicographically; equal names keep their order.
    pub fn sort_by_source(news: Vec<NewsItem>) -> (r: Vec<NewsItem>)
        ensures
            is_stable_sort_of(SortKey::Source, news@, r@),
    {
        stable_sort(news, SortKey::Source)
    }

    /// By author name, lexicographically; equal names keep their order.
    pub fn sort_by_author(news: Vec<NewsItem>) -> (r: Vec<NewsItem>)
        ensures
            is_stable_sort_of(SortKey::Author, news@, r@),
    {
        stable_sort(news, SortKey::Author)
    }
}

} // verus!
