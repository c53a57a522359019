use crate::news_item::NewsItem;
use vstd::prelude::*;

verus! {

/// The fields that decide whether two news items are duplicates.
#[derive(Clone, Copy, Debug, PartialEq, Eq, Structural)]
pub enum DedupKey {
    Url,
    Title,
    UrlAndTitle,
}

/// `a` and `b` are duplicates under `key`: the chosen fields are equal as
/// strings, with no normalisation.
pub open spec fn same_key(key: DedupKey, a: NewsItem, b: NewsItem) -> bool {
    match key {
        DedupKey::Url => a.url@ == b.url@,
        DedupKey::Title => a.title@ == b.title@,
        DedupKey::UrlAndTitle => a.url@ == b.url@ && a.title@ == b.title@,
    }
}

/// Some item of `s` has the same key as `x`.
pub open spec fn has_key(key: DedupKey, s: Seq<NewsItem>, x: NewsItem) -> bool {
    exists|k: int| 0 <= k < s.len() && same_key(key, #[trigger] s[k], x)
}

/// One pass over `s` in order that keeps an item exactly when no item kept
/// before it has the same key.
pub open spec fn first_occurrences(key: DedupKey, s: Seq<NewsItem>) -> Seq<NewsItem>
    decreases s.len(),
{
    if s.len() == 0 {
        Seq::empty()
    } else {
        let kept = first_occurrences(key, s.drop_last());
        if has_key(key, kept, s.last()) {
            kept
        } else {
            kept.push(s.last())
        }
    }
}

/// No two items of `s` have the same key.
pub open spec fn keys_unique(key: DedupKey, s: Seq<NewsItem>) -> bool {
    forall|i: int, j: int| 0 <= i < j < s.len() ==> !same_key(key, #[trigger] s[i], #[trigger] s[j])
}

/// `s[i]` is the first item of `s` with its key.
pub open spec fn is_first_of_key(key: DedupKey, s: Seq<NewsItem>, i: int) -> bool {
    &&& 0 <= i < s.len()
    &&& forall|j: int| 0 <= j < i ==> !same_key(key, #[trigger] s[j], s[i])
}

/// Deduplication keeps the set of keys.
proof fn lemma_same_keys(key: DedupKey, s: Seq<NewsItem>, x: NewsItem)
    ensures
        has_key(key, first_occurrences(key, s), x) == has_key(key, s, x),
    decreases s.len(),
{
    if s.len() > 0 {
        let prev = s.drop_last();
        let kept = first_occurrences(key, prev);
        lemma_same_keys(key, prev, x);
        lemma_same_keys(key, prev, s.last());
        if has_key(key, prev, x) {
            let k = choose|k: int| 0 <= k < prev.len() && same_key(key, #[trigger] prev[k], x);
            assert(s[k] == prev[k]);
        }
        if has_key(key, s, x) && !has_key(key, prev, x) {
            let k = choose|k: int| 0 <= k < s.len() && same_key(key, #[trigger] s[k], x);
            if k < prev.len() {
                assert(prev[k] == s[k]);
            } else {
                if has_key(key, kept, s.last()) {
                    let m = choose|m: int|
                        0 <= m < kept.len() && same_key(key, #[trigger] kept[m], s.last());
                    assert(same_key(key, kept[m], x));
                }
                assert(first_occurrences(key, s).last() == s.last());
            }
        }
        if has_key(key, first_occurrences(key, s), x) && !has_key(key, kept, x) {
            assert(first_occurrences(key, s) == kept.push(s.last()));
            assert(s[s.len() - 1] == s.last());
        }
        if has_key(key, kept, x) {
            let k = choose|k: int| 0 <= k < kept.len() && same_key(key, #[trigger] kept[k], x);
            assert(first_occurrences(key, s)[k] == kept[k]);
        }
    }
}

/// The result of deduplication is no longer than its input, and no two of
/// its items share a key.
pub proof fn lemma_dedup_unique_keys(key: DedupKey, s: Seq<NewsItem>)
    ensures
        first_occurrences(key, s).len() <= s.len(),
        keys_unique(key, first_occurrences(key, s)),
    decreases s.len(),
{
    if s.len() > 0 {
        lemma_dedup_unique_keys(key, s.drop_last());
        let kept = first_occurrences(key, s.drop_last());
        let d = first_occurrences(key, s);
        if !has_key(key, kept, s.last()) {
            assert forall|i: int, j: int| 0 <= i < j < d.len() implies !same_key(
                key,
                #[trigger] d[i],
                #[trigger] d[j],
            ) by {
                if j == kept.len() {
                    assert(d[i] == kept[i]);
                } else {
                    assert(d[i] == kept[i] && d[j] == kept[j]);
                }
            }
        }
    }
}

/// Deduplication keeps, for every key, the first item that carries it and
/// nothing else: each kept item is the first of its key in the input, and
/// each such first item is kept.
pub proof fn lemma_dedup_keeps_first(key: DedupKey, s: Seq<NewsItem>)
    ensures
        forall|k: int|
            0 <= k < first_occurrences(key, s).len() ==> exists|i: int|
                is_first_of_key(key, s, i) && s[i] == #[trigger] first_occurrences(key, s)[k],
        forall|i: int|
            #[trigger] is_first_of_key(key, s, i) ==> exists|k: int|
                0 <= k < first_occurrences(key, s).len() && first_occurrences(key, s)[k] == s[i],
    decreases s.len(),
{
    if s.len() > 0 {
        let prev = s.drop_last();
        let kept = first_occurrences(key, prev);
        let d = first_occurrences(key, s);
        let n = s.len() - 1;
        lemma_dedup_keeps_first(key, prev);
        lemma_same_keys(key, prev, s.last());
        assert forall|k: int| 0 <= k < d.len() implies exists|i: int|
            is_first_of_key(key, s, i) && s[i] == #[trigger] d[k] by {
            if k < kept.len() {
                assert(d[k] == kept[k]);
                let i = choose|i: int| is_first_of_key(key, prev, i) && prev[i] == kept[k];
                assert(s[i] == prev[i]);
                assert forall|j: int| 0 <= j < i implies !same_key(key, #[trigger] s[j], s[i]) by {
                    assert(s[j] == prev[j]);
                }
                assert(is_first_of_key(key, s, i));
            } else {
                assert(d[k] == s[n]);
                assert forall|j: int| 0 <= j < n implies !same_key(key, #[trigger] s[j], s[n]) by {
                    assert(s[j] == prev[j]);
                    if same_key(key, s[j], s[n]) {
                        assert(same_key(key, prev[j], s.last()));
                    }
                }
                assert(is_first_of_key(key, s, n));
            }
        }
        assert forall|i: int| #[trigger] is_first_of_key(key, s, i) implies exists|k: int|
            0 <= k < d.len() && d[k] == s[i] by {
            if i < n {
                assert forall|j: int| 0 <= j < i implies !same_key(key, #[trigger] prev[j], prev[i]) by {
                    assert(s[j] == prev[j]);
                }
                assert(is_first_of_key(key, prev, i));
                let k = choose|k: int| 0 <= k < kept.len() && kept[k] == prev[i];
                assert(d[k] == kept[k]);
            } else {
                if has_key(key, prev, s.last()) {
                    let j = choose|j: int| 0 <= j < prev.len() && same_key(key, #[trigger] prev[j], s.last());
                    assert(s[j] == prev[j]);
                    assert(!same_key(key, s[j], s[i]));
                }
                assert(d[kept.len() as int] == s[i]);
            }
        }
    }
}

/// An input whose keys are already unique comes through deduplication
/// unchanged.
proof fn lemma_dedup_unique_input(key: DedupKey, s: Seq<NewsItem>)
    requires
        keys_unique(key, s),
    ensures
        first_occurrences(key, s) == s,
    decreases s.len(),
{
    if s.len() > 0 {
        let prev = s.drop_last();
        assert(keys_unique(key, prev)) by {
            assert forall|i: int, j: int| 0 <= i < j < prev.len() implies !same_key(
                key,
                #[trigger] prev[i],
                #[trigger] prev[j],
            ) by {
                assert(prev[i] == s[i] && prev[j] == s[j]);
            }
        }
        lemma_dedup_unique_input(key, prev);
        if has_key(key, prev, s.last()) {
            let k = choose|k: int| 0 <= k < prev.len() && same_key(key, #[trigger] prev[k], s.last());
            assert(prev[k] == s[k]);
            assert(!same_key(key, s[k], s[s.len() - 1]));
        }
        assert(prev.push(s.last()) == s);
    }
}

/// Deduplication is idempotent.
pub proof fn lemma_dedup_idempotent(key: DedupKey, s: Seq<NewsItem>)
    ensures
        first_occurrences(key, first_occurrences(key, s)) == first_occurrences(key, s),
{
    lemma_dedup_unique_keys(key, s);
    lemma_dedup_unique_input(key, first_occurrences(key, s));
}

fn items_share_key(key: DedupKey, a: &NewsItem, b: &NewsItem) -> (r: bool)
    ensures
        r == same_key(key, *a, *b),
{
    match key {
        DedupKey::Url => a.url == b.url,
        DedupKey::Title => a.title == b.title,
        DedupKey::UrlAndTitle => a.url == b.url && a.title == b.title,
    }
}

/// Keeps the first item of each key, in input order.
pub fn deduplicate_by(news: Vec<NewsItem>, key: DedupKey) -> (r: Vec<NewsItem>)
    ensures
        r@ == first_occurrences(key, news@),
{
    let ghost input = news@;
    let mut kept: Vec<NewsItem> = Vec::new();
    proof {
        assert(input.take(0) == Seq::<NewsItem>::empty());
    }
    for item in it: news.into_iter()
        invariant
            it.seq() == input,
            kept@ == first_occurrences(key, input.take(it.index() as int)),
    {
        let ghost i = it.index() as int;
        let mut seen = false;
        let mut k: usize = 0;
        while k < kept.len()
            invariant
                k <= kept.len(),
                seen == has_key(key, kept@.take(k as int), item),
            decreases kept.len() - k,
        {
            let shared = items_share_key(key, &kept[k], &item);
            proof {
                let t = kept@.take(k as int);
                let t2 = kept@.take(k + 1);
                assert(t2 == t.push(kept@[k as int]));
                if shared {
                    assert(same_key(key, t2[k as int], item));
                }
                if has_key(key, t, item) {
                    let m = choose|m: int| 0 <= m < t.len() && same_key(key, #[trigger] t[m], item);
                    assert(t2[m] == t[m]);
                }
                if has_key(key, t2, item) {
                    let m = choose|m: int| 0 <= m < t2.len() && same_key(key, #[trigger] t2[m], item);
                    if m < k {
                        assert(t[m] == t2[m]);
                    }
                }
            }
            if shared {
                seen = true;
            }
            k = k + 1;
        }
        proof {
            assert(kept@.take(k as int) == kept@);
            assert(input[i] == item);
            assert(input.take(i + 1).drop_last() == input.take(i));
        }
        if !seen {
            kept.push(item);
        }
    }
    proof {
        assert(input.take(input.len() as int) == input);
    }
    kept
}

/// Deduplication of news items; the first item of each key wins.
pub struct NewsDeduplicationService;

impl NewsDeduplicationService {
    /// Keeps the first item of each URL.
    pub fn deduplicate_by_url(news: Vec<NewsItem>) -> (r: Vec<NewsItem>)
        ensures
            r@ == first_occurrences(DedupKey::Url, news@),
    {
        deduplicate_by(news, DedupKey::Url)
    }

    /// Keeps the first item of each title.
    pub fn deduplicate_by_title(news: Vec<NewsItem>) -> (r: Vec<NewsItem>)
        ensures
            r@ == first_occurrences(DedupKey::Title, news@),
    {
        deduplicate_by(news, DedupKey::Title)
    }

    /// Keeps the first item of each pair of URL and title.
    pub fn deduplicate_by_url_and_title(news: Vec<NewsItem>) -> (r: Vec<NewsItem>)
        ensures
            r@ == first_occurrences(DedupKey::UrlAndTitle, news@),
    {
        deduplicate_by(news, DedupKey::UrlAndTitle)
    }
}

} // verus!
