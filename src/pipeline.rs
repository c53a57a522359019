use crate::news_deduplication_service::{first_occurrences, DedupKey, NewsDeduplicationService};
use crate::news_item::NewsItem;
use crate::news_sorting_service::{is_stable_sort_of, NewsSortingService, SortKey};
use vstd::prelude::*;

verus! {

/// The items of every successful batch, batch after batch; a failed batch
/// adds nothing.
pub open spec fn successes<E>(results: Seq<Result<Vec<NewsItem>, E>>) -> Seq<NewsItem>
    decreases results.len(),
{
    if results.len() == 0 {
        Seq::empty()
    } else {
        let before = successes(results.drop_last());
        match results.last() {
            Ok(batch) => before + batch@,
            Err(_) => before,
        }
    }
}

/// `r` is what the pipeline makes of `items`: duplicates by URL dropped,
/// first occurrence kept, then stably sorted newest first.
pub open spec fn is_pipeline_output(items: Seq<NewsItem>, r: Seq<NewsItem>) -> bool {
    is_stable_sort_of(SortKey::NewestFirst, first_occurrences(DedupKey::Url, items), r)
}

proof fn lemma_successes_concat<E>(
    a: Seq<Result<Vec<NewsItem>, E>>,
    b: Seq<Result<Vec<NewsItem>, E>>,
)
    ensures
        successes(a + b) == successes(a) + successes(b),
    decreases b.len(),
{
    if b.len() == 0 {
        assert(a + b == a);
        assert(successes(a) + successes(b) == successes(a));
    } else {
        lemma_successes_concat(a, b.drop_last());
        assert((a + b).drop_last() == a + b.drop_last());
        assert((a + b).last() == b.last());
        match b.last() {
            Ok(batch) => {
                assert(successes(a) + (successes(b.drop_last()) + batch@) == (successes(a)
                    + successes(b.drop_last())) + batch@);
            },
            Err(_) => {},
        }
    }
}

/// A source that failed counts as absent: dropping its result from the
/// collected results leaves the combined items as they were.
pub proof fn lemma_failed_source_ignored<E>(results: Seq<Result<Vec<NewsItem>, E>>, i: int)
    requires
        0 <= i < results.len(),
        results[i] is Err,
    ensures
        successes(results) == successes(results.remove(i)),
{
    let head = results.take(i);
    let failed = seq![results[i]];
    let tail = results.skip(i + 1);
    assert(results == head + failed + tail);
    assert(results.remove(i) == head + tail);
    lemma_successes_concat(head + failed, tail);
    lemma_successes_concat(head, failed);
    lemma_successes_concat(head, tail);
    assert(failed.drop_last() == Seq::<Result<Vec<NewsItem>, E>>::empty());
    assert(successes(failed.drop_last()) == Seq::<NewsItem>::empty());
    assert(failed.last() is Err);
    assert(successes(failed) == Seq::<NewsItem>::empty());
    assert(successes(head) + Seq::<NewsItem>::empty() == successes(head));
}

/// Drops later duplicates by URL, then sorts newest first. The order of the
/// two steps matters: the first occurrence is the first in the given order.
pub fn deduplicate_and_sort(items: Vec<NewsItem>) -> (r: Vec<NewsItem>)
    ensures
        is_pipeline_output(items@, r@),
{
    let unique = NewsDeduplicationService::deduplicate_by_url(items);
    NewsSortingService::sort_by_published_at_desc(unique)
}

/// Combines the outcome of fetching from every source. Failed sources
/// contribute nothing; the items of the others are concatenated in the
/// order given, deduplicated by URL and sorted newest first. Never fails,
/// also when every source failed or none was configured.
pub fn aggregate_results<E>(results: Vec<Result<Vec<NewsItem>, E>>) -> (r: Vec<NewsItem>)
    ensures
        is_pipeline_output(successes(results@), r@),
{
    let ghost input = results@;
    let mut all: Vec<NewsItem> = Vec::new();
    proof {
        assert(input.take(0) == Seq::<Result<Vec<NewsItem>, E>>::empty());
    }
    for result in it: results.into_iter()
        invariant
            it.seq() == input,
            all@ == successes(input.take(it.index() as int)),
    {
        let ghost i = it.index() as int;
        proof {
            assert(input[i] == result);
            assert(input.take(i + 1).drop_last() == input.take(i));
        }
        match result {
            Ok(batch) => {
                let mut batch = batch;
                all.append(&mut batch);
            },
            Err(_) => {},
        }
    }
    proof {
        assert(input.take(input.len() as int) == input);
    }
    deduplicate_and_sort(all)
}

/// Finishes a fetch from a single source: its items go through the same
/// deduplication and ordering, and its error is handed back unchanged.
pub fn finish_single_fetch<E>(result: Result<Vec<NewsItem>, E>) -> (r: Result<Vec<NewsItem>, E>)
    ensures
        match result {
            Ok(items) => r is Ok && is_pipeline_output(items@, r->Ok_0@),
            Err(e) => r == Err::<Vec<NewsItem>, E>(e),
        },
{
    match result {
        Ok(items) => Ok(deduplicate_and_sort(items)),
        Err(e) => Err(e),
    }
}

} // verus!
