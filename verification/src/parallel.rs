//! Sharing independent pieces of work out among workers, and running them
//! on a pool of threads.

use vstd::prelude::*;
use rayon::iter::{IntoParallelRefIterator, ParallelIterator};

verus! {

/// A run of consecutive numbers, from `start` up to but not including `end`.
#[derive(Clone, Copy, Debug, PartialEq, Eq, Structural)]
pub struct Span {
    pub start: usize,
    pub end: usize,
}

/// Whether the spans follow one another without a gap from 0 to `total`,
/// none of them empty.
pub open spec fn spans_cover(spans: Seq<Span>, total: int) -> bool {
    &&& forall|i: int| 0 <= i < spans.len() ==> (#[trigger] spans[i]).start < spans[i].end
    &&& forall|i: int| 0 <= i < spans.len() - 1 ==> (#[trigger] spans[i]).end == spans[i + 1].start
    &&& spans.len() > 0 ==> spans[0].start == 0 && spans[spans.len() - 1].end == total
    &&& spans.len() == 0 ==> total == 0
}

/// Number of spans that `total` items are shared out into among `workers`.
pub open spec fn span_count(total: int, workers: int) -> int {
    if workers <= 1 {
        if total > 0 {
            1
        } else {
            0
        }
    } else if workers < total {
        workers
    } else {
        total
    }
}

/// The number at which span `i` of `count` starts: the spans are as even
/// as can be, the longer ones first.
pub open spec fn span_start(total: int, count: int, i: int) -> int {
    i * (total / count) + if i < total % count {
        i
    } else {
        total % count
    }
}

/// Among spans that cover the items, each item lies in exactly one.
pub proof fn lemma_in_one_span(spans: Seq<Span>, total: int, y: int)
    requires
        spans_cover(spans, total),
        0 <= y < total,
    ensures
        exists|i: int| 0 <= i < spans.len() && (#[trigger] spans[i]).start <= y < spans[i].end,
        forall|i: int, j: int|
            0 <= i < spans.len() && 0 <= j < spans.len() && (#[trigger] spans[i]).start <= y < spans[i].end && (
            #[trigger] spans[j]).start <= y < spans[j].end ==> i == j,
{
    lemma_spans_ascend(spans, total, spans.len() as int - 1);
    let found = lemma_find_span(spans, total, y, spans.len() as int);
    assert(spans[found].start <= y < spans[found].end);
    assert forall|i: int, j: int|
        0 <= i < spans.len() && 0 <= j < spans.len() && (#[trigger] spans[i]).start <= y < spans[i].end && (
        #[trigger] spans[j]).start <= y < spans[j].end implies i == j by {
        if i < j {
            lemma_spans_ascend(spans, total, j - 1);
            assert(spans[i].end <= spans[j - 1].end);
            assert(spans[j - 1].end == spans[j].start);
        } else if j < i {
            lemma_spans_ascend(spans, total, i - 1);
            assert(spans[j].end <= spans[i - 1].end);
            assert(spans[i - 1].end == spans[i].start);
        }
    }
}

/// The ends of covering spans ascend.
pub proof fn lemma_spans_ascend(spans: Seq<Span>, total: int, n: int)
    requires
        spans_cover(spans, total),
        -1 <= n < spans.len(),
    ensures
        forall|i: int| 0 <= i <= n ==> (#[trigger] spans[i]).end <= spans[n].end,
    decreases n + 1,
{
    if n > 0 {
        lemma_spans_ascend(spans, total, n - 1);
        assert(spans[n - 1].end == spans[n].start);
        assert forall|i: int| 0 <= i <= n implies (#[trigger] spans[i]).end <= spans[n].end by {
            if i < n {
                assert(spans[i].end <= spans[n - 1].end);
            }
        }
    }
}

/// Finds the span that holds `y` among the first `n` spans, when these
/// reach beyond `y`.
proof fn lemma_find_span(spans: Seq<Span>, total: int, y: int, n: int) -> (i: int)
    requires
        spans_cover(spans, total),
        0 <= y,
        0 < n <= spans.len(),
        y < spans[n - 1].end,
    ensures
        0 <= i < n,
        spans[i].start <= y < spans[i].end,
    decreases n,
{
    if spans[n - 1].start <= y {
        n - 1
    } else {
        assert(n > 1);
        assert(spans[n - 2].end == spans[n - 1].start);
        lemma_find_span(spans, total, y, n - 1)
    }
}

/// Shares `total` items out among `workers` workers: consecutive spans
/// that cover all items, none empty, no two differing in length by more
/// than one. Fewer than two workers get all items in one span.
pub fn split_evenly(total: usize, workers: usize) -> (spans: Vec<Span>)
    ensures
        spans_cover(spans@, total as int),
        spans@.len() == span_count(total as int, workers as int),
        forall|i: int|
            0 <= i < spans@.len() ==> (#[trigger] spans@[i]).start == span_start(
                total as int,
                spans@.len() as int,
                i,
            ) && spans@[i].end == span_start(total as int, spans@.len() as int, i + 1),
{
    let mut spans: Vec<Span> = Vec::new();
    if total == 0 {
        return spans;
    }
    let count: usize = if workers <= 1 {
        1
    } else if workers < total {
        workers
    } else {
        total
    };
    let base: usize = total / count;
    let extra: usize = total % count;
    proof {
        vstd::arithmetic::div_mod::lemma_fundamental_div_mod(total as int, count as int);
        assert(base >= 1) by (nonlinear_arith)
            requires
                total == count * base + extra,
                0 <= extra < count,
                count <= total,
                base >= 0,
        ;
    }
    let mut start: usize = 0;
    let mut i: usize = 0;
    while i < count
        invariant
            i <= count,
            count >= 1,
            base == total / count,
            extra == total % count,
            base >= 1,
            extra < count,
            total == count * base + extra,
            spans@.len() == i,
            start == span_start(total as int, count as int, i as int),
            start <= total,
            forall|k: int|
                0 <= k < i ==> (#[trigger] spans@[k]).start == span_start(total as int, count as int, k)
                    && spans@[k].end == span_start(total as int, count as int, k + 1),
        decreases count - i,
    {
        assert(count * base >= base) by (nonlinear_arith)
            requires
                count >= 1,
                base >= 0,
        ;
        let len: usize = if i < extra {
            base + 1
        } else {
            base
        };
        proof {
            assert((i + 1) * base == i * base + base) by (nonlinear_arith);
            assert(span_start(total as int, count as int, i + 1) == start + len);
            assert((i + 1) * base <= count * base) by (nonlinear_arith)
                requires
                    i + 1 <= count,
                    base >= 0,
            ;
        }
        let end: usize = start + len;
        spans.push(Span { start, end });
        start = end;
        i = i + 1;
    }
    proof {
        assert(0 * (total as int / count as int) == 0) by (nonlinear_arith);
        assert(span_start(total as int, count as int, count as int) == total);
        assert forall|k: int| 0 <= k < spans@.len() implies (#[trigger] spans@[k]).start < spans@[k].end by {
            assert((k + 1) * base == k * base + base) by (nonlinear_arith);
        }
    }
    spans
}

/// Whether `work` may be called on each of `items`.
pub open spec fn all_callable<A, B, F: Fn(&A) -> B>(work: &F, items: Seq<A>) -> bool {
    forall|i: int| 0 <= i < items.len() ==> work.requires((&#[trigger] items[i],))
}

/// Whether `out` holds, item by item, what `work` returns for `items`.
pub open spec fn all_done<A, B, F: Fn(&A) -> B>(work: &F, items: Seq<A>, out: Seq<B>) -> bool {
    &&& out.len() == items.len()
    &&& forall|i: int| 0 <= i < items.len() ==> work.ensures((&items[i],), #[trigger] out[i])
}

/// Calls `work` on each item, on a pool of `workers` threads, by rayon's
/// `ThreadPoolBuilder::build`, `ThreadPool::install` and the parallel
/// `map` and `collect` over the items. `None` when the pool cannot be
/// built; otherwise entry `i` of the result is what `work` returned for
/// item `i`, whichever thread made the call and whenever it ended.
#[verifier::external_body]
pub(crate) fn map_on_pool<A: Sync, B: Send, F: Fn(&A) -> B + Sync>(items: &Vec<A>, work: &F, workers: usize) -> (out: Option<Vec<B>>)
    requires
        all_callable(work, items@),
    ensures
        out matches Some(results) ==> all_done(work, items@, results@),
{
    let pool = rayon::ThreadPoolBuilder::new().num_threads(workers).build().ok()?;
    Some(pool.install(|| items.par_iter().map(work).collect()))
}

/// Calls `work` on each item in turn.
pub fn map_in_turn<A, B, F: Fn(&A) -> B>(items: &Vec<A>, work: &F) -> (out: Vec<B>)
    requires
        all_callable(work, items@),
    ensures
        all_done(work, items@, out@),
{
    let mut out: Vec<B> = Vec::new();
    let mut i: usize = 0;
    while i < items.len()
        invariant
            i <= items@.len(),
            all_callable(work, items@),
            out@.len() == i,
            forall|k: int| 0 <= k < i ==> work.ensures((&items@[k],), #[trigger] out@[k]),
        decreases items@.len() - i,
    {
        let item = &items[i];
        assert(work.requires((&items@[i as int],)));
        let result = work(item);
        out.push(result);
        i = i + 1;
    }
    out
}

/// Calls `work` on each item: on a pool of `workers` threads when there
/// are two or more and the pool can be built, in turn otherwise.
pub fn map_with_workers<A: Sync, B: Send, F: Fn(&A) -> B + Sync>(items: &Vec<A>, work: &F, workers: usize) -> (out: Vec<B>)
    requires
        all_callable(work, items@),
    ensures
        all_done(work, items@, out@),
{
    if workers >= 2 {
        match map_on_pool(items, work, workers) {
            Some(results) => results,
            None => map_in_turn(items, work),
        }
    } else {
        map_in_turn(items, work)
    }
}

} // verus!
