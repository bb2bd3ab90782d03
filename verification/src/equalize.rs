//! Ranking counts among the distinct counts, and the square-root contrast curve.

use vstd::prelude::*;

verus! {

/// No element is smaller than an earlier one.
pub open spec fn ascending(s: Seq<u32>) -> bool {
    forall|i: int, j: int| 0 <= i <= j < s.len() ==> s[i] <= s[j]
}

/// Every element is larger than all earlier ones.
pub open spec fn strictly_ascending(s: Seq<u32>) -> bool {
    forall|i: int, j: int| 0 <= i < j < s.len() ==> s[i] < s[j]
}

/// The members of `values` that are smaller than `c`.
pub open spec fn values_below(values: Set<u32>, c: u32) -> Set<u32> {
    Set::new(|v: u32| values.contains(v) && v < c)
}

/// Whether `v` is `255 * sqrt(rank / top)` rounded down.
pub open spec fn is_sqrt_level(v: int, rank: int, top: int) -> bool {
    &&& 0 <= v <= 255
    &&& v * v * top <= 65025 * rank
    &&& 65025 * rank < (v + 1) * (v + 1) * top
}

/// Sorts the counts in place, by `sort_unstable` of the standard library's
/// slices: afterwards the vector holds the same counts, each as often as
/// before, in ascending order.
#[verifier::external_body]
fn sort_counts(counts: &mut Vec<u32>)
    ensures
        ascending(final(counts)@),
        final(counts)@.to_multiset() == old(counts)@.to_multiset(),
{
    counts.sort_unstable();
}

/// A sequence that holds one more element holds what it held, and the new element.
pub proof fn lemma_push_contains(s: Seq<u32>, a: u32, z: u32)
    ensures
        s.push(a).contains(z) <==> (s.contains(z) || z == a),
{
    if s.contains(z) {
        let k = choose|k: int| 0 <= k < s.len() && s[k] == z;
        assert(s.push(a)[k] == z);
    }
    if z == a {
        assert(s.push(a)[s.len() as int] == z);
    }
    if s.push(a).contains(z) {
        let k = choose|k: int| 0 <= k < s.push(a).len() && s.push(a)[k] == z;
        if k < s.len() {
            assert(s[k] == z);
        }
    }
}

/// In a strictly ascending sequence, the members below the `i`-th are the
/// first `i`, so there are `i` of them.
pub proof fn lemma_index_is_rank(levels: Seq<u32>, i: int)
    requires
        strictly_ascending(levels),
        0 <= i < levels.len(),
    ensures
        values_below(levels.to_set(), levels[i]).finite(),
        values_below(levels.to_set(), levels[i]).len() == i,
{
    let front = levels.take(i);
    assert forall|v: u32| values_below(levels.to_set(), levels[i]).contains(v) <==> front.to_set().contains(
        v,
    ) by {
        if values_below(levels.to_set(), levels[i]).contains(v) {
            let k = choose|k: int| 0 <= k < levels.len() && levels[k] == v;
            if k >= i {
                if k > i {
                    assert(levels[i] < levels[k]);
                }
            }
            assert(front[k] == v);
        }
        if front.to_set().contains(v) {
            let k = choose|k: int| 0 <= k < front.len() && front[k] == v;
            assert(levels[k] == v);
            assert(levels[k] < levels[i]);
        }
    }
    assert(values_below(levels.to_set(), levels[i]) =~= front.to_set());
    assert(front.no_duplicates()) by {
        assert forall|a: int, b: int| 0 <= a < front.len() && 0 <= b < front.len() && a != b implies front[a]
            != front[b] by {
            if a < b {
                assert(levels[a] < levels[b]);
            } else {
                assert(levels[b] < levels[a]);
            }
        }
    }
    front.unique_seq_to_set();
    vstd::seq_lib::seq_to_set_is_finite(front);
}

/// At most one level fits a rank.
pub proof fn lemma_sqrt_level_unique(v1: int, v2: int, rank: int, top: int)
    requires
        top > 0,
        is_sqrt_level(v1, rank, top),
        is_sqrt_level(v2, rank, top),
    ensures
        v1 == v2,
{
    if v1 < v2 {
        assert((v1 + 1) * (v1 + 1) * top <= v2 * v2 * top) by (nonlinear_arith)
            requires
                0 <= v1 + 1 <= v2,
                top > 0,
        ;
    } else if v2 < v1 {
        assert((v2 + 1) * (v2 + 1) * top <= v1 * v1 * top) by (nonlinear_arith)
            requires
                0 <= v2 + 1 <= v1,
                top > 0,
        ;
    }
}

/// The lowest rank is shown as 0, the highest as 255.
pub proof fn lemma_sqrt_level_ends(top: int)
    requires
        top > 0,
    ensures
        is_sqrt_level(0, 0, top),
        is_sqrt_level(255, top, top),
{
    assert(255 * 255 * top == 65025 * top && 256 * 256 * top == 65536 * top) by (nonlinear_arith);
    assert(0 * 0 * top == 0 && (0 + 1) * (0 + 1) * top == top) by (nonlinear_arith);
}

/// The distinct counts of `counts`, in ascending order.
pub fn distinct_sorted(counts: Vec<u32>) -> (levels: Vec<u32>)
    ensures
        strictly_ascending(levels@),
        forall|v: u32| levels@.contains(v) <==> counts@.contains(v),
{
    let mut sorted = counts;
    sort_counts(&mut sorted);
    let mut levels: Vec<u32> = Vec::new();
    let mut i: usize = 0;
    while i < sorted.len()
        invariant
            i <= sorted.len(),
            ascending(sorted@),
            sorted@.to_multiset() == counts@.to_multiset(),
            strictly_ascending(levels@),
            forall|k: int| 0 <= k < i ==> levels@.contains(#[trigger] sorted@[k]),
            forall|k: int| 0 <= k < levels@.len() ==> sorted@.contains(#[trigger] levels@[k]),
            levels@.len() > 0 ==> i > 0 && levels@[levels@.len() - 1] == sorted@[i - 1],
            levels@.len() == 0 ==> i == 0,
        decreases sorted.len() - i,
    {
        let c: u32 = sorted[i];
        let ghost before = levels@;
        if levels.len() == 0 || levels[levels.len() - 1] != c {
            levels.push(c);
            proof {
                assert forall|a: int, b: int| 0 <= a < b < levels@.len() implies levels@[a] < levels@[b] by {
                    if b == before.len() {
                        assert(before[a] <= before[before.len() - 1]) by {
                            if a < before.len() - 1 {
                                assert(before[a] < before[before.len() - 1]);
                            }
                        }
                        assert(sorted@[i - 1] <= sorted@[i as int]);
                    } else {
                        assert(before[a] < before[b]);
                    }
                }
                assert forall|k: int| 0 <= k < i + 1 implies levels@.contains(#[trigger] sorted@[k]) by {
                    lemma_push_contains(before, c, sorted@[k]);
                }
                assert forall|k: int| 0 <= k < levels@.len() implies sorted@.contains(#[trigger] levels@[k]) by {
                    if k < before.len() {
                        assert(levels@[k] == before[k]);
                    } else {
                        assert(sorted@[i as int] == levels@[k]);
                    }
                }
            }
        } else {
            proof {
                assert(levels@[levels@.len() - 1] == c);
            }
        }
        i = i + 1;
    }
    proof {
        sorted@.to_multiset_ensures();
        counts@.to_multiset_ensures();
        assert forall|v: u32| levels@.contains(v) <==> counts@.contains(v) by {
            if levels@.contains(v) {
                let k = choose|k: int| 0 <= k < levels@.len() && levels@[k] == v;
                assert(sorted@.contains(levels@[k]));
                assert(sorted@.to_multiset().count(v) > 0);
            }
            if counts@.contains(v) {
                assert(counts@.to_multiset().count(v) > 0);
                assert(sorted@.contains(v));
                let k = choose|k: int| 0 <= k < sorted@.len() && sorted@[k] == v;
                assert(levels@.contains(sorted@[k]));
            }
        }
    }
    levels
}

/// The position of `count` among the distinct counts.
pub fn level_index(levels: &Vec<u32>, count: u32) -> (i: usize)
    requires
        strictly_ascending(levels@),
        levels@.contains(count),
    ensures
        i < levels@.len(),
        levels@[i as int] == count,
{
    let ghost k = choose|k: int| 0 <= k < levels@.len() && levels@[k] == count;
    let mut lo: usize = 0;
    let mut hi: usize = levels.len();
    while hi - lo > 1
        invariant
            strictly_ascending(levels@),
            lo <= k < hi <= levels@.len(),
            levels@[k] == count,
        decreases hi - lo,
    {
        let mid: usize = lo + (hi - lo) / 2;
        if levels[mid] <= count {
            proof {
                if k < mid {
                    assert(levels@[k] < levels@[mid as int]);
                }
            }
            lo = mid;
        } else {
            proof {
                if k > mid {
                    assert(levels@[mid as int] < levels@[k]);
                }
            }
            hi = mid;
        }
    }
    lo
}

/// `255 * sqrt(rank / top)` rounded down.
pub fn sqrt_level(rank: usize, top: usize) -> (v: u8)
    requires
        rank <= top,
        top > 0,
    ensures
        is_sqrt_level(v as int, rank as int, top as int),
{
    let target: u128 = 65025 * (rank as u128);
    let wide_top: u128 = top as u128;
    let mut lo: u128 = 0;
    let mut hi: u128 = 256;
    assert(0 * 0 * wide_top <= target);
    assert(target < 256 * 256 * wide_top) by (nonlinear_arith)
        requires
            target == 65025 * rank,
            rank <= top,
            top > 0,
            wide_top == top,
    ;
    while hi - lo > 1
        invariant
            0 <= lo < hi <= 256,
            wide_top == top,
            top <= usize::MAX,
            target == 65025 * rank,
            lo * lo * wide_top <= target,
            target < hi * hi * wide_top,
        decreases hi - lo,
    {
        let mid: u128 = lo + (hi - lo) / 2;
        assert(mid * mid <= 65536) by (nonlinear_arith)
            requires
                0 <= mid <= 256,
        ;
        assert(mid * mid * wide_top <= 65536 * 0xffff_ffff_ffff_ffff) by (nonlinear_arith)
            requires
                0 <= mid * mid <= 65536,
                0 <= wide_top <= 0xffff_ffff_ffff_ffff,
        ;
        if mid * mid * wide_top <= target {
            lo = mid;
        } else {
            hi = mid;
        }
    }
    assert(hi == lo + 1);
    lo as u8
}

} // verus!
