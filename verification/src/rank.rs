//! Ranking the candidates of the last column by their final scores.

use itertools::Itertools;
use std::cmp::Ordering;
use vstd::prelude::*;

verus! {

/// Whether an entry, a score with the index of its candidate, comes before
/// another: the higher score first, and of two equal scores the lower index.
pub open spec fn ranks_before(a: (i128, usize), b: (i128, usize)) -> bool {
    a.0 > b.0 || (a.0 == b.0 && a.1 < b.1)
}

/// Whether candidate `a` comes before candidate `b` under `scores`: the
/// higher score first, and of two equal scores the lower index.
pub open spec fn outranks(scores: Seq<int>, a: int, b: int) -> bool {
    scores[a] > scores[b] || (scores[a] == scores[b] && a < b)
}

/// Whether `order` lists every index of `scores` once, best first.
pub open spec fn is_ranking(order: Seq<int>, scores: Seq<int>) -> bool {
    &&& order.len() == scores.len()
    &&& forall|k: int| 0 <= k < order.len() ==> 0 <= #[trigger] order[k] < scores.len()
    &&& forall|a: int, b: int|
        0 <= a < b < order.len() ==> outranks(scores, #[trigger] order[a], #[trigger] order[b])
    &&& forall|j: int| 0 <= j < scores.len() ==> #[trigger] order.contains(j)
}

/// The ranking of `scores`: the one order that `is_ranking` admits.
pub open spec fn ranking(scores: Seq<int>) -> Seq<int> {
    choose|order: Seq<int>| is_ranking(order, scores)
}

/// The scores as integers.
pub open spec fn score_values(scores: Seq<i128>) -> Seq<int> {
    Seq::new(scores.len(), |j: int| scores[j] as int)
}

/// The indices as integers.
pub open spec fn index_values(order: Seq<usize>) -> Seq<int> {
    Seq::new(order.len(), |k: int| order[k] as int)
}

/// Two rankings of the same scores agree up to any position.
proof fn lemma_rankings_agree(o1: Seq<int>, o2: Seq<int>, scores: Seq<int>, k: int)
    requires
        is_ranking(o1, scores),
        is_ranking(o2, scores),
        0 <= k <= scores.len(),
    ensures
        forall|n: int| 0 <= n < k ==> o1[n] == o2[n],
    decreases k,
{
    if k > 0 {
        lemma_rankings_agree(o1, o2, scores, k - 1);
        let x = o1[k - 1];
        let y = o2[k - 1];
        if x != y {
            assert(o2.contains(x));
            let m = o2.index_of(x);
            assert(o1.contains(y));
            let n = o1.index_of(y);
            if m < k - 1 {
                assert(o1[m] == o2[m]);
                assert(outranks(scores, o1[m], o1[k - 1]));
            }
            if n < k - 1 {
                assert(o1[n] == o2[n]);
                assert(outranks(scores, o2[n], o2[k - 1]));
            }
            assert(outranks(scores, o2[k - 1], o2[m]));
            assert(outranks(scores, o1[k - 1], o1[n]));
        }
    }
}

/// Scores have one ranking only.
pub proof fn lemma_ranking_unique(o1: Seq<int>, o2: Seq<int>, scores: Seq<int>)
    requires
        is_ranking(o1, scores),
        is_ranking(o2, scores),
    ensures
        o1 == o2,
{
    lemma_rankings_agree(o1, o2, scores, scores.len() as int);
    assert(o1 =~= o2);
}

/// The first place from `i` on whose candidate does not come before `x`; the
/// length of `order` where there is none.
spec fn slot(order: Seq<int>, scores: Seq<int>, x: int, i: int) -> int
    decreases order.len() - i,
{
    if i < 0 || i >= order.len() {
        order.len() as int
    } else if outranks(scores, order[i], x) {
        slot(order, scores, x, i + 1)
    } else {
        i
    }
}

proof fn lemma_slot(order: Seq<int>, scores: Seq<int>, x: int, i: int)
    requires
        0 <= i <= order.len(),
    ensures
        i <= slot(order, scores, x, i) <= order.len(),
        forall|m: int| i <= m < slot(order, scores, x, i) ==> outranks(scores, #[trigger] order[m], x),
        slot(order, scores, x, i) < order.len() ==> !outranks(
            scores,
            order[slot(order, scores, x, i)],
            x,
        ),
    decreases order.len() - i,
{
    if i < order.len() && outranks(scores, order[i], x) {
        lemma_slot(order, scores, x, i + 1);
    }
}

/// Every list of scores has a ranking.
pub proof fn lemma_ranking_exists(scores: Seq<int>)
    ensures
        is_ranking(ranking(scores), scores),
    decreases scores.len(),
{
    if scores.len() == 0 {
        assert(is_ranking(Seq::<int>::empty(), scores));
    } else {
        let fewer = scores.drop_last();
        lemma_ranking_exists(fewer);
        let before = ranking(fewer);
        let x = scores.len() - 1;
        let p = slot(before, scores, x, 0);
        lemma_slot(before, scores, x, 0);
        let order = before.take(p).push(x) + before.skip(p);
        assert forall|a: int, b: int| 0 <= a < b < order.len() implies outranks(
            scores,
            #[trigger] order[a],
            #[trigger] order[b],
        ) by {
            if b < p {
                assert(outranks(fewer, before[a], before[b]));
            } else if a < p && b == p {
            } else if a < p {
                assert(outranks(fewer, before[a], before[b - 1]));
            } else if a == p {
                assert(order[b] == before[b - 1]);
                assert(0 <= before[b - 1] < x);
                assert(!outranks(scores, before[p], x));
                assert(0 <= before[p] < x);
                if b - 1 > p {
                    assert(outranks(fewer, before[p], before[b - 1]));
                }
            } else {
                assert(outranks(fewer, before[a - 1], before[b - 1]));
            }
        }
        assert forall|j: int| 0 <= j < scores.len() implies #[trigger] order.contains(j) by {
            if j == x {
                assert(order[p] == j);
            } else {
                assert(before.contains(j));
                let m = before.index_of(j);
                if m < p {
                    assert(order[m] == j);
                } else {
                    assert(order[m + 1] == j);
                }
            }
        }
        assert forall|k: int| 0 <= k < order.len() implies 0 <= #[trigger] order[k] < scores.len() by {
            if k < p {
                assert(order[k] == before[k]);
            } else if k > p {
                assert(order[k] == before[k - 1]);
            }
        }
        assert(is_ranking(order, scores));
    }
}

/// The first place of a ranking holds a largest score.
pub proof fn lemma_ranking_first_is_max(order: Seq<int>, scores: Seq<int>, j: int)
    requires
        is_ranking(order, scores),
        0 <= j < scores.len(),
    ensures
        scores[j] <= scores[order[0]],
{
    assert(order.contains(j));
    let m = order.index_of(j);
    if m > 0 {
        assert(outranks(scores, order[0], order[m]));
    }
}

/// Orders two entries: `Less` where the first comes before the second,
/// `Greater` where the second comes before the first, `Equal` where they are
/// the same entry.
pub fn by_rank(a: &(i128, usize), b: &(i128, usize)) -> (o: Ordering)
    ensures
        o == Ordering::Less <==> ranks_before(*a, *b),
        o == Ordering::Greater <==> ranks_before(*b, *a),
        o == Ordering::Equal <==> *a == *b,
{
    if a.0 > b.0 {
        Ordering::Less
    } else if a.0 < b.0 {
        Ordering::Greater
    } else if a.1 < b.1 {
        Ordering::Less
    } else if a.1 > b.1 {
        Ordering::Greater
    } else {
        Ordering::Equal
    }
}

/// Sorts the entries with `Itertools::sorted_by` under `by_rank`. Trusted
/// of that call: what comes back holds the same entries as often as `items`
/// does, and no entry stands behind one that it comes before.
#[verifier::external_body]
fn sort_by_rank(items: Vec<(i128, usize)>) -> (sorted: Vec<(i128, usize)>)
    ensures
        sorted@.to_multiset() == items@.to_multiset(),
        forall|a: int, b: int|
            0 <= a < b < sorted@.len() ==> !ranks_before(#[trigger] sorted@[b], #[trigger] sorted@[a]),
{
    items.into_iter().sorted_by(|a, b| by_rank(a, b)).collect()
}

/// The indices of `scores`, best first: the higher score first, and of two
/// equal scores the lower index.
pub fn rank_scores(scores: &Vec<i128>) -> (order: Vec<usize>)
    ensures
        is_ranking(index_values(order@), score_values(scores@)),
        index_values(order@) == ranking(score_values(scores@)),
{
    let n: usize = scores.len();
    let mut items: Vec<(i128, usize)> = Vec::new();
    let mut j: usize = 0;
    while j < n
        invariant
            j <= n,
            n == scores.len(),
            items.len() == j,
            forall|m: int| 0 <= m < j ==> #[trigger] items[m] == (scores[m], m as usize),
        decreases n - j,
    {
        items.push((scores[j], j));
        j += 1;
    }
    let ghost entries = items@;
    let sorted = sort_by_rank(items);
    proof {
        entries.to_multiset_ensures();
        sorted@.to_multiset_ensures();
        assert(entries.no_duplicates());
        entries.lemma_multiset_has_no_duplicates();
        sorted@.lemma_multiset_has_no_duplicates_conv();
        assert forall|k: int| 0 <= k < sorted.len() implies 0 <= (#[trigger] sorted[k]).1 < n
            && sorted[k].0 == scores[sorted[k].1 as int] by {
            assert(sorted@.contains(sorted[k]));
            assert(sorted@.to_multiset().count(sorted[k]) > 0);
            assert(entries.to_multiset().count(sorted[k]) > 0);
            assert(entries.contains(sorted[k]));
            let m = entries.index_of(sorted[k]);
            assert(entries[m] == sorted[k]);
        }
    }
    let mut order: Vec<usize> = Vec::new();
    let mut k: usize = 0;
    while k < n
        invariant
            k <= n,
            n == sorted.len(),
            order.len() == k,
            forall|m: int| 0 <= m < k ==> #[trigger] order[m] == sorted[m].1,
        decreases n - k,
    {
        order.push(sorted[k].1);
        k += 1;
    }
    proof {
        let o = index_values(order@);
        let s = score_values(scores@);
        assert forall|a: int, b: int| 0 <= a < b < o.len() implies outranks(
            s,
            #[trigger] o[a],
            #[trigger] o[b],
        ) by {
            assert(!ranks_before(sorted@[b], sorted@[a]));
            assert(sorted@[a] != sorted@[b]);
        }
        assert forall|i: int| 0 <= i < s.len() implies #[trigger] o.contains(i) by {
            assert(entries[i] == (scores[i], i as usize));
            assert(entries.contains(entries[i]));
            assert(entries.to_multiset().count(entries[i]) > 0);
            assert(sorted@.to_multiset().count(entries[i]) > 0);
            assert(sorted@.contains(entries[i]));
            let m = sorted@.index_of(entries[i]);
            assert(o[m] == i);
        }
        assert(is_ranking(o, s));
        lemma_ranking_unique(o, ranking(s), s);
    }
    order
}

} // verus!
