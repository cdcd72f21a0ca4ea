//! Interleaving the ranked candidates of several segmentations.

use vstd::prelude::*;

verus! {

/// The first `n` lists of `results`, one after the other.
pub open spec fn joined(results: Seq<Seq<(usize, Seq<char>)>>, n: int) -> Seq<(usize, Seq<char>)>
    decreases n,
{
    if n <= 0 {
        Seq::empty()
    } else {
        joined(results, n - 1) + results[n - 1]
    }
}

/// The strings of the entries of `flat` that have rank `r`, in their order
/// in `flat`.
pub open spec fn of_rank(flat: Seq<(usize, Seq<char>)>, r: int) -> Seq<Seq<char>>
    decreases flat.len(),
{
    if flat.len() == 0 {
        Seq::empty()
    } else if flat.last().0 == r {
        of_rank(flat.drop_last(), r).push(flat.last().1)
    } else {
        of_rank(flat.drop_last(), r)
    }
}

/// The strings of the entries of `flat` with a rank below `r`: those of rank
/// 0 first, then those of rank 1, and so on, each rank in the order of
/// `flat`.
pub open spec fn texts_upto(flat: Seq<(usize, Seq<char>)>, r: int) -> Seq<Seq<char>>
    decreases r,
{
    if r <= 0 {
        Seq::empty()
    } else {
        texts_upto(flat, r - 1) + of_rank(flat, r - 1)
    }
}

/// The strings of all lists of `results`, sorted by rank, with entries of
/// equal rank in the order of their lists and, within a list, in its order.
pub open spec fn merged(results: Seq<Seq<(usize, Seq<char>)>>) -> Seq<Seq<char>> {
    texts_upto(joined(results, results.len() as int), usize::MAX + 1)
}

proof fn lemma_of_rank_absent(flat: Seq<(usize, Seq<char>)>, r: int)
    requires
        forall|m: int| 0 <= m < flat.len() ==> (#[trigger] flat[m]).0 != r,
    ensures
        of_rank(flat, r) == Seq::<Seq<char>>::empty(),
    decreases flat.len(),
{
    if flat.len() > 0 {
        assert(flat[flat.len() - 1].0 != r);
        assert forall|m: int| 0 <= m < flat.drop_last().len() implies (#[trigger] flat.drop_last()[m]).0
            != r by {
            assert(flat.drop_last()[m] == flat[m]);
        }
        lemma_of_rank_absent(flat.drop_last(), r);
    }
}

/// Ranks that no entry has add nothing.
proof fn lemma_no_rank_between(flat: Seq<(usize, Seq<char>)>, lo: int, hi: int)
    requires
        lo <= hi,
        forall|m: int| 0 <= m < flat.len() ==> !(lo <= (#[trigger] flat[m]).0 < hi),
    ensures
        texts_upto(flat, hi) == texts_upto(flat, lo),
    decreases hi - lo,
{
    if lo < hi {
        lemma_no_rank_between(flat, lo, hi - 1);
        if hi > 0 {
            lemma_of_rank_absent(flat, hi - 1);
            assert(texts_upto(flat, hi) =~= texts_upto(flat, hi - 1));
        }
    }
}

/// Merging no list gives nothing.
pub proof fn lemma_merged_nothing(results: Seq<Seq<(usize, Seq<char>)>>)
    requires
        results.len() == 0,
    ensures
        merged(results).len() == 0,
{
    lemma_no_rank_between(joined(results, 0), 0, usize::MAX + 1);
}

/// Whether each entry of each list has its position in the list as its rank.
pub open spec fn ranked_by_position(results: Seq<Seq<(usize, Seq<char>)>>) -> bool {
    forall|a: int, k: int|
        0 <= a < results.len() && 0 <= k < results[a].len() ==> (#[trigger] results[a][k]).0 == k
}

/// The place in the merged list of the entry of rank `k` of list `a`: behind
/// all entries of lower rank and behind the entries of rank `k` of the lists
/// before `a`.
pub open spec fn place(results: Seq<Seq<(usize, Seq<char>)>>, a: int, k: int) -> int {
    (texts_upto(joined(results, results.len() as int), k).len() + of_rank(
        joined(results, a),
        k,
    ).len()) as int
}

proof fn lemma_of_rank_append(x: Seq<(usize, Seq<char>)>, y: Seq<(usize, Seq<char>)>, r: int)
    ensures
        of_rank(x + y, r) == of_rank(x, r) + of_rank(y, r),
    decreases y.len(),
{
    if y.len() == 0 {
        assert(x + y =~= x);
        assert(of_rank(x, r) + of_rank(y, r) =~= of_rank(x, r));
    } else {
        assert((x + y).drop_last() =~= x + y.drop_last());
        assert((x + y).last() == y.last());
        lemma_of_rank_append(x, y.drop_last(), r);
        if y.last().0 == r {
            assert(of_rank(x + y, r) =~= of_rank(x, r) + of_rank(y, r));
        }
    }
}

proof fn lemma_of_rank_by_position(list: Seq<(usize, Seq<char>)>, k: int)
    requires
        forall|m: int| 0 <= m < list.len() ==> (#[trigger] list[m]).0 == m,
        0 <= k,
    ensures
        of_rank(list, k) == if k < list.len() {
            seq![list[k].1]
        } else {
            Seq::<Seq<char>>::empty()
        },
    decreases list.len(),
{
    if list.len() > 0 {
        let shorter = list.drop_last();
        assert forall|m: int| 0 <= m < shorter.len() implies (#[trigger] shorter[m]).0 == m by {
            assert(shorter[m] == list[m]);
        }
        lemma_of_rank_by_position(shorter, k);
        assert(list[list.len() - 1].0 == list.len() - 1);
        if k < shorter.len() {
            assert(shorter[k] == list[k]);
        }
        if k == list.len() - 1 {
            assert(of_rank(list, k) =~= seq![list[k].1]);
        }
    }
}

proof fn lemma_block_entry(results: Seq<Seq<(usize, Seq<char>)>>, n: int, a: int, k: int)
    requires
        ranked_by_position(results),
        0 <= a < n <= results.len(),
        0 <= k < results[a].len(),
    ensures
        of_rank(joined(results, a), k).len() < of_rank(joined(results, n), k).len(),
        of_rank(joined(results, n), k)[of_rank(joined(results, a), k).len() as int]
            == results[a][k].1,
    decreases n,
{
    lemma_of_rank_append(joined(results, n - 1), results[n - 1], k);
    if n == a + 1 {
        assert forall|m: int| 0 <= m < results[a].len() implies (#[trigger] results[a][m]).0 == m by {}
        lemma_of_rank_by_position(results[a], k);
    } else {
        lemma_block_entry(results, n - 1, a, k);
    }
}

proof fn lemma_texts_prefix(flat: Seq<(usize, Seq<char>)>, lo: int, hi: int)
    requires
        0 <= lo <= hi,
    ensures
        texts_upto(flat, lo).is_prefix_of(texts_upto(flat, hi)),
    decreases hi - lo,
{
    if lo < hi {
        lemma_texts_prefix(flat, lo, hi - 1);
    }
}

/// Where each list is ranked by position, the entry of rank `k` of list `a`
/// stands in the merged list at `place(results, a, k)`.
pub proof fn lemma_merge_places(results: Seq<Seq<(usize, Seq<char>)>>, a: int, k: int)
    requires
        ranked_by_position(results),
        0 <= a < results.len(),
        0 <= k < results[a].len(),
    ensures
        0 <= place(results, a, k) < merged(results).len(),
        merged(results)[place(results, a, k)] == results[a][k].1,
{
    let flat = joined(results, results.len() as int);
    assert(results[a][k].0 == k);
    lemma_block_entry(results, results.len() as int, a, k);
    lemma_texts_prefix(flat, k + 1, usize::MAX + 1);
    let upto = texts_upto(flat, k + 1);
    assert(upto == texts_upto(flat, k) + of_rank(flat, k));
    assert(upto[place(results, a, k)] == results[a][k].1);
}

/// Of two entries of the same rank, the one from the earlier list stands
/// first in the merged list.
pub proof fn lemma_merge_keeps_list_order(
    results: Seq<Seq<(usize, Seq<char>)>>,
    a: int,
    b: int,
    k: int,
)
    requires
        ranked_by_position(results),
        0 <= a < b < results.len(),
        0 <= k < results[a].len(),
        k < results[b].len(),
    ensures
        place(results, a, k) < place(results, b, k) < merged(results).len(),
        merged(results)[place(results, a, k)] == results[a][k].1,
        merged(results)[place(results, b, k)] == results[b][k].1,
{
    lemma_merge_places(results, a, k);
    lemma_merge_places(results, b, k);
    lemma_block_entry(results, b, a, k);
}

/// An entry of a lower rank stands before every entry of a higher rank in
/// the merged list, whatever their lists.
pub proof fn lemma_merge_rank_order(
    results: Seq<Seq<(usize, Seq<char>)>>,
    a: int,
    k: int,
    b: int,
    higher: int,
)
    requires
        ranked_by_position(results),
        0 <= a < results.len(),
        0 <= b < results.len(),
        0 <= k < results[a].len(),
        k < higher < results[b].len(),
    ensures
        place(results, a, k) < place(results, b, higher) < merged(results).len(),
        merged(results)[place(results, a, k)] == results[a][k].1,
        merged(results)[place(results, b, higher)] == results[b][higher].1,
{
    lemma_merge_places(results, a, k);
    lemma_merge_places(results, b, higher);
    let flat = joined(results, results.len() as int);
    lemma_block_entry(results, results.len() as int, a, k);
    lemma_texts_prefix(flat, k + 1, higher);
}

/// All entries of `results`, list after list.
fn flatten(results: &Vec<Vec<(usize, String)>>) -> (flat: Vec<(usize, String)>)
    ensures
        flat.deep_view() == joined(results.deep_view(), results.len() as int),
{
    let mut flat: Vec<(usize, String)> = Vec::new();
    let mut a: usize = 0;
    assert(flat.deep_view() =~= joined(results.deep_view(), 0));
    while a < results.len()
        invariant
            a <= results.len(),
            flat.deep_view() == joined(results.deep_view(), a as int),
        decreases results.len() - a,
    {
        let list = &results[a];
        let ghost before = flat.deep_view();
        let mut m: usize = 0;
        assert(flat.deep_view() =~= before + list.deep_view().take(0));
        while m < list.len()
            invariant
                m <= list.len(),
                flat.deep_view() == before + list.deep_view().take(m as int),
            decreases list.len() - m,
        {
            let ghost so_far = flat.deep_view();
            flat.push((list[m].0, list[m].1.clone()));
            assert(flat.deep_view() =~= so_far.push(list.deep_view()[m as int]));
            assert(flat.deep_view() =~= before + list.deep_view().take(m + 1));
            m += 1;
        }
        assert(list.deep_view().take(list.len() as int) =~= list.deep_view());
        assert(results.deep_view()[a as int] == list.deep_view());
        a += 1;
    }
    flat
}

/// The least rank from `lo` on that an entry of `flat` has: a rank that
/// some entry has, with no entry's rank between `lo` and it; `None` where
/// every entry has a rank below `lo`.
fn least_rank_from(flat: &Vec<(usize, String)>, lo: usize) -> (least: Option<usize>)
    ensures
        match least {
            Some(r) => {
                &&& lo <= r
                &&& exists|m: int| 0 <= m < flat.len() && (#[trigger] flat[m]).0 == r
                &&& forall|m: int| 0 <= m < flat.len() ==> !(lo <= (#[trigger] flat[m]).0 < r)
            },
            None => forall|m: int| 0 <= m < flat.len() ==> (#[trigger] flat[m]).0 < lo,
        },
{
    let mut least: Option<usize> = None;
    let mut m: usize = 0;
    while m < flat.len()
        invariant
            m <= flat.len(),
            match least {
                Some(r) => {
                    &&& lo <= r
                    &&& exists|n: int| 0 <= n < m && (#[trigger] flat[n]).0 == r
                    &&& forall|n: int| 0 <= n < m ==> !(lo <= (#[trigger] flat[n]).0 < r)
                },
                None => forall|n: int| 0 <= n < m ==> (#[trigger] flat[n]).0 < lo,
            },
        decreases flat.len() - m,
    {
        let rank: usize = flat[m].0;
        if rank >= lo {
            assert(flat[m as int].0 == rank);
            least = match least {
                Some(r) => if rank < r {
                    Some(rank)
                } else {
                    Some(r)
                },
                None => Some(rank),
            };
        }
        m += 1;
    }
    least
}

/// Appends to `out` the strings of the entries of `flat` that have rank `r`.
fn collect_rank(flat: &Vec<(usize, String)>, r: usize, out: &mut Vec<String>)
    ensures
        final(out).deep_view() == old(out).deep_view() + of_rank(flat.deep_view(), r as int),
{
    let ghost before = out.deep_view();
    let mut m: usize = 0;
    assert(out.deep_view() =~= before + of_rank(flat.deep_view().take(0), r as int));
    while m < flat.len()
        invariant
            m <= flat.len(),
            out.deep_view() == before + of_rank(flat.deep_view().take(m as int), r as int),
        decreases flat.len() - m,
    {
        let ghost so_far = out.deep_view();
        let ghost next = flat.deep_view().take(m + 1);
        assert(next.drop_last() =~= flat.deep_view().take(m as int));
        assert(next.last() == flat.deep_view()[m as int]);
        if flat[m].0 == r {
            out.push(flat[m].1.clone());
            assert(out.deep_view() =~= so_far.push(flat[m as int].1@));
        }
        assert(out.deep_view() =~= before + of_rank(next, r as int));
        m += 1;
    }
    assert(flat.deep_view().take(flat.len() as int) =~= flat.deep_view());
}

/// Merges the ranked candidates of the segmentations into one list: all
/// candidates of rank 0 first, in the order of their segmentations, then
/// those of rank 1, and so on. The result is the stable sort by rank of the
/// lists put one after the other, without the ranks.
pub fn merge(segmentation_results: &Vec<Vec<(usize, String)>>) -> (out: Vec<String>)
    ensures
        out.deep_view() == merged(segmentation_results.deep_view()),
{
    let flat = flatten(segmentation_results);
    let ghost entries = flat.deep_view();
    let mut out: Vec<String> = Vec::new();
    let mut lo: usize = 0;
    let mut open: bool = true;
    assert(out.deep_view() =~= texts_upto(entries, 0));
    while open
        invariant
            entries == flat.deep_view(),
            open ==> out.deep_view() == texts_upto(entries, lo as int),
            !open ==> out.deep_view() == texts_upto(entries, usize::MAX + 1),
        decreases usize::MAX - lo + (if open { 1int } else { 0int }),
    {
        match least_rank_from(&flat, lo) {
            None => {
                proof {
                    assert forall|m: int| 0 <= m < entries.len() implies !(lo <= (
                    #[trigger] entries[m]).0 < usize::MAX + 1) by {
                        assert(entries[m].0 == flat[m].0);
                    }
                    lemma_no_rank_between(entries, lo as int, usize::MAX + 1);
                }
                open = false;
            },
            Some(r) => {
                proof {
                    assert forall|m: int| 0 <= m < entries.len() implies !(lo <= (
                    #[trigger] entries[m]).0 < r) by {
                        assert(entries[m].0 == flat[m].0);
                    }
                    lemma_no_rank_between(entries, lo as int, r as int);
                }
                collect_rank(&flat, r, &mut out);
                assert(out.deep_view() == texts_upto(entries, r + 1));
                if r == usize::MAX {
                    open = false;
                } else {
                    lo = r + 1;
                }
            },
        }
    }
    out
}

} // verus!
