//! The Viterbi recurrence over the parameter tables, as mathematics.

use crate::params::{is_log_prob, Tables, MIN_LOG};
use vstd::prelude::*;

verus! {

/// The candidate characters of the syllable at position `i`.
pub open spec fn column(t: Tables, seg: Seq<Seq<char>>, i: int) -> Seq<char> {
    t.candidates(seg[i])
}

/// Whether every syllable of `seg` has a candidate character.
pub open spec fn all_known(t: Tables, seg: Seq<Seq<char>>) -> bool {
    forall|i: int| 0 <= i < seg.len() ==> (#[trigger] column(t, seg, i)).len() > 0
}

/// The best score of a character sequence for the syllables `0..=i` that
/// ends in candidate `j` of column `i`.
pub open spec fn cell_score(t: Tables, seg: Seq<Seq<char>>, i: int, j: int) -> int
    decreases i, 1int, 0int,
{
    let c = column(t, seg, i)[j];
    if i <= 0 {
        t.init_of(c) + t.emiss_of(c, seg[0])
    } else {
        best_upto(t, seg, i, j, column(t, seg, i - 1).len() as int)
    }
}

/// The score of reaching candidate `j` of column `i` from candidate `k` of
/// the column before it.
pub open spec fn step_score(t: Tables, seg: Seq<Seq<char>>, i: int, j: int, k: int) -> int
    decreases i - 1, 2int, 0int,
{
    if i <= 0 {
        0
    } else {
        let c = column(t, seg, i)[j];
        cell_score(t, seg, i - 1, k) + t.emiss_of(c, seg[i]) + t.trans_of(
            c,
            column(t, seg, i - 1)[k],
        )
    }
}

/// The largest step score into candidate `j` of column `i` from the first
/// `m` candidates of the column before it.
pub open spec fn best_upto(t: Tables, seg: Seq<Seq<char>>, i: int, j: int, m: int) -> int
    decreases i, 0int, m,
{
    if i <= 0 {
        0
    } else if m <= 1 {
        step_score(t, seg, i, j, 0)
    } else {
        let earlier = best_upto(t, seg, i, j, m - 1);
        let last = step_score(t, seg, i, j, m - 1);
        if last > earlier {
            last
        } else {
            earlier
        }
    }
}

/// The first of the first `m` candidates of column `i - 1` from which the
/// step into candidate `j` of column `i` has the largest score.
pub open spec fn arg_upto(t: Tables, seg: Seq<Seq<char>>, i: int, j: int, m: int) -> int
    decreases m,
{
    if m <= 1 {
        0
    } else if step_score(t, seg, i, j, m - 1) > best_upto(t, seg, i, j, m - 1) {
        m - 1
    } else {
        arg_upto(t, seg, i, j, m - 1)
    }
}

/// The backpointer of candidate `j` of column `i`, for `i > 0`: the first
/// best predecessor in the column before it.
pub open spec fn backpointer(t: Tables, seg: Seq<Seq<char>>, i: int, j: int) -> int {
    arg_upto(t, seg, i, j, column(t, seg, i - 1).len() as int)
}

/// The score of candidate `j` of the last column with the final transition
/// added.
pub open spec fn final_score(t: Tables, seg: Seq<Seq<char>>, j: int) -> int {
    cell_score(t, seg, seg.len() - 1, j) + t.eos_of(column(t, seg, seg.len() - 1)[j])
}

/// The final scores of the candidates of the last column.
pub open spec fn final_scores(t: Tables, seg: Seq<Seq<char>>) -> Seq<int> {
    Seq::new(column(t, seg, seg.len() - 1).len(), |j: int| final_score(t, seg, j))
}

/// The characters found by following the backpointers from candidate `j` of
/// column `i` down to column 0, first column first.
pub open spec fn best_path(t: Tables, seg: Seq<Seq<char>>, i: int, j: int) -> Seq<char>
    decreases i,
{
    if i <= 0 {
        seq![column(t, seg, 0)[j]]
    } else {
        best_path(t, seg, i - 1, backpointer(t, seg, i, j)).push(column(t, seg, i)[j])
    }
}

/// The score of the first `i + 1` characters of `path`: the initial and
/// emission log-probabilities of the first, and for each later one its
/// emission and its transition from the one before.
pub open spec fn prefix_score(t: Tables, seg: Seq<Seq<char>>, path: Seq<char>, i: int) -> int
    decreases i,
{
    if i <= 0 {
        t.init_of(path[0]) + t.emiss_of(path[0], seg[0])
    } else {
        prefix_score(t, seg, path, i - 1) + t.emiss_of(path[i], seg[i]) + t.trans_of(
            path[i],
            path[i - 1],
        )
    }
}

/// The score of a whole character sequence for `seg`, with the final
/// transition.
pub open spec fn path_score(t: Tables, seg: Seq<Seq<char>>, path: Seq<char>) -> int {
    prefix_score(t, seg, path, seg.len() - 1) + t.eos_of(path[seg.len() - 1])
}

/// Whether the first `n` characters of `path` are candidates of the first
/// `n` syllables.
pub open spec fn is_prefix_path(t: Tables, seg: Seq<Seq<char>>, path: Seq<char>, n: int) -> bool {
    &&& n <= path.len()
    &&& forall|i: int| 0 <= i < n ==> column(t, seg, i).contains(#[trigger] path[i])
}

/// Whether `path` gives each syllable of `seg` one of its candidates.
pub open spec fn is_path(t: Tables, seg: Seq<Seq<char>>, path: Seq<char>) -> bool {
    path.len() == seg.len() && is_prefix_path(t, seg, path, seg.len() as int)
}

/// Every lookup lies between the floor and zero.
pub proof fn lemma_lookup_bounds(t: Tables, a: char, b: char, s: Seq<char>)
    requires
        t.wf(),
    ensures
        is_log_prob(t.init_of(a)),
        is_log_prob(t.trans_of(a, b)),
        is_log_prob(t.eos_of(a)),
        is_log_prob(t.emiss_of(a, s)),
{
    if t.init.contains_key(a) {
        assert(is_log_prob(t.init[a]));
    }
    if t.trans.contains_key((a, b)) {
        assert(is_log_prob(t.trans[(a, b)]));
    }
    if t.eos.contains_key(a) {
        assert(is_log_prob(t.eos[a]));
    }
    if t.emiss.contains_key((a, s)) {
        assert(is_log_prob(t.emiss[(a, s)]));
    }
}

/// The best of the first `m` predecessors: where it is, that it is reached,
/// that none of them is better, and that none before it is as good.
pub proof fn lemma_best_upto(t: Tables, seg: Seq<Seq<char>>, i: int, j: int, m: int)
    requires
        i > 0,
        m >= 1,
    ensures
        0 <= arg_upto(t, seg, i, j, m) < m,
        best_upto(t, seg, i, j, m) == step_score(t, seg, i, j, arg_upto(t, seg, i, j, m)),
        forall|k: int| 0 <= k < m ==> step_score(t, seg, i, j, k) <= best_upto(t, seg, i, j, m),
        forall|k: int|
            0 <= k < arg_upto(t, seg, i, j, m) ==> step_score(t, seg, i, j, k) < best_upto(
                t,
                seg,
                i,
                j,
                m,
            ),
    decreases m,
{
    if m > 1 {
        lemma_best_upto(t, seg, i, j, m - 1);
    }
}

/// A cell's score lies between `2 * i + 2` floors and zero.
pub proof fn lemma_cell_bounds(t: Tables, seg: Seq<Seq<char>>, i: int, j: int)
    requires
        t.wf(),
        i >= 0,
    ensures
        (2 * i + 2) * MIN_LOG <= cell_score(t, seg, i, j) <= 0,
    decreases i,
{
    let c = column(t, seg, i)[j];
    if i <= 0 {
        lemma_lookup_bounds(t, c, c, seg[0]);
    } else {
        let m = if column(t, seg, i - 1).len() >= 1 {
            column(t, seg, i - 1).len() as int
        } else {
            1
        };
        lemma_best_upto(t, seg, i, j, m);
        let k = arg_upto(t, seg, i, j, m);
        lemma_cell_bounds(t, seg, i - 1, k);
        lemma_lookup_bounds(t, c, column(t, seg, i - 1)[k], seg[i]);
        assert(best_upto(t, seg, i, j, column(t, seg, i - 1).len() as int) == best_upto(
            t,
            seg,
            i,
            j,
            m,
        ));
    }
}

/// The score of a prefix does not depend on what follows it.
pub proof fn lemma_prefix_score_agrees(
    t: Tables,
    seg: Seq<Seq<char>>,
    p: Seq<char>,
    q: Seq<char>,
    i: int,
)
    requires
        forall|n: int| 0 <= n <= i ==> p[n] == q[n],
        i >= 0,
    ensures
        prefix_score(t, seg, p, i) == prefix_score(t, seg, q, i),
    decreases i,
{
    if i > 0 {
        lemma_prefix_score_agrees(t, seg, p, q, i - 1);
    }
}

/// Following the backpointers from a cell gives a sequence of candidates
/// whose score is the cell's score.
pub proof fn lemma_best_path(t: Tables, seg: Seq<Seq<char>>, i: int, j: int)
    requires
        0 <= i < seg.len(),
        0 <= j < column(t, seg, i).len(),
        all_known(t, seg),
    ensures
        best_path(t, seg, i, j).len() == i + 1,
        best_path(t, seg, i, j)[i] == column(t, seg, i)[j],
        is_prefix_path(t, seg, best_path(t, seg, i, j), i + 1),
        prefix_score(t, seg, best_path(t, seg, i, j), i) == cell_score(t, seg, i, j),
    decreases i,
{
    let p = best_path(t, seg, i, j);
    if i > 0 {
        let m = column(t, seg, i - 1).len() as int;
        assert(column(t, seg, i - 1).len() > 0);
        lemma_best_upto(t, seg, i, j, m);
        let k = backpointer(t, seg, i, j);
        lemma_best_path(t, seg, i - 1, k);
        let before = best_path(t, seg, i - 1, k);
        lemma_prefix_score_agrees(t, seg, p, before, i - 1);
        assert forall|n: int| 0 <= n < i + 1 implies column(t, seg, n).contains(#[trigger] p[n]) by {
            if n < i {
                assert(p[n] == before[n]);
            }
        }
    }
}

/// No sequence of candidates that ends in a cell's character scores above
/// the cell.
pub proof fn lemma_cell_optimal(t: Tables, seg: Seq<Seq<char>>, q: Seq<char>, i: int, j: int)
    requires
        0 <= i < seg.len(),
        0 <= j < column(t, seg, i).len(),
        is_prefix_path(t, seg, q, i + 1),
        q[i] == column(t, seg, i)[j],
    ensures
        prefix_score(t, seg, q, i) <= cell_score(t, seg, i, j),
    decreases i,
{
    if i > 0 {
        let prev = column(t, seg, i - 1);
        assert(prev.contains(q[i - 1]));
        let k = prev.index_of(q[i - 1]);
        lemma_cell_optimal(t, seg, q, i - 1, k);
        lemma_best_upto(t, seg, i, j, prev.len() as int);
        assert(prefix_score(t, seg, q, i) <= step_score(t, seg, i, j, k));
    }
}

} // verus!
