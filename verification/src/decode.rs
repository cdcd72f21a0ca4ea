//! Decoding one syllable sequence into ranked character strings.

use crate::params::{Params, Tables, MIN_LOG};
use crate::rank::{
    index_values, is_ranking, lemma_ranking_exists, lemma_ranking_first_is_max, outranks,
    rank_scores, ranking, score_values,
};
use crate::viterbi::{
    all_known, arg_upto, backpointer, best_path, best_upto, cell_score, column, final_score,
    final_scores, is_path, lemma_best_path, lemma_cell_bounds, lemma_cell_optimal,
    lemma_lookup_bounds, path_score, prefix_score, step_score,
};
use vstd::prelude::*;

verus! {

/// The largest number of candidates that one syllable sequence gives.
pub const TOP_K: usize = 100;

/// Why a syllable sequence was not decoded.
#[derive(Debug, PartialEq, Eq)]
pub enum DecodeError {
    /// The syllable has no candidate character in the tables.
    UnknownSyllableState(String),
}

/// What decoding one syllable sequence gives.
#[derive(Debug, PartialEq, Eq)]
pub struct Decoded {
    /// Each candidate string with its rank, best first.
    pub candidates: Vec<(usize, String)>,
    /// A warning: no table held an entry for any step of any sequence, so
    /// every score is made of floors alone.
    pub degenerate: bool,
}

/// `std::string::String::push` appends the character to the string.
pub assume_specification[ String::push ](s: &mut String, c: char)
    ensures
        final(s)@ == old(s)@.push(c),
;

/// Whether `i` is the first position of `seg` whose syllable has no
/// candidate character.
pub open spec fn first_unknown(t: Tables, seg: Seq<Seq<char>>, i: int) -> bool {
    &&& 0 <= i < seg.len()
    &&& column(t, seg, i).len() == 0
    &&& forall|n: int| 0 <= n < i ==> (#[trigger] column(t, seg, n)).len() > 0
}

/// The number of candidates that decoding `seg` gives.
pub open spec fn emitted(t: Tables, seg: Seq<Seq<char>>) -> int {
    if seg.len() == 0 {
        0
    } else if column(t, seg, seg.len() - 1).len() < TOP_K {
        column(t, seg, seg.len() - 1).len() as int
    } else {
        TOP_K as int
    }
}

/// The character string of rank `k`: the backpointer path of the candidate
/// that the ranking of the final scores puts at place `k`.
pub open spec fn ranked_path(t: Tables, seg: Seq<Seq<char>>, k: int) -> Seq<char> {
    best_path(t, seg, seg.len() - 1, ranking(final_scores(t, seg))[k])
}

/// The score that a sequence for `len` syllables has where no table holds
/// an entry for any of its steps.
pub open spec fn floor_score(len: int) -> int {
    (2 * len + 1) * MIN_LOG
}

/// Whether every candidate of the last column has a final score made of
/// floors alone.
pub open spec fn is_degenerate(t: Tables, seg: Seq<Seq<char>>) -> bool {
    &&& seg.len() > 0
    &&& forall|j: int|
        0 <= j < column(t, seg, seg.len() - 1).len() ==> #[trigger] final_score(t, seg, j)
            == floor_score(seg.len() as int)
}

/// Whether `candidates` and `degenerate` are what decoding `seg` gives.
pub open spec fn is_decoding(
    t: Tables,
    seg: Seq<Seq<char>>,
    candidates: Seq<(usize, String)>,
    degenerate: bool,
) -> bool {
    &&& candidates.len() == emitted(t, seg)
    &&& forall|k: int|
        0 <= k < candidates.len() ==> (#[trigger] candidates[k]).0 == k && candidates[k].1@
            == ranked_path(t, seg, k)
    &&& degenerate == is_degenerate(t, seg)
}

/// The candidate at place `k` of a ranking stands for a character sequence
/// that gives each syllable one of its candidates and has one character for
/// each syllable; its score is the candidate's final score; and no later
/// place scores above it.
pub proof fn lemma_ranked_paths(t: Tables, seg: Seq<Seq<char>>, order: Seq<int>, k: int)
    requires
        all_known(t, seg),
        seg.len() > 0,
        is_ranking(order, final_scores(t, seg)),
        0 <= k < order.len(),
    ensures
        is_path(t, seg, best_path(t, seg, seg.len() - 1, order[k])),
        path_score(t, seg, best_path(t, seg, seg.len() - 1, order[k])) == final_score(
            t,
            seg,
            order[k],
        ),
        forall|n: int|
            k < n < order.len() ==> final_score(t, seg, #[trigger] order[n]) <= final_score(
                t,
                seg,
                order[k],
            ),
{
    let last = seg.len() - 1;
    lemma_best_path(t, seg, last, order[k]);
    assert forall|n: int| k < n < order.len() implies final_score(t, seg, #[trigger] order[n])
        <= final_score(t, seg, order[k]) by {
        assert(outranks(final_scores(t, seg), order[k], order[n]));
    }
}

/// No character sequence for `seg` scores above the one that the ranking
/// puts first.
pub proof fn lemma_top_path_is_best(t: Tables, seg: Seq<Seq<char>>, order: Seq<int>, q: Seq<char>)
    requires
        all_known(t, seg),
        seg.len() > 0,
        is_ranking(order, final_scores(t, seg)),
        is_path(t, seg, q),
    ensures
        path_score(t, seg, q) <= path_score(t, seg, best_path(t, seg, seg.len() - 1, order[0])),
{
    let last = seg.len() - 1;
    let col = column(t, seg, last);
    assert(col.contains(q[last]));
    let j = col.index_of(q[last]);
    lemma_cell_optimal(t, seg, q, last, j);
    lemma_ranking_first_is_max(order, final_scores(t, seg), j);
    assert(col.len() > 0);
    lemma_ranked_paths(t, seg, order, 0);
}

/// Every string that decoding gives has one character for each syllable,
/// each a candidate of its syllable, and the strings come in falling order of
/// their scores.
pub proof fn lemma_decoded_paths(t: Tables, seg: Seq<Seq<char>>, k: int)
    requires
        all_known(t, seg),
        0 <= k < emitted(t, seg),
    ensures
        ranked_path(t, seg, k).len() == seg.len(),
        is_path(t, seg, ranked_path(t, seg, k)),
        k > 0 ==> path_score(t, seg, ranked_path(t, seg, k)) <= path_score(
            t,
            seg,
            ranked_path(t, seg, k - 1),
        ),
{
    let order = ranking(final_scores(t, seg));
    lemma_ranking_exists(final_scores(t, seg));
    lemma_ranked_paths(t, seg, order, k);
    if k > 0 {
        lemma_ranked_paths(t, seg, order, k - 1);
    }
}

/// The score of the first string that decoding gives is the largest score
/// of any character sequence that gives each syllable one of its
/// candidates.
pub proof fn lemma_top_score_is_maximal(t: Tables, seg: Seq<Seq<char>>, q: Seq<char>)
    requires
        all_known(t, seg),
        seg.len() > 0,
        is_path(t, seg, q),
    ensures
        emitted(t, seg) > 0,
        is_path(t, seg, ranked_path(t, seg, 0)),
        path_score(t, seg, q) <= path_score(t, seg, ranked_path(t, seg, 0)),
{
    let order = ranking(final_scores(t, seg));
    lemma_ranking_exists(final_scores(t, seg));
    assert(column(t, seg, seg.len() - 1).len() > 0);
    lemma_top_path_is_best(t, seg, order, q);
    lemma_ranked_paths(t, seg, order, 0);
}

/// For one syllable, a candidate's final score is its initial
/// log-probability, its emission and its ending, and each string that
/// decoding gives is one candidate character.
pub proof fn lemma_single_syllable(t: Tables, seg: Seq<Seq<char>>, j: int, k: int)
    requires
        seg.len() == 1,
    ensures
        final_score(t, seg, j) == t.init_of(column(t, seg, 0)[j]) + t.emiss_of(
            column(t, seg, 0)[j],
            seg[0],
        ) + t.eos_of(column(t, seg, 0)[j]),
        ranked_path(t, seg, k) == seq![column(t, seg, 0)[ranking(final_scores(t, seg))[k]]],
{
}

/// Decoding has one outcome: two results for the same tables and the same
/// syllable sequence hold the same ranks and strings and the same warning.
pub proof fn lemma_decoding_unique(
    t: Tables,
    seg: Seq<Seq<char>>,
    first: Seq<(usize, String)>,
    first_warning: bool,
    second: Seq<(usize, String)>,
    second_warning: bool,
)
    requires
        is_decoding(t, seg, first, first_warning),
        is_decoding(t, seg, second, second_warning),
    ensures
        first.len() == second.len(),
        forall|k: int|
            0 <= k < first.len() ==> (#[trigger] first[k]).0 == second[k].0 && first[k].1@
                == second[k].1@,
        first_warning == second_warning,
{
}

/// The score of a prefix of a character sequence is at least `2 * i + 2`
/// floors.
pub proof fn lemma_prefix_bounds(t: Tables, seg: Seq<Seq<char>>, q: Seq<char>, i: int)
    requires
        t.wf(),
        i >= 0,
    ensures
        (2 * i + 2) * MIN_LOG <= prefix_score(t, seg, q, i) <= 0,
    decreases i,
{
    if i > 0 {
        lemma_prefix_bounds(t, seg, q, i - 1);
        lemma_lookup_bounds(t, q[i], q[i - 1], seg[i]);
    } else {
        lemma_lookup_bounds(t, q[0], q[0], seg[0]);
    }
}

/// The warning is given exactly where every character sequence for `seg`
/// has a score made of floors alone.
pub proof fn lemma_degenerate_paths(t: Tables, seg: Seq<Seq<char>>)
    requires
        t.wf(),
        all_known(t, seg),
        seg.len() > 0,
    ensures
        is_degenerate(t, seg) <==> forall|q: Seq<char>|
            is_path(t, seg, q) ==> #[trigger] path_score(t, seg, q) == floor_score(seg.len() as int),
{
    let last = seg.len() - 1;
    let col = column(t, seg, last);
    if is_degenerate(t, seg) {
        assert forall|q: Seq<char>| is_path(t, seg, q) implies #[trigger] path_score(t, seg, q)
            == floor_score(seg.len() as int) by {
            assert(col.contains(q[last]));
            let j = col.index_of(q[last]);
            lemma_cell_optimal(t, seg, q, last, j);
            assert(final_score(t, seg, j) == floor_score(seg.len() as int));
            lemma_prefix_bounds(t, seg, q, last);
            lemma_lookup_bounds(t, q[last], q[last], seg[0]);
        }
    }
    if forall|q: Seq<char>|
        is_path(t, seg, q) ==> #[trigger] path_score(t, seg, q) == floor_score(seg.len() as int) {
        assert forall|j: int| 0 <= j < col.len() implies #[trigger] final_score(t, seg, j)
            == floor_score(seg.len() as int) by {
            lemma_best_path(t, seg, last, j);
            let p = best_path(t, seg, last, j);
            assert(is_path(t, seg, p));
            assert(path_score(t, seg, p) == floor_score(seg.len() as int));
        }
    }
}

/// A sequence in reverse order.
pub open spec fn reversed(s: Seq<char>) -> Seq<char> {
    Seq::new(s.len(), |x: int| s[s.len() - 1 - x])
}

/// The candidate characters of every syllable, or the first syllable that
/// has none.
fn candidate_columns(params: &Params, segmentation: &Vec<String>) -> (r: Result<
    Vec<Vec<char>>,
    DecodeError,
>)
    requires
        params.wf(),
    ensures
        match r {
            Ok(cols) => {
                &&& cols.len() == segmentation.len()
                &&& all_known(params@, segmentation.deep_view())
                &&& forall|i: int|
                    0 <= i < cols.len() ==> (#[trigger] cols[i])@ == column(
                        params@,
                        segmentation.deep_view(),
                        i,
                    )
            },
            Err(DecodeError::UnknownSyllableState(s)) => exists|i: int|
                first_unknown(params@, segmentation.deep_view(), i) && s@
                    == segmentation.deep_view()[i],
        },
{
    let ghost t = params@;
    let ghost seg = segmentation.deep_view();
    let mut cols: Vec<Vec<char>> = Vec::new();
    let mut i: usize = 0;
    while i < segmentation.len()
        invariant
            params.wf(),
            t == params@,
            seg == segmentation.deep_view(),
            i <= segmentation.len(),
            cols.len() == i,
            forall|n: int| 0 <= n < i ==> (#[trigger] cols[n])@ == column(t, seg, n),
            forall|n: int| 0 <= n < i ==> (#[trigger] column(t, seg, n)).len() > 0,
        decreases segmentation.len() - i,
    {
        let list = params.candidates(segmentation[i].as_str());
        assert(seg[i as int] == segmentation[i as int]@);
        if list.len() == 0 {
            assert(first_unknown(t, seg, i as int));
            return Err(DecodeError::UnknownSyllableState(segmentation[i].clone()));
        }
        cols.push(list);
        i += 1;
    }
    Ok(cols)
}

/// The scores of the first column.
fn first_column(
    params: &Params,
    cands: &Vec<char>,
    syllable: &str,
    Ghost(seg): Ghost<Seq<Seq<char>>>,
) -> (scores: Vec<i128>)
    requires
        params.wf(),
        seg.len() > 0,
        seg[0] == syllable@,
        cands@ == column(params@, seg, 0),
    ensures
        scores.len() == cands.len(),
        forall|j: int|
            0 <= j < scores.len() ==> #[trigger] scores[j] == cell_score(params@, seg, 0, j),
{
    let mut scores: Vec<i128> = Vec::new();
    let mut j: usize = 0;
    while j < cands.len()
        invariant
            params.wf(),
            seg[0] == syllable@,
            cands@ == column(params@, seg, 0),
            j <= cands.len(),
            scores.len() == j,
            forall|m: int| 0 <= m < j ==> #[trigger] scores[m] == cell_score(params@, seg, 0, m),
        decreases cands.len() - j,
    {
        let c = cands[j];
        let init = params.init_score(c);
        let emiss = params.emiss_score(c, syllable);
        scores.push(init as i128 + emiss as i128);
        j += 1;
    }
    scores
}

/// The scores and backpointers of column `i`, from the scores of the column
/// before it.
fn next_column(
    params: &Params,
    before: &Vec<i128>,
    before_cands: &Vec<char>,
    cands: &Vec<char>,
    syllable: &str,
    Ghost(seg): Ghost<Seq<Seq<char>>>,
    Ghost(i): Ghost<int>,
) -> (r: (Vec<i128>, Vec<usize>))
    requires
        params.wf(),
        0 < i < seg.len(),
        seg[i] == syllable@,
        cands@ == column(params@, seg, i),
        before_cands@ == column(params@, seg, i - 1),
        before_cands.len() > 0,
        before.len() == before_cands.len(),
        forall|k: int|
            0 <= k < before.len() ==> #[trigger] before[k] == cell_score(params@, seg, i - 1, k),
        i < usize::MAX,
    ensures
        r.0.len() == cands.len(),
        r.1.len() == cands.len(),
        forall|j: int| 0 <= j < cands.len() ==> #[trigger] r.0[j] == cell_score(params@, seg, i, j),
        forall|j: int|
            0 <= j < cands.len() ==> #[trigger] r.1[j] == backpointer(params@, seg, i, j) && r.1[j]
                < before.len(),
{
    let ghost t = params@;
    let mut scores: Vec<i128> = Vec::new();
    let mut backs: Vec<usize> = Vec::new();
    let mut j: usize = 0;
    while j < cands.len()
        invariant
            params.wf(),
            t == params@,
            0 < i < seg.len(),
            i < usize::MAX,
            seg[i] == syllable@,
            cands@ == column(t, seg, i),
            before_cands@ == column(t, seg, i - 1),
            before_cands.len() > 0,
            before.len() == before_cands.len(),
            forall|k: int| 0 <= k < before.len() ==> #[trigger] before[k] == cell_score(t, seg, i - 1, k),
            j <= cands.len(),
            scores.len() == j,
            backs.len() == j,
            forall|m: int| 0 <= m < j ==> #[trigger] scores[m] == cell_score(t, seg, i, m),
            forall|m: int|
                0 <= m < j ==> #[trigger] backs[m] == backpointer(t, seg, i, m) && backs[m]
                    < before.len(),
        decreases cands.len() - j,
    {
        let c = cands[j];
        let emiss = params.emiss_score(c, syllable);
        let trans = params.trans_score(c, before_cands[0]);
        proof {
            lemma_cell_bounds(t, seg, i - 1, 0);
        }
        let mut best: i128 = before[0] + emiss as i128 + trans as i128;
        let mut arg: usize = 0;
        let mut k: usize = 1;
        assert(best == step_score(t, seg, i, j as int, 0));
        assert(best == best_upto(t, seg, i, j as int, 1));
        while k < before.len()
            invariant
                params.wf(),
                t == params@,
                0 < i < seg.len(),
                i < usize::MAX,
                seg[i] == syllable@,
                cands@ == column(t, seg, i),
                before_cands@ == column(t, seg, i - 1),
                before.len() == before_cands.len(),
                forall|n: int|
                    0 <= n < before.len() ==> #[trigger] before[n] == cell_score(t, seg, i - 1, n),
                j < cands.len(),
                c == cands[j as int],
                emiss == t.emiss_of(c, seg[i]),
                1 <= k <= before.len(),
                best == best_upto(t, seg, i, j as int, k as int),
                arg == arg_upto(t, seg, i, j as int, k as int),
                arg < k,
            decreases before.len() - k,
        {
            let trans = params.trans_score(c, before_cands[k]);
            proof {
                lemma_cell_bounds(t, seg, i - 1, k as int);
            }
            let step: i128 = before[k] + emiss as i128 + trans as i128;
            assert(step == step_score(t, seg, i, j as int, k as int));
            if step > best {
                best = step;
                arg = k;
            }
            k += 1;
        }
        scores.push(best);
        backs.push(arg);
        j += 1;
    }
    (scores, backs)
}

/// Whether `cols` and `backs` hold the candidates and the backpointers of
/// every column of `seg`.
pub open spec fn is_trellis(
    t: Tables,
    seg: Seq<Seq<char>>,
    cols: Seq<Vec<char>>,
    backs: Seq<Vec<usize>>,
    upto: int,
) -> bool {
    &&& all_known(t, seg)
    &&& cols.len() == seg.len()
    &&& backs.len() == upto
    &&& forall|i: int| 0 <= i < cols.len() ==> (#[trigger] cols[i])@ == column(t, seg, i)
    &&& forall|i: int| 1 <= i < upto ==> (#[trigger] backs[i]).len() == cols[i].len()
    &&& forall|i: int, m: int|
        1 <= i < upto && 0 <= m < cols[i].len() ==> #[trigger] backs[i][m] == backpointer(
            t,
            seg,
            i,
            m,
        ) && backs[i][m] < cols[i - 1].len()
}

/// The characters on the backpointer path that ends in candidate `j` of the
/// last column, first column first.
fn trace_back(
    cols: &Vec<Vec<char>>,
    backs: &Vec<Vec<usize>>,
    j: usize,
    Ghost(t): Ghost<Tables>,
    Ghost(seg): Ghost<Seq<Seq<char>>>,
) -> (text: String)
    requires
        seg.len() > 0,
        is_trellis(t, seg, cols@, backs@, seg.len() as int),
        j < cols[seg.len() - 1].len(),
    ensures
        text@ == best_path(t, seg, seg.len() - 1, j as int),
{
    let len: usize = cols.len();
    let ghost full = best_path(t, seg, len - 1, j as int);
    let mut rev: Vec<char> = Vec::new();
    let mut i: usize = len - 1;
    let mut cur: usize = j;
    proof {
        lemma_best_path(t, seg, i as int, cur as int);
        assert(full =~= best_path(t, seg, i as int, cur as int) + reversed(rev@));
    }
    while i > 0
        invariant
            len == seg.len(),
            is_trellis(t, seg, cols@, backs@, seg.len() as int),
            i < len,
            cur < cols[i as int].len(),
            rev.len() == len - 1 - i,
            best_path(t, seg, i as int, cur as int).len() == i + 1,
            full == best_path(t, seg, i as int, cur as int) + reversed(rev@),
        decreases i,
    {
        let ghost here = best_path(t, seg, i as int, cur as int);
        let ghost old_rev = rev@;
        let c = cols[i][cur];
        rev.push(c);
        cur = backs[i][cur];
        i -= 1;
        proof {
            let next = best_path(t, seg, i as int, cur as int);
            lemma_best_path(t, seg, i as int, cur as int);
            assert(here == next.push(c));
            assert(next.push(c) + reversed(old_rev) =~= next + reversed(rev@));
        }
    }
    rev.push(cols[0][cur]);
    assert(full =~= reversed(rev@));
    let mut text = String::new();
    let mut m: usize = rev.len();
    while m > 0
        invariant
            m <= rev.len(),
            text@ == reversed(rev@).subrange(0, rev.len() - m),
        decreases m,
    {
        m -= 1;
        text.push(rev[m]);
        assert(text@ =~= reversed(rev@).subrange(0, rev.len() - m));
    }
    assert(text@ =~= reversed(rev@));
    text
}

/// Decodes one syllable sequence: the Viterbi search through the candidate
/// characters of each syllable, then the best `TOP_K` final candidates,
/// each with the characters on its backpointer path. An empty sequence gives
/// no candidate.
pub fn decode(params: &Params, segmentation: &Vec<String>) -> (r: Result<Decoded, DecodeError>)
    requires
        params.wf(),
    ensures
        match r {
            Ok(d) => all_known(params@, segmentation.deep_view()) && is_decoding(
                params@,
                segmentation.deep_view(),
                d.candidates@,
                d.degenerate,
            ),
            Err(DecodeError::UnknownSyllableState(s)) => exists|i: int|
                first_unknown(params@, segmentation.deep_view(), i) && s@
                    == segmentation.deep_view()[i],
        },
        r is Ok ==> forall|k: int|
            0 <= k < r->Ok_0.candidates.len() ==> is_path(
                params@,
                segmentation.deep_view(),
                (#[trigger] r->Ok_0.candidates[k]).1@,
            ),
        r is Ok ==> forall|k: int|
            0 < k < r->Ok_0.candidates.len() ==> path_score(
                params@,
                segmentation.deep_view(),
                (#[trigger] r->Ok_0.candidates[k]).1@,
            ) <= path_score(params@, segmentation.deep_view(), r->Ok_0.candidates[k - 1].1@),
        r is Ok && segmentation.len() > 0 ==> r->Ok_0.candidates.len() > 0 && forall|q: Seq<char>|
            is_path(params@, segmentation.deep_view(), q) ==> #[trigger] path_score(
                params@,
                segmentation.deep_view(),
                q,
            ) <= path_score(params@, segmentation.deep_view(), r->Ok_0.candidates[0].1@),
        r is Ok ==> (r->Ok_0.degenerate <==> segmentation.len() > 0 && forall|q: Seq<char>|
            is_path(params@, segmentation.deep_view(), q) ==> #[trigger] path_score(
                params@,
                segmentation.deep_view(),
                q,
            ) == floor_score(segmentation.len() as int)),
{
    let ghost t = params@;
    let ghost seg = segmentation.deep_view();
    let len: usize = segmentation.len();
    let cols = match candidate_columns(params, segmentation) {
        Ok(cols) => cols,
        Err(e) => {
            return Err(e);
        },
    };
    if len == 0 {
        return Ok(Decoded { candidates: Vec::new(), degenerate: false });
    }
    assert(column(t, seg, 0).len() > 0);
    let mut scores: Vec<Vec<i128>> = Vec::new();
    let mut backs: Vec<Vec<usize>> = Vec::new();
    assert(seg[0] == segmentation[0]@);
    scores.push(first_column(params, &cols[0], segmentation[0].as_str(), Ghost(seg)));
    backs.push(Vec::new());
    let mut i: usize = 1;
    while i < len
        invariant
            params.wf(),
            t == params@,
            seg == segmentation.deep_view(),
            len == segmentation.len(),
            1 <= i <= len,
            scores.len() == i,
            is_trellis(t, seg, cols@, backs@, i as int),
            forall|n: int| 0 <= n < i ==> (#[trigger] scores[n]).len() == cols[n].len(),
            forall|n: int, m: int|
                0 <= n < i && 0 <= m < cols[n].len() ==> #[trigger] scores[n][m] == cell_score(
                    t,
                    seg,
                    n,
                    m,
                ),
        decreases len - i,
    {
        assert(seg[i as int] == segmentation[i as int]@);
        assert(column(t, seg, i - 1).len() > 0);
        let (next, back) = next_column(
            params,
            &scores[i - 1],
            &cols[i - 1],
            &cols[i],
            segmentation[i].as_str(),
            Ghost(seg),
            Ghost(i as int),
        );
        scores.push(next);
        backs.push(back);
        i += 1;
    }
    let last: usize = len - 1;
    let mut finals: Vec<i128> = Vec::new();
    let mut j: usize = 0;
    while j < cols[last].len()
        invariant
            params.wf(),
            t == params@,
            len == seg.len(),
            last == len - 1,
            scores.len() == len,
            is_trellis(t, seg, cols@, backs@, len as int),
            scores[last as int].len() == cols[last as int].len(),
            forall|m: int|
                0 <= m < cols[last as int].len() ==> #[trigger] scores[last as int][m]
                    == cell_score(t, seg, last as int, m),
            j <= cols[last as int].len(),
            finals.len() == j,
            forall|m: int| 0 <= m < j ==> #[trigger] finals[m] == final_score(t, seg, m),
        decreases cols[last as int].len() - j,
    {
        let eos = params.eos_score(cols[last][j]);
        proof {
            lemma_cell_bounds(t, seg, last as int, j as int);
        }
        finals.push(scores[last][j] + eos as i128);
        j += 1;
    }
    let order = rank_scores(&finals);
    let ghost places = index_values(order@);
    assert(score_values(finals@) =~= final_scores(t, seg));
    assert(places == ranking(final_scores(t, seg)));
    let count: usize = if cols[last].len() < TOP_K {
        cols[last].len()
    } else {
        TOP_K
    };
    let mut candidates: Vec<(usize, String)> = Vec::new();
    let mut k: usize = 0;
    while k < count
        invariant
            len == seg.len(),
            len > 0,
            last == len - 1,
            is_trellis(t, seg, cols@, backs@, len as int),
            is_ranking(places, final_scores(t, seg)),
            places == index_values(order@),
            places == ranking(final_scores(t, seg)),
            count <= cols[last as int].len(),
            k <= count,
            candidates.len() == k,
            forall|n: int|
                0 <= n < k ==> (#[trigger] candidates[n]).0 == n && candidates[n].1@ == ranked_path(
                    t,
                    seg,
                    n,
                ),
        decreases count - k,
    {
        assert(0 <= places[k as int] < cols[last as int].len());
        let text = trace_back(&cols, &backs, order[k], Ghost(t), Ghost(seg));
        candidates.push((k, text));
        k += 1;
    }
    assert(0 <= places[0] < cols[last as int].len());
    let top: i128 = finals[order[0]];
    let terms: i128 = 2 * (len as i128) + 1;
    assert(-40_000_000_000_000_000_000_000_000_000_000_000 <= terms * MIN_LOG <= 0)
        by (nonlinear_arith)
        requires
            1 <= terms <= 40_000_000_000_000_000_000,
            MIN_LOG == -1_000_000_000_000_000,
    ;
    let floor: i128 = terms * (MIN_LOG as i128);
    let degenerate = top == floor;
    proof {
        assert(floor == floor_score(len as int));
        if degenerate {
            assert forall|m: int| 0 <= m < column(t, seg, seg.len() - 1).len() implies #[trigger] final_score(
                t,
                seg,
                m,
            ) == floor_score(seg.len() as int) by {
                lemma_ranking_first_is_max(places, final_scores(t, seg), m);
                lemma_cell_bounds(t, seg, last as int, m);
                let c = column(t, seg, last as int)[m];
                lemma_lookup_bounds(t, c, c, seg[0]);
            }
        } else {
            assert(final_score(t, seg, places[0]) != floor_score(seg.len() as int));
        }
        lemma_degenerate_paths(t, seg);
        assert forall|n: int| 0 <= n < candidates.len() implies is_path(
            t,
            seg,
            (#[trigger] candidates[n]).1@,
        ) by {
            lemma_ranked_paths(t, seg, places, n);
        }
        assert forall|n: int| 0 < n < candidates.len() implies path_score(
            t,
            seg,
            (#[trigger] candidates[n]).1@,
        ) <= path_score(t, seg, candidates[n - 1].1@) by {
            lemma_ranked_paths(t, seg, places, n);
            lemma_ranked_paths(t, seg, places, n - 1);
        }
        assert forall|q: Seq<char>| is_path(t, seg, q) implies #[trigger] path_score(t, seg, q)
            <= path_score(t, seg, candidates[0].1@) by {
            lemma_top_path_is_best(t, seg, places, q);
        }
    }
    Ok(Decoded { candidates, degenerate })
}

} // verus!
