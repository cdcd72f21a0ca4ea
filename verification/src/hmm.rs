//! The model: the syllable vocabulary with the parameter tables, and the
//! conversion of a pinyin string into ranked character strings.

use crate::decode::{
    decode, emitted, first_unknown, is_degenerate, ranked_path, DecodeError,
};
use crate::merge::{
    lemma_merge_keeps_list_order, lemma_merged_nothing, merge, merged, place, ranked_by_position,
};
use crate::params::{is_lower, Params, Tables};
use crate::segment::{
    contains_word, lemma_foreign_char_no_segmentation, pysplict, segmentations,
};
use crate::viterbi::all_known;
use crate::vocab::{lemma_vocabulary_shape, syllable_vocabulary, vocabulary};
use vstd::prelude::*;

verus! {

/// The ranked candidates that decoding `seg` gives.
pub open spec fn decoding(t: Tables, seg: Seq<Seq<char>>) -> Seq<(usize, Seq<char>)> {
    Seq::new(emitted(t, seg) as nat, |k: int| (k as usize, ranked_path(t, seg, k)))
}

/// The ranked candidates of each syllable sequence of `segs`.
pub open spec fn decodings(t: Tables, segs: Seq<Seq<Seq<char>>>) -> Seq<Seq<(usize, Seq<char>)>> {
    Seq::new(segs.len(), |n: int| decoding(t, segs[n]))
}

/// The character strings for the pinyin string `code`: the candidates of
/// all its segmentations over `vocab`, merged by rank.
pub open spec fn translation(t: Tables, vocab: Seq<Seq<char>>, code: Seq<char>) -> Seq<Seq<char>> {
    merged(decodings(t, segmentations(vocab, code)))
}

/// Whether one of the first `n` syllable sequences of `segs` has scores made
/// of floors alone.
pub open spec fn any_degenerate(t: Tables, segs: Seq<Seq<Seq<char>>>, n: int) -> bool {
    exists|m: int| 0 <= m < n && is_degenerate(t, #[trigger] segs[m])
}

/// Whether `segs[n]` is the first syllable sequence of `segs` that holds a
/// syllable without a candidate, and `i` the place of the first such
/// syllable in it.
pub open spec fn first_failure(t: Tables, segs: Seq<Seq<Seq<char>>>, n: int, i: int) -> bool {
    &&& 0 <= n < segs.len()
    &&& first_unknown(t, segs[n], i)
    &&& forall|m: int| 0 <= m < n ==> all_known(t, #[trigger] segs[m])
}

/// Whether `results` and `degenerate` are what converting `code` gives:
/// every syllable of every segmentation has a candidate, the results are the
/// merged candidates, and the warning tells whether a segmentation has
/// scores made of floors alone.
pub open spec fn is_translation(
    t: Tables,
    code: Seq<char>,
    results: Seq<Seq<char>>,
    degenerate: bool,
) -> bool {
    let segs = segmentations(vocabulary(), code);
    &&& forall|n: int| 0 <= n < segs.len() ==> all_known(t, #[trigger] segs[n])
    &&& results == translation(t, vocabulary(), code)
    &&& degenerate == any_degenerate(t, segs, segs.len() as int)
}

/// Converting has one outcome: two results for the same tables and the same
/// pinyin string are the same, character for character.
pub proof fn lemma_translation_unique(
    t: Tables,
    code: Seq<char>,
    first: Seq<Seq<char>>,
    first_warning: bool,
    second: Seq<Seq<char>>,
    second_warning: bool,
)
    requires
        is_translation(t, code, first, first_warning),
        is_translation(t, code, second, second_warning),
    ensures
        first == second,
        first_warning == second_warning,
{
}

/// A pinyin string with a character that is no letter `a` to `z` has no
/// segmentation over the vocabulary.
pub proof fn lemma_malformed_input(code: Seq<char>, i: int)
    requires
        0 <= i < code.len(),
        !is_lower(code[i]),
    ensures
        segmentations(vocabulary(), code).len() == 0,
{
    let vocab = vocabulary();
    assert forall|j: int| 0 <= j < vocab.len() implies !(#[trigger] vocab[j]).contains(code[i]) by {
        assert(vocab.contains(vocab[j]));
        lemma_vocabulary_shape(vocab[j]);
        if vocab[j].contains(code[i]) {
            let m = vocab[j].index_of(code[i]);
            assert(is_lower(vocab[j][m]));
        }
    }
    lemma_foreign_char_no_segmentation(vocab, code, i);
}

/// In the character strings for `code`, the candidate of rank `k` of an
/// earlier segmentation stands before the candidate of rank `k` of a later
/// one.
pub proof fn lemma_translation_keeps_segmentation_order(
    t: Tables,
    vocab: Seq<Seq<char>>,
    code: Seq<char>,
    a: int,
    b: int,
    k: int,
)
    requires
        0 <= a < b < segmentations(vocab, code).len(),
        0 <= k < emitted(t, segmentations(vocab, code)[a]),
        k < emitted(t, segmentations(vocab, code)[b]),
    ensures
        ({
            let segs = segmentations(vocab, code);
            let lists = decodings(t, segs);
            let out = translation(t, vocab, code);
            &&& place(lists, a, k) < place(lists, b, k) < out.len()
            &&& out[place(lists, a, k)] == ranked_path(t, segs[a], k)
            &&& out[place(lists, b, k)] == ranked_path(t, segs[b], k)
        }),
{
    let segs = segmentations(vocab, code);
    let lists = decodings(t, segs);
    assert(ranked_by_position(lists));
    lemma_merge_keeps_list_order(lists, a, b, k);
}

/// The result of converting a pinyin string.
#[derive(Debug, PartialEq, Eq)]
pub struct Translation {
    /// The character strings, best hypotheses first.
    pub results: Vec<String>,
    /// A warning: for at least one segmentation no table held an entry for
    /// any step, so its candidates are ranked by floors alone.
    pub degenerate: bool,
}

/// The model.
pub struct HMM {
    py_list: Vec<String>,
    params: Params,
}

impl HMM {
    /// The parameter tables of the model.
    pub closed spec fn tables(&self) -> Tables {
        self.params@
    }

    /// The model's validity: it holds the syllable vocabulary and valid
    /// tables.
    pub closed spec fn wf(&self) -> bool {
        &&& self.py_list.deep_view() == vocabulary()
        &&& self.params.wf()
    }

    /// A model over the syllable vocabulary with the tables `params`.
    pub fn new(params: Params) -> (hmm: HMM)
        requires
            params.wf(),
        ensures
            hmm.wf(),
            hmm.tables() == params@,
    {
        HMM { py_list: syllable_vocabulary(), params }
    }

    /// The syllables of the vocabulary, in the order in which it is built.
    pub fn syllables(&self) -> (list: &Vec<String>)
        requires
            self.wf(),
        ensures
            list.deep_view() == vocabulary(),
    {
        &self.py_list
    }

    /// The parameter tables.
    pub fn params(&self) -> (params: &Params)
        requires
            self.wf(),
        ensures
            params.wf(),
            params@ == self.tables(),
    {
        &self.params
    }

    /// Whether `s` is a syllable of the vocabulary.
    pub fn is_syllable(&self, s: &str) -> (known: bool)
        requires
            self.wf(),
        ensures
            known == vocabulary().contains(s@),
    {
        let word = String::from_str(s);
        contains_word(&self.py_list, &word)
    }

    /// Converts the pinyin string `code`: splits it into every legal syllable
    /// sequence, decodes each, and merges the candidates by rank. A string
    /// without a legal split gives no result. The conversion fails on the
    /// first syllable sequence that holds a syllable without a candidate
    /// character, and names its first such syllable.
    pub fn trans(&self, code: &str) -> (r: Result<Translation, DecodeError>)
        requires
            self.wf(),
        ensures
            match r {
                Ok(out) => is_translation(
                    self.tables(),
                    code@,
                    out.results.deep_view(),
                    out.degenerate,
                ),
                Err(DecodeError::UnknownSyllableState(s)) => exists|n: int, i: int|
                    #[trigger] first_failure(self.tables(), segmentations(vocabulary(), code@), n, i)
                        && s@ == segmentations(vocabulary(), code@)[n][i],
            },
            segmentations(vocabulary(), code@).len() == 0 ==> r is Ok && r->Ok_0.results.len() == 0
                && !r->Ok_0.degenerate,
            code@.len() == 0 ==> r is Ok && r->Ok_0.results.len() == 0,
    {
        let ghost t = self.params@;
        let seq = pysplict(code, &self.py_list);
        let ghost segs = segmentations(vocabulary(), code@);
        let mut all: Vec<Vec<(usize, String)>> = Vec::new();
        let mut degenerate: bool = false;
        let mut n: usize = 0;
        assert(all.deep_view() =~= decodings(t, segs).take(0));
        while n < seq.len()
            invariant
                self.wf(),
                t == self.params@,
                segs == seq.deep_view(),
                segs == segmentations(vocabulary(), code@),
                n <= seq.len(),
                all.deep_view() == decodings(t, segs).take(n as int),
                forall|m: int| 0 <= m < n ==> all_known(t, #[trigger] segs[m]),
                degenerate == any_degenerate(t, segs, n as int),
            decreases seq.len() - n,
        {
            assert(segs[n as int] == seq[n as int].deep_view());
            match decode(&self.params, &seq[n]) {
                Ok(d) => {
                    let ghost before = all.deep_view();
                    proof {
                        assert(d.candidates.deep_view() =~= decoding(t, segs[n as int]));
                        if d.degenerate {
                            assert(is_degenerate(t, segs[n as int]));
                        }
                    }
                    if d.degenerate {
                        degenerate = true;
                    }
                    all.push(d.candidates);
                    assert(all.deep_view() =~= before.push(decoding(t, segs[n as int])));
                    assert(all.deep_view() =~= decodings(t, segs).take(n + 1));
                },
                Err(e) => {
                    proof {
                        let s = e->UnknownSyllableState_0;
                        let i = choose|i: int|
                            first_unknown(t, segs[n as int], i) && s@ == segs[n as int][i];
                        assert(first_failure(
                            self.tables(),
                            segmentations(vocabulary(), code@),
                            n as int,
                            i,
                        ) && s@ == segmentations(vocabulary(), code@)[n as int][i]);
                    }
                    return Err(e);
                },
            }
            n += 1;
        }
        assert(decodings(t, segs).take(seq.len() as int) =~= decodings(t, segs));
        let results = merge(&all);
        proof {
            if segs.len() == 0 {
                lemma_merged_nothing(decodings(t, segs));
            }
        }
        Ok(Translation { results, degenerate })
    }
}

} // verus!
