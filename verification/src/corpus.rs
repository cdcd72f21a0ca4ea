//! Reading character sequences out of a text corpus.

use vstd::prelude::*;

verus! {

/// Whether `c` is one of the CJK unified ideographs U+4E00 to U+9FA5.
pub open spec fn is_cjk(c: char) -> bool {
    0x4e00 <= c as int <= 0x9fa5
}

/// Where the run of ideographs that ends just before position `i` begins;
/// `i` itself where no ideograph stands before `i`.
pub open spec fn run_start(text: Seq<char>, i: int) -> int
    decreases i,
{
    if i > 0 && is_cjk(text[i - 1]) {
        run_start(text, i - 1)
    } else {
        i
    }
}

/// Whether a run of ideographs ends just before position `n`: an ideograph
/// stands before `n`, and none at `n`.
pub open spec fn run_ends_at(text: Seq<char>, n: int) -> bool {
    &&& 0 < n <= text.len()
    &&& is_cjk(text[n - 1])
    &&& (n == text.len() || !is_cjk(text[n]))
}

/// The maximal runs of two or more ideographs that end at or before
/// position `n`, in their order in the text.
pub open spec fn runs_before(text: Seq<char>, n: int) -> Seq<Seq<char>>
    decreases n,
{
    if n <= 0 {
        Seq::empty()
    } else if run_ends_at(text, n) && n - run_start(text, n) >= 2 {
        runs_before(text, n - 1).push(text.subrange(run_start(text, n), n))
    } else {
        runs_before(text, n - 1)
    }
}

/// The character sequences of a text: its maximal runs of two or more
/// ideographs.
pub open spec fn sequences(text: Seq<char>) -> Seq<Seq<char>> {
    runs_before(text, text.len() as int)
}

/// A run begins at or before its end, after a character that is no
/// ideograph, and holds ideographs only.
pub proof fn lemma_run_start(text: Seq<char>, i: int)
    requires
        0 <= i <= text.len(),
    ensures
        0 <= run_start(text, i) <= i,
        run_start(text, i) > 0 ==> !is_cjk(text[run_start(text, i) - 1]),
        forall|m: int| run_start(text, i) <= m < i ==> is_cjk(#[trigger] text[m]),
    decreases i,
{
    if i > 0 && is_cjk(text[i - 1]) {
        lemma_run_start(text, i - 1);
    }
}

/// Every sequence of a text holds two or more characters, all of them
/// ideographs.
pub proof fn lemma_runs_shape(text: Seq<char>, n: int, k: int)
    requires
        0 <= n <= text.len(),
        0 <= k < runs_before(text, n).len(),
    ensures
        runs_before(text, n)[k].len() >= 2,
        forall|m: int|
            0 <= m < runs_before(text, n)[k].len() ==> is_cjk(#[trigger] runs_before(text, n)[k][m]),
    decreases n,
{
    let earlier = runs_before(text, n - 1);
    if k < earlier.len() {
        lemma_runs_shape(text, n - 1, k);
    } else {
        lemma_run_start(text, n);
        let from = run_start(text, n);
        let run = text.subrange(from, n);
        assert forall|m: int| 0 <= m < run.len() implies is_cjk(#[trigger] run[m]) by {
            assert(run[m] == text[from + m]);
        }
    }
}

/// Whether `c` is one of the CJK unified ideographs U+4E00 to U+9FA5.
pub fn is_cjk_char(c: char) -> (b: bool)
    ensures
        b == is_cjk(c),
{
    let n: u32 = c as u32;
    0x4e00 <= n && n <= 0x9fa5
}

/// The characters of `text`.
pub fn chars_of(text: &str) -> (chars: Vec<char>)
    ensures
        chars@ == text@,
{
    let mut chars: Vec<char> = Vec::new();
    for c in it: text.chars()
        invariant
            it.seq() == text@,
            chars@ == text@.take(it.index() as int),
    {
        chars.push(c);
        assert(chars@ =~= text@.take(it.index() + 1));
    }
    assert(text@.take(text@.len() as int) =~= text@);
    chars
}

/// The characters of `chars` from `from` up to `to`, as a string.
pub fn string_of(chars: &Vec<char>, from: usize, to: usize) -> (text: String)
    requires
        from <= to <= chars.len(),
    ensures
        text@ == chars@.subrange(from as int, to as int),
{
    let mut text = String::new();
    let mut i: usize = from;
    while i < to
        invariant
            from <= i <= to <= chars.len(),
            text@ == chars@.subrange(from as int, i as int),
        decreases to - i,
    {
        text.push(chars[i]);
        assert(text@ =~= chars@.subrange(from as int, i + 1));
        i += 1;
    }
    text
}

/// The character sequences of `text`: every maximal run of two or more CJK
/// unified ideographs, in the order of the text.
pub fn extract_sequences(text: &str) -> (seqs: Vec<String>)
    ensures
        seqs.deep_view() == sequences(text@),
        forall|k: int|
            0 <= k < seqs.len() ==> (#[trigger] seqs.deep_view()[k]).len() >= 2 && forall|m: int|
                0 <= m < seqs.deep_view()[k].len() ==> is_cjk(#[trigger] seqs.deep_view()[k][m]),
{
    let chars = chars_of(text);
    let n: usize = chars.len();
    let mut seqs: Vec<String> = Vec::new();
    let mut start: usize = 0;
    let mut i: usize = 0;
    assert(seqs.deep_view() =~= runs_before(chars@, 0));
    while i < n
        invariant
            n == chars.len(),
            start <= i <= n,
            start == run_start(chars@, i as int),
            seqs.deep_view() == runs_before(chars@, i as int),
        decreases n - i,
    {
        let ghost before = seqs.deep_view();
        if is_cjk_char(chars[i]) {
            if (i + 1 == n || !is_cjk_char(chars[i + 1])) && i + 1 - start >= 2 {
                let run = string_of(&chars, start, i + 1);
                seqs.push(run);
                assert(seqs.deep_view() =~= before.push(chars@.subrange(start as int, i + 1)));
            }
        } else {
            start = i + 1;
        }
        i += 1;
    }
    proof {
        assert forall|k: int| 0 <= k < seqs.len() implies (#[trigger] seqs.deep_view()[k]).len() >= 2
            && forall|m: int|
            0 <= m < seqs.deep_view()[k].len() ==> is_cjk(#[trigger] seqs.deep_view()[k][m]) by {
            lemma_runs_shape(text@, text@.len() as int, k);
        }
    }
    seqs
}

} // verus!
