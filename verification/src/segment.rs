//! Splitting an unseparated pinyin string into syllable sequences.

use vstd::prelude::*;

verus! {

/// A legal segmentation of `w` over `vocab`: a non-empty sequence of non-empty
/// vocabulary entries whose concatenation is `w`.
pub open spec fn is_segmentation(vocab: Seq<Seq<char>>, w: Seq<char>, s: Seq<Seq<char>>) -> bool {
    &&& s.len() > 0
    &&& s.flatten() == w
    &&& forall|i: int| 0 <= i < s.len() ==> (#[trigger] s[i]).len() > 0 && vocab.contains(s[i])
}

/// Every sequence of `tails` with `head` put in front of it.
pub open spec fn prepend_each(head: Seq<char>, tails: Seq<Seq<Seq<char>>>) -> Seq<Seq<Seq<char>>> {
    Seq::new(tails.len(), |i: int| seq![head] + tails[i])
}

/// Every sequence of `segs` with the syllables of `path` put in front of it.
pub open spec fn with_prefix(path: Seq<Seq<char>>, segs: Seq<Seq<Seq<char>>>) -> Seq<Seq<Seq<char>>> {
    Seq::new(segs.len(), |i: int| path + segs[i])
}

/// The segmentations of `w` whose first syllable has at most `k` characters,
/// ordered by the length of the first syllable, shortest first, and among
/// equal first syllables by the same rule on the rest.
pub open spec fn splits_upto(vocab: Seq<Seq<char>>, w: Seq<char>, k: int) -> Seq<Seq<Seq<char>>>
    decreases w.len(), k,
{
    if k <= 0 || k > w.len() {
        Seq::empty()
    } else {
        splits_upto(vocab, w, k - 1) + splits_at(vocab, w, k)
    }
}

/// The segmentations of `w` whose first syllable has exactly `k` characters.
pub open spec fn splits_at(vocab: Seq<Seq<char>>, w: Seq<char>, k: int) -> Seq<Seq<Seq<char>>>
    decreases w.len(), 0int,
    when 0 < k <= w.len()
{
    let head = w.subrange(0, k);
    let rest = w.subrange(k, w.len() as int);
    if !vocab.contains(head) {
        Seq::empty()
    } else if k == w.len() {
        seq![seq![head]]
    } else {
        prepend_each(head, splits_upto(vocab, rest, rest.len() as int))
    }
}

/// All segmentations of `w` over `vocab`, shorter first syllable first,
/// depth first. The empty string has none.
pub open spec fn segmentations(vocab: Seq<Seq<char>>, w: Seq<char>) -> Seq<Seq<Seq<char>>> {
    splits_upto(vocab, w, w.len() as int)
}

proof fn lemma_with_prefix_append(path: Seq<Seq<char>>, a: Seq<Seq<Seq<char>>>, b: Seq<Seq<Seq<char>>>)
    ensures
        with_prefix(path, a + b) == with_prefix(path, a) + with_prefix(path, b),
{
    assert(with_prefix(path, a + b) =~= with_prefix(path, a) + with_prefix(path, b));
}

proof fn lemma_with_prefix_prepend(path: Seq<Seq<char>>, head: Seq<char>, tails: Seq<Seq<Seq<char>>>)
    ensures
        with_prefix(path, prepend_each(head, tails)) == with_prefix(path.push(head), tails),
{
    assert forall|i: int| 0 <= i < tails.len() implies path + (seq![head] + tails[i]) == path.push(
        head,
    ) + tails[i] by {
        assert(path + (seq![head] + tails[i]) =~= path.push(head) + tails[i]);
    }
    assert(with_prefix(path, prepend_each(head, tails)) =~= with_prefix(path.push(head), tails));
}

/// Putting one syllable in front of a sequence puts its characters in front of
/// the concatenation.
proof fn lemma_flatten_cons(head: Seq<char>, tail: Seq<Seq<char>>)
    ensures
        (seq![head] + tail).flatten() == head + tail.flatten(),
{
    let s = seq![head] + tail;
    assert(s.first() == head);
    assert(s.drop_first() =~= tail);
}

/// Every sequence listed by `splits_upto` is a legal segmentation of `w`.
pub proof fn lemma_splits_sound(vocab: Seq<Seq<char>>, w: Seq<char>, k: int, n: int)
    requires
        0 <= n < splits_upto(vocab, w, k).len(),
    ensures
        is_segmentation(vocab, w, splits_upto(vocab, w, k)[n]),
    decreases w.len(), k,
{
    let earlier = splits_upto(vocab, w, k - 1);
    if n < earlier.len() {
        lemma_splits_sound(vocab, w, k - 1, n);
    } else {
        let m = n - earlier.len();
        let head = w.subrange(0, k);
        let rest = w.subrange(k, w.len() as int);
        let s = splits_at(vocab, w, k)[m];
        if k == w.len() {
            assert(head =~= w);
            s.lemma_flatten_one_element();
        } else {
            let tails = splits_upto(vocab, rest, rest.len() as int);
            lemma_splits_sound(vocab, rest, rest.len() as int, m);
            lemma_flatten_cons(head, tails[m]);
            assert(head + rest =~= w);
            assert forall|i: int| 0 <= i < s.len() implies (#[trigger] s[i]).len() > 0
                && vocab.contains(s[i]) by {
                if i > 0 {
                    assert(s[i] == tails[m][i - 1]);
                }
            }
        }
    }
}

/// What `splits_at` lists for a first syllable of `k` characters is listed by
/// `splits_upto` for every bound from `k` on.
proof fn lemma_splits_at_within(vocab: Seq<Seq<char>>, w: Seq<char>, k: int, n: int, s: Seq<Seq<char>>)
    requires
        0 < k <= n <= w.len(),
        splits_at(vocab, w, k).contains(s),
    ensures
        splits_upto(vocab, w, n).contains(s),
    decreases n,
{
    let earlier = splits_upto(vocab, w, n - 1);
    let here = splits_at(vocab, w, n);
    if k == n {
        let m = here.index_of(s);
        assert((earlier + here)[earlier.len() + m] == s);
    } else {
        lemma_splits_at_within(vocab, w, k, n - 1, s);
        let m = earlier.index_of(s);
        assert((earlier + here)[m] == s);
    }
}

/// Every legal segmentation of `w` is listed by `segmentations`.
pub proof fn lemma_segmentations_complete(vocab: Seq<Seq<char>>, w: Seq<char>, s: Seq<Seq<char>>)
    requires
        is_segmentation(vocab, w, s),
    ensures
        segmentations(vocab, w).contains(s),
    decreases s.len(),
{
    let head = s[0];
    let tail = s.drop_first();
    let k = head.len() as int;
    assert(s =~= seq![head] + tail);
    lemma_flatten_cons(head, tail);
    assert(w.subrange(0, k) =~= head);
    let rest = w.subrange(k, w.len() as int);
    assert(rest =~= tail.flatten());
    if tail.len() == 0 {
        assert(head =~= w);
        assert(s =~= seq![head]);
        assert(splits_at(vocab, w, k)[0] == s);
    } else {
        assert(tail[0].len() > 0);
        assert(tail.flatten().len() > 0) by {
            assert(tail =~= seq![tail[0]] + tail.drop_first());
            lemma_flatten_cons(tail[0], tail.drop_first());
        }
        assert(is_segmentation(vocab, rest, tail)) by {
            assert forall|i: int| 0 <= i < tail.len() implies (#[trigger] tail[i]).len() > 0
                && vocab.contains(tail[i]) by {
                assert(tail[i] == s[i + 1]);
            }
        }
        lemma_segmentations_complete(vocab, rest, tail);
        let tails = segmentations(vocab, rest);
        let m = tails.index_of(tail);
        assert(prepend_each(head, tails)[m] == s);
    }
    lemma_splits_at_within(vocab, w, k, w.len() as int, s);
}

/// Whether `s` and `t` hold the same syllables before position `d` and `s`
/// holds the shorter syllable at `d`.
pub open spec fn shorter_at(s: Seq<Seq<char>>, t: Seq<Seq<char>>, d: int) -> bool {
    &&& 0 <= d < s.len()
    &&& d < t.len()
    &&& s.take(d) == t.take(d)
    &&& s[d].len() < t[d].len()
}

/// Whether `s` comes before `t` in the order of the segmenter: where they
/// first differ, `s` holds the shorter syllable.
pub open spec fn comes_before(s: Seq<Seq<char>>, t: Seq<Seq<char>>) -> bool {
    exists|d: int| shorter_at(s, t, d)
}

/// The first syllable of what `splits_upto` lists has at most `k`
/// characters, and exactly `k` where `splits_at` lists it.
proof fn lemma_splits_first(vocab: Seq<Seq<char>>, w: Seq<char>, k: int, n: int)
    requires
        0 <= n < splits_upto(vocab, w, k).len(),
    ensures
        splits_upto(vocab, w, k)[n].len() > 0,
        1 <= splits_upto(vocab, w, k)[n][0].len() <= k,
        n >= splits_upto(vocab, w, k - 1).len() ==> splits_upto(vocab, w, k)[n][0].len() == k,
    decreases k,
{
    let earlier = splits_upto(vocab, w, k - 1);
    if n < earlier.len() {
        lemma_splits_first(vocab, w, k - 1, n);
    } else {
        let head = w.subrange(0, k);
        let rest = w.subrange(k, w.len() as int);
        let m = n - earlier.len();
        let s = splits_at(vocab, w, k)[m];
        if k < w.len() {
            let tails = splits_upto(vocab, rest, rest.len() as int);
            assert(s == seq![head] + tails[m]);
        }
        assert(s[0] == head);
    }
}

/// Of two sequences that `splits_upto` lists, the one listed first comes
/// before the other.
pub proof fn lemma_splits_order(vocab: Seq<Seq<char>>, w: Seq<char>, k: int, i: int, j: int)
    requires
        0 <= i < j < splits_upto(vocab, w, k).len(),
    ensures
        comes_before(splits_upto(vocab, w, k)[i], splits_upto(vocab, w, k)[j]),
    decreases w.len(), k,
{
    let earlier = splits_upto(vocab, w, k - 1);
    let all = splits_upto(vocab, w, k);
    if j < earlier.len() {
        lemma_splits_order(vocab, w, k - 1, i, j);
    } else if i < earlier.len() {
        lemma_splits_first(vocab, w, k - 1, i);
        lemma_splits_first(vocab, w, k, j);
        assert(all[i].take(0) =~= all[j].take(0));
        assert(shorter_at(all[i], all[j], 0));
    } else {
        let head = w.subrange(0, k);
        let rest = w.subrange(k, w.len() as int);
        let tails = splits_upto(vocab, rest, rest.len() as int);
        let a = i - earlier.len();
        let b = j - earlier.len();
        assert(splits_at(vocab, w, k).len() > 1);
        assert(k < w.len());
        assert(splits_at(vocab, w, k) == prepend_each(head, tails));
        lemma_splits_order(vocab, rest, rest.len() as int, a, b);
        let d = choose|d: int| shorter_at(tails[a], tails[b], d);
        let s = all[i];
        let t = all[j];
        assert(s == seq![head] + tails[a]);
        assert(t == seq![head] + tails[b]);
        assert(s.take(d + 1) =~= seq![head] + tails[a].take(d));
        assert(t.take(d + 1) =~= seq![head] + tails[b].take(d));
        assert(shorter_at(s, t, d + 1));
    }
}

/// A character of a concatenation occurs in one of the parts.
proof fn lemma_flatten_member(parts: Seq<Seq<char>>, i: int) -> (j: int)
    requires
        0 <= i < parts.flatten().len(),
    ensures
        0 <= j < parts.len(),
        parts[j].contains(parts.flatten()[i]),
    decreases parts.len(),
{
    if i < parts.first().len() {
        assert(parts[0][i] == parts.flatten()[i]);
        0
    } else {
        let j = lemma_flatten_member(parts.drop_first(), i - parts.first().len());
        assert(parts.drop_first()[j] == parts[j + 1]);
        j + 1
    }
}

/// A string that holds a character found in no vocabulary entry has no
/// segmentation.
pub proof fn lemma_foreign_char_no_segmentation(vocab: Seq<Seq<char>>, w: Seq<char>, i: int)
    requires
        0 <= i < w.len(),
        forall|j: int| 0 <= j < vocab.len() ==> !(#[trigger] vocab[j]).contains(w[i]),
    ensures
        segmentations(vocab, w).len() == 0,
{
    let segs = segmentations(vocab, w);
    if segs.len() > 0 {
        lemma_splits_sound(vocab, w, w.len() as int, 0);
        let j = lemma_flatten_member(segs[0], i);
        let v = vocab.index_of(segs[0][j]);
        assert(vocab[v].contains(w[i]));
    }
}

/// A string that no vocabulary entry is a prefix of has no segmentation.
pub proof fn lemma_no_prefix_no_segmentation(vocab: Seq<Seq<char>>, w: Seq<char>)
    requires
        forall|k: int| 0 < k <= w.len() ==> !vocab.contains(#[trigger] w.subrange(0, k)),
    ensures
        segmentations(vocab, w).len() == 0,
{
    let segs = segmentations(vocab, w);
    if segs.len() > 0 {
        lemma_splits_sound(vocab, w, w.len() as int, 0);
        let s = segs[0];
        assert(s =~= seq![s[0]] + s.drop_first());
        lemma_flatten_cons(s[0], s.drop_first());
        assert(w.subrange(0, s[0].len() as int) =~= s[0]);
    }
}


/// Whether `word` is an entry of `word_list`.
pub fn contains_word(word_list: &Vec<String>, word: &String) -> (found: bool)
    ensures
        found == word_list.deep_view().contains(word@),
{
    let mut k: usize = 0;
    while k < word_list.len()
        invariant
            k <= word_list.len(),
            forall|m: int| 0 <= m < k ==> word_list.deep_view()[m] != word@,
        decreases word_list.len() - k,
    {
        if word_list[k] == *word {
            assert(word_list.deep_view()[k as int] == word@);
            return true;
        }
        k += 1;
    }
    false
}

/// A copy of `path` with `syllable` added at its end.
fn extend_path(path: &Vec<String>, syllable: String) -> (longer: Vec<String>)
    ensures
        longer.deep_view() == path.deep_view().push(syllable@),
{
    let mut longer: Vec<String> = Vec::new();
    let mut k: usize = 0;
    while k < path.len()
        invariant
            k <= path.len(),
            longer.len() == k,
            forall|m: int| 0 <= m < k ==> longer[m]@ == path[m]@,
        decreases path.len() - k,
    {
        longer.push(path[k].clone());
        k += 1;
    }
    longer.push(syllable);
    assert(longer.deep_view() =~= path.deep_view().push(syllable@));
    longer
}

/// Appends to `res` every segmentation of `word` over `word_list`, each with
/// the syllables of `path` in front of it, in the order of `segmentations`.
pub fn dp(res: &mut Vec<Vec<String>>, word: &str, word_list: &Vec<String>, path: &Vec<String>)
    ensures
        final(res).deep_view() == old(res).deep_view() + with_prefix(
            path.deep_view(),
            segmentations(word_list.deep_view(), word@),
        ),
    decreases word@.len(),
{
    let ghost vocab = word_list.deep_view();
    let ghost before = res.deep_view();
    let len: usize = word.unicode_len();
    let mut i: usize = 0;
    assert(res.deep_view() =~= before + with_prefix(path.deep_view(), splits_upto(vocab, word@, 0)));
    while i < len
        invariant
            i <= len,
            len == word@.len(),
            vocab == word_list.deep_view(),
            res.deep_view() == before + with_prefix(path.deep_view(), splits_upto(vocab, word@, i as int)),
        decreases len - i,
    {
        let k: usize = i + 1;
        let head = String::from_str(word.substring_char(0, k));
        let ghost here = splits_at(vocab, word@, k as int);
        let ghost so_far = res.deep_view();
        if contains_word(word_list, &head) {
            let next = extend_path(path, head);
            if k == len {
                res.push(next);
                assert(here =~= seq![seq![head@]]);
                assert(path.deep_view() + seq![head@] =~= path.deep_view().push(head@));
                assert(with_prefix(path.deep_view(), here) =~= seq![next.deep_view()]);
                assert(res.deep_view() =~= so_far.push(next.deep_view()));
                assert(res.deep_view() =~= so_far + with_prefix(path.deep_view(), here));
            } else {
                let rest = word.substring_char(k, len);
                dp(res, rest, word_list, &next);
                proof {
                    lemma_with_prefix_prepend(path.deep_view(), head@, segmentations(vocab, rest@));
                }
            }
        } else {
            assert(res.deep_view() =~= so_far + with_prefix(path.deep_view(), here));
        }
        proof {
            lemma_with_prefix_append(path.deep_view(), splits_upto(vocab, word@, i as int), here);
            assert(res.deep_view() =~= before + with_prefix(
                path.deep_view(),
                splits_upto(vocab, word@, k as int),
            ));
        }
        i += 1;
    }
}

/// All segmentations of `word` into syllables of `word_list`.
pub fn pysplict(word: &str, word_list: &Vec<String>) -> (res: Vec<Vec<String>>)
    ensures
        res.deep_view() == segmentations(word_list.deep_view(), word@),
        forall|n: int|
            0 <= n < res.len() ==> is_segmentation(
                word_list.deep_view(),
                word@,
                #[trigger] res.deep_view()[n],
            ),
        forall|s: Seq<Seq<char>>|
            is_segmentation(word_list.deep_view(), word@, s) ==> res.deep_view().contains(s),
        forall|i: int, j: int|
            0 <= i < j < res.len() ==> comes_before(
                #[trigger] res.deep_view()[i],
                #[trigger] res.deep_view()[j],
            ),
        word@.len() == 0 ==> res.len() == 0,
{
    let mut res: Vec<Vec<String>> = Vec::new();
    let path: Vec<String> = Vec::new();
    dp(&mut res, word, word_list, &path);
    assert(res.deep_view() =~= segmentations(word_list.deep_view(), word@)) by {
        let segs = segmentations(word_list.deep_view(), word@);
        assert(path.deep_view() =~= Seq::<Seq<char>>::empty());
        assert forall|i: int| 0 <= i < segs.len() implies path.deep_view() + segs[i] == segs[i] by {
            assert(path.deep_view() + segs[i] =~= segs[i]);
        }
        assert(with_prefix(path.deep_view(), segs) =~= segs);
    }
    proof {
        let vocab = word_list.deep_view();
        assert forall|n: int| 0 <= n < res.len() implies is_segmentation(
            vocab,
            word@,
            #[trigger] res.deep_view()[n],
        ) by {
            lemma_splits_sound(vocab, word@, word@.len() as int, n);
        }
        assert forall|s: Seq<Seq<char>>| is_segmentation(vocab, word@, s) implies res.deep_view().contains(
            s,
        ) by {
            lemma_segmentations_complete(vocab, word@, s);
        }
        assert forall|i: int, j: int| 0 <= i < j < res.len() implies comes_before(
            #[trigger] res.deep_view()[i],
            #[trigger] res.deep_view()[j],
        ) by {
            lemma_splits_order(vocab, word@, word@.len() as int, i, j);
        }
    }
    res
}

} // verus!
