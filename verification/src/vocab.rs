//! The fixed vocabulary of pinyin syllables.

use crate::params::{is_lower, is_syllable_text};
use crate::segment::contains_word;
use vstd::prelude::*;

verus! {

/// The initials, in the order in which the vocabulary is built.
pub open spec fn initials() -> Seq<Seq<char>> {
    seq![
        "b"@, "p"@, "m"@, "f"@, "d"@, "t"@, "n"@, "l"@, "g"@, "k"@, "h"@, "j"@, "q"@, "x"@, "z"@,
        "c"@, "s"@, "r"@, "zh"@, "ch"@, "sh"@, "y"@, "w"@,
    ]
}

/// The finals, in the order in which the vocabulary is built.
pub open spec fn finals() -> Seq<Seq<char>> {
    seq![
        "a"@, "o"@, "e"@, "i"@, "u"@, "v"@, "ai"@, "ei"@, "ui"@, "ao"@, "ou"@, "iu"@, "ie"@,
        "ve"@, "er"@, "an"@, "en"@, "in"@, "un"@, "ang"@, "eng"@, "ing"@, "ong"@, "uai"@, "ia"@,
        "uan"@, "uang"@, "uo"@, "ua"@,
    ]
}

/// The syllables that stand alone, in the order in which the vocabulary is
/// built.
pub open spec fn standalone() -> Seq<Seq<char>> {
    seq![
        "a"@, "o"@, "e"@, "ai"@, "ei"@, "ao"@, "ou"@, "er"@, "an"@, "en"@, "ang"@, "zi"@, "ci"@,
        "si"@, "zhi"@, "chi"@, "shi"@, "ri"@, "yi"@, "wu"@, "yu"@, "yin"@, "ying"@, "yun"@, "ye"@,
        "yue"@, "yuan"@,
    ]
}

/// One initial joined with each final, in the order of the finals.
pub open spec fn row(initial: Seq<char>, finals: Seq<Seq<char>>) -> Seq<Seq<char>> {
    Seq::new(finals.len(), |y: int| initial + finals[y])
}

/// The first `n` initials, each joined with each final: all of the first
/// initial, then all of the second, and so on.
pub open spec fn pairs(initials: Seq<Seq<char>>, finals: Seq<Seq<char>>, n: int) -> Seq<Seq<char>>
    decreases n,
{
    if n <= 0 {
        Seq::empty()
    } else {
        pairs(initials, finals, n - 1) + row(initials[n - 1], finals)
    }
}

/// The entries of `s` in order, each only where it occurs first.
pub open spec fn dedup(s: Seq<Seq<char>>) -> Seq<Seq<char>>
    decreases s.len(),
{
    if s.len() == 0 {
        Seq::empty()
    } else if dedup(s.drop_last()).contains(s.last()) {
        dedup(s.drop_last())
    } else {
        dedup(s.drop_last()).push(s.last())
    }
}

/// Every syllable that the vocabulary is built from, repetitions included:
/// each initial with each final, then the syllables that stand alone.
pub open spec fn all_syllables() -> Seq<Seq<char>> {
    pairs(initials(), finals(), initials().len() as int) + standalone()
}

/// The syllable vocabulary.
pub open spec fn vocabulary() -> Seq<Seq<char>> {
    dedup(all_syllables())
}

/// `dedup` keeps what occurs and names nothing twice.
pub proof fn lemma_dedup(s: Seq<Seq<char>>)
    ensures
        dedup(s).no_duplicates(),
        forall|x: Seq<char>| dedup(s).contains(x) <==> s.contains(x),
    decreases s.len(),
{
    if s.len() > 0 {
        let shorter = s.drop_last();
        lemma_dedup(shorter);
        let d = dedup(shorter);
        assert forall|x: Seq<char>| dedup(s).contains(x) <==> s.contains(x) by {
            if s.contains(x) {
                let i = s.index_of(x);
                if i < s.len() - 1 {
                    assert(shorter[i] == x);
                    assert(shorter.contains(x));
                    assert(d.contains(x));
                    if !d.contains(s.last()) {
                        let m = d.index_of(x);
                        assert(d.push(s.last())[m] == x);
                    }
                } else {
                    if !d.contains(s.last()) {
                        assert(d.push(s.last())[d.len() as int] == x);
                    }
                }
            }
            if dedup(s).contains(x) {
                let m = dedup(s).index_of(x);
                if d.contains(s.last()) || m < d.len() {
                    assert(d.contains(x)) by {
                        if !d.contains(s.last()) {
                            assert(d[m] == x);
                        }
                    }
                    assert(shorter.contains(x));
                    let i = shorter.index_of(x);
                    assert(s[i] == x);
                } else {
                    assert(s[s.len() - 1] == x);
                }
            }
        }
    }
}

/// Whether `s` is made of `lo` to `hi` letters `a` to `z`.
pub open spec fn is_letters(s: Seq<char>, lo: int, hi: int) -> bool {
    &&& lo <= s.len() <= hi
    &&& forall|i: int| 0 <= i < s.len() ==> is_lower(#[trigger] s[i])
}

proof fn lemma_initials_shape()
    ensures
        forall|i: int| 0 <= i < initials().len() ==> is_letters(#[trigger] initials()[i], 1, 2),
{
    reveal_strlit("b");
    reveal_strlit("p");
    reveal_strlit("m");
    reveal_strlit("f");
    reveal_strlit("d");
    reveal_strlit("t");
    reveal_strlit("n");
    reveal_strlit("l");
    reveal_strlit("g");
    reveal_strlit("k");
    reveal_strlit("h");
    reveal_strlit("j");
    reveal_strlit("q");
    reveal_strlit("x");
    reveal_strlit("z");
    reveal_strlit("c");
    reveal_strlit("s");
    reveal_strlit("r");
    reveal_strlit("zh");
    reveal_strlit("ch");
    reveal_strlit("sh");
    reveal_strlit("y");
    reveal_strlit("w");
}

proof fn lemma_finals_shape()
    ensures
        forall|i: int| 0 <= i < finals().len() ==> is_letters(#[trigger] finals()[i], 1, 4),
{
    reveal_strlit("a");
    reveal_strlit("o");
    reveal_strlit("e");
    reveal_strlit("i");
    reveal_strlit("u");
    reveal_strlit("v");
    reveal_strlit("ai");
    reveal_strlit("ei");
    reveal_strlit("ui");
    reveal_strlit("ao");
    reveal_strlit("ou");
    reveal_strlit("iu");
    reveal_strlit("ie");
    reveal_strlit("ve");
    reveal_strlit("er");
    reveal_strlit("an");
    reveal_strlit("en");
    reveal_strlit("in");
    reveal_strlit("un");
    reveal_strlit("ang");
    reveal_strlit("eng");
    reveal_strlit("ing");
    reveal_strlit("ong");
    reveal_strlit("uai");
    reveal_strlit("ia");
    reveal_strlit("uan");
    reveal_strlit("uang");
    reveal_strlit("uo");
    reveal_strlit("ua");
}

proof fn lemma_standalone_shape()
    ensures
        forall|i: int| 0 <= i < standalone().len() ==> is_letters(#[trigger] standalone()[i], 1, 4),
{
    reveal_strlit("a");
    reveal_strlit("o");
    reveal_strlit("e");
    reveal_strlit("ai");
    reveal_strlit("ei");
    reveal_strlit("ao");
    reveal_strlit("ou");
    reveal_strlit("er");
    reveal_strlit("an");
    reveal_strlit("en");
    reveal_strlit("ang");
    reveal_strlit("zi");
    reveal_strlit("ci");
    reveal_strlit("si");
    reveal_strlit("zhi");
    reveal_strlit("chi");
    reveal_strlit("shi");
    reveal_strlit("ri");
    reveal_strlit("yi");
    reveal_strlit("wu");
    reveal_strlit("yu");
    reveal_strlit("yin");
    reveal_strlit("ying");
    reveal_strlit("yun");
    reveal_strlit("ye");
    reveal_strlit("yue");
    reveal_strlit("yuan");
}

proof fn lemma_pairs_shape(n: int, x: Seq<char>)
    requires
        0 <= n <= initials().len(),
        pairs(initials(), finals(), n).contains(x),
    ensures
        is_letters(x, 2, 6),
    decreases n,
{
    if n > 0 {
        let earlier = pairs(initials(), finals(), n - 1);
        let here = row(initials()[n - 1], finals());
        let i = (earlier + here).index_of(x);
        if i < earlier.len() {
            assert(earlier[i] == x);
            lemma_pairs_shape(n - 1, x);
        } else {
            let y = i - earlier.len();
            lemma_initials_shape();
            lemma_finals_shape();
            let a = initials()[n - 1];
            let b = finals()[y];
            assert(x == a + b);
            assert(is_letters(a, 1, 2));
            assert(is_letters(b, 1, 4));
            assert forall|m: int| 0 <= m < x.len() implies is_lower(#[trigger] x[m]) by {
                if m < a.len() {
                    assert(x[m] == a[m]);
                } else {
                    assert(x[m] == b[m - a.len()]);
                }
            }
        }
    }
}

/// Every syllable of the vocabulary is made of one to six letters `a` to
/// `z`, so the parameter tables can hold entries for it.
pub proof fn lemma_vocabulary_shape(x: Seq<char>)
    requires
        vocabulary().contains(x),
    ensures
        is_letters(x, 1, 6),
        is_syllable_text(x),
{
    lemma_dedup(all_syllables());
    let all = all_syllables();
    let front = pairs(initials(), finals(), initials().len() as int);
    assert(dedup(all).contains(x));
    assert(all.contains(x));
    let i = all.index_of(x);
    assert(all[i] == x);
    if i < front.len() {
        assert(front[i] == x);
        lemma_pairs_shape(initials().len() as int, x);
    } else {
        lemma_standalone_shape();
        assert(x == standalone()[i - front.len()]);
    }
}

fn initial_list() -> (list: Vec<&'static str>)
    ensures
        list.len() == initials().len(),
        forall|i: int| 0 <= i < list.len() ==> (#[trigger] list[i])@ == initials()[i],
{
    vec![
        "b", "p", "m", "f", "d", "t", "n", "l", "g", "k", "h", "j", "q", "x", "z", "c", "s", "r",
        "zh", "ch", "sh", "y", "w",
    ]
}

fn final_list() -> (list: Vec<&'static str>)
    ensures
        list.len() == finals().len(),
        forall|i: int| 0 <= i < list.len() ==> (#[trigger] list[i])@ == finals()[i],
{
    vec![
        "a", "o", "e", "i", "u", "v", "ai", "ei", "ui", "ao", "ou", "iu", "ie", "ve", "er", "an",
        "en", "in", "un", "ang", "eng", "ing", "ong", "uai", "ia", "uan", "uang", "uo", "ua",
    ]
}

fn standalone_list() -> (list: Vec<&'static str>)
    ensures
        list.len() == standalone().len(),
        forall|i: int| 0 <= i < list.len() ==> (#[trigger] list[i])@ == standalone()[i],
{
    vec![
        "a", "o", "e", "ai", "ei", "ao", "ou", "er", "an", "en", "ang", "zi", "ci", "si", "zhi",
        "chi", "shi", "ri", "yi", "wu", "yu", "yin", "ying", "yun", "ye", "yue", "yuan",
    ]
}

/// Adds `syllable` at the end of `list` unless `list` holds it already.
fn add_new(list: &mut Vec<String>, syllable: String, Ghost(seen): Ghost<Seq<Seq<char>>>)
    requires
        old(list).deep_view() == dedup(seen),
    ensures
        final(list).deep_view() == dedup(seen.push(syllable@)),
{
    assert(seen.push(syllable@).drop_last() =~= seen);
    if !contains_word(list, &syllable) {
        let ghost before = list.deep_view();
        list.push(syllable);
        assert(list.deep_view() =~= before.push(syllable@));
    }
}

/// Builds the syllable vocabulary: each initial joined with each final, then
/// the syllables that stand alone, each syllable once, where it comes first.
pub fn syllable_vocabulary() -> (list: Vec<String>)
    ensures
        list.deep_view() == vocabulary(),
        list.deep_view().no_duplicates(),
{
    let sm = initial_list();
    let ym = final_list();
    let zt = standalone_list();
    let mut list: Vec<String> = Vec::new();
    let ghost mut seen: Seq<Seq<char>> = Seq::empty();
    let mut a: usize = 0;
    assert(list.deep_view() =~= dedup(seen));
    assert(seen =~= pairs(initials(), finals(), 0));
    while a < sm.len()
        invariant
            a <= sm.len(),
            sm.len() == initials().len(),
            forall|i: int| 0 <= i < sm.len() ==> (#[trigger] sm[i])@ == initials()[i],
            ym.len() == finals().len(),
            forall|i: int| 0 <= i < ym.len() ==> (#[trigger] ym[i])@ == finals()[i],
            seen == pairs(initials(), finals(), a as int),
            list.deep_view() == dedup(seen),
        decreases sm.len() - a,
    {
        let ghost before = seen;
        let mut y: usize = 0;
        assert(seen =~= before + row(initials()[a as int], finals()).take(0));
        while y < ym.len()
            invariant
                a < sm.len(),
                sm[a as int]@ == initials()[a as int],
                y <= ym.len(),
                ym.len() == finals().len(),
                forall|i: int| 0 <= i < ym.len() ==> (#[trigger] ym[i])@ == finals()[i],
                seen == before + row(initials()[a as int], finals()).take(y as int),
                list.deep_view() == dedup(seen),
            decreases ym.len() - y,
        {
            let temp = String::from_str(sm[a]).concat(ym[y]);
            add_new(&mut list, temp, Ghost(seen));
            proof {
                let next = seen.push(temp@);
                assert(next =~= before + row(initials()[a as int], finals()).take(y + 1));
                seen = next;
            }
            y += 1;
        }
        proof {
            let whole = row(initials()[a as int], finals());
            assert(whole.take(whole.len() as int) =~= whole);
        }
        a += 1;
    }
    let ghost before = seen;
    let mut z: usize = 0;
    assert(seen =~= before + standalone().take(0));
    while z < zt.len()
        invariant
            z <= zt.len(),
            zt.len() == standalone().len(),
            forall|i: int| 0 <= i < zt.len() ==> (#[trigger] zt[i])@ == standalone()[i],
            before == pairs(initials(), finals(), initials().len() as int),
            seen == before + standalone().take(z as int),
            list.deep_view() == dedup(seen),
        decreases zt.len() - z,
    {
        let temp = String::from_str(zt[z]);
        add_new(&mut list, temp, Ghost(seen));
        proof {
            let next = seen.push(temp@);
            assert(next =~= before + standalone().take(z + 1));
            seen = next;
        }
        z += 1;
    }
    proof {
        assert(standalone().take(standalone().len() as int) =~= standalone());
        lemma_dedup(all_syllables());
    }
    list
}

} // verus!
