//! Counting character sequences for the model's parameters.

use crate::corpus::{chars_of, string_of};
use crate::params::contains_char;
use pinyin::ToPinyin;
use crate::tally::{
    first_counts, firsts, lemma_keyed, lemma_occurrences_bound, occurrences, Tally,
};
use vstd::prelude::*;

verus! {

/// The first characters of the first `n` sequences, those of empty
/// sequences left out.
pub open spec fn first_chars(seqs: Seq<Seq<char>>, n: int) -> Seq<char>
    decreases n,
{
    if n <= 0 {
        Seq::empty()
    } else if seqs[n - 1].len() == 0 {
        first_chars(seqs, n - 1)
    } else {
        first_chars(seqs, n - 1).push(seqs[n - 1][0])
    }
}

/// Each character of `events`, where it occurs first, with the number of
/// its occurrences.
pub open spec fn char_counts(events: Seq<char>) -> Seq<(char, nat)> {
    let places = firsts(events, events.len() as int);
    Seq::new(places.len(), |i: int| (events[places[i]], occurrences(events, events[places[i]])))
}

/// The counted characters with their counts as natural numbers.
pub open spec fn counted(counts: Seq<(char, usize)>) -> Seq<(char, nat)> {
    Seq::new(counts.len(), |i: int| (counts[i].0, counts[i].1 as nat))
}

/// No more sequences open with a character than there are sequences.
proof fn lemma_first_chars_len(seqs: Seq<Seq<char>>, n: int)
    requires
        0 <= n,
    ensures
        first_chars(seqs, n).len() <= n,
    decreases n,
{
    if n > 0 {
        lemma_first_chars_len(seqs, n - 1);
    }
}

fn key_of_char(c: char) -> (k: u64)
    ensures
        k == c as int,
        k <= 0x10FFFF,
{
    c as u32 as u64
}

/// Counts how often each character opens a sequence. The result names each
/// such character once, in the order in which the characters first open a
/// sequence. Empty sequences open with none.
pub fn count_init(seqs: &Vec<String>) -> (counts: Vec<(char, usize)>)
    ensures
        counted(counts@) == char_counts(first_chars(seqs.deep_view(), seqs.len() as int)),
        forall|i: int| 0 <= i < counts.len() ==> 1 <= (#[trigger] counts[i]).1 <= seqs.len(),
{
    let mut events: Vec<char> = Vec::new();
    let mut keys: Vec<u64> = Vec::new();
    let mut i: usize = 0;
    while i < seqs.len()
        invariant
            i <= seqs.len(),
            events@ == first_chars(seqs.deep_view(), i as int),
            keys.len() == events.len(),
            forall|m: int| 0 <= m < keys.len() ==> #[trigger] keys[m] == events[m] as int,
        decreases seqs.len() - i,
    {
        let seq = seqs[i].as_str();
        assert(seqs.deep_view()[i as int] == seq@);
        if !seq.is_empty() {
            let c = seq.get_char(0);
            events.push(c);
            keys.push(key_of_char(c));
        }
        i += 1;
    }
    proof {
        lemma_first_chars_len(seqs.deep_view(), seqs.len() as int);
    }
    count_chars(&events, &keys)
}

/// Each character of `events`, where it occurs first, with the number of
/// its occurrences; `keys` holds the characters' numbers.
fn count_chars(events: &Vec<char>, keys: &Vec<u64>) -> (counts: Vec<(char, usize)>)
    requires
        keys.len() == events.len(),
        forall|m: int| 0 <= m < keys.len() ==> #[trigger] keys[m] == events[m] as int,
    ensures
        counted(counts@) == char_counts(events@),
        forall|i: int| 0 <= i < counts.len() ==> 1 <= (#[trigger] counts[i]).1 <= events.len(),
{
    let found = first_counts(keys);
    let mut counts: Vec<(char, usize)> = Vec::new();
    let mut i: usize = 0;
    proof {
        lemma_keyed(events@, keys@, events.len() as int);
        assert(events@.take(events.len() as int) =~= events@);
        assert(keys@.take(keys.len() as int) =~= keys@);
    }
    while i < found.len()
        invariant
            i <= found.len(),
            keys.len() == events.len(),
            found.len() == firsts(events@, events.len() as int).len(),
            forall|m: int|
                0 <= m < found.len() ==> (#[trigger] found[m]).0 == firsts(
                    events@,
                    events.len() as int,
                )[m] && found[m].0 < events.len() && found[m].1 == occurrences(
                    events@,
                    events[found[m].0 as int],
                ),
            counts.len() == i,
            forall|m: int|
                0 <= m < i ==> (#[trigger] counts[m]).0 == char_counts(events@)[m].0 && counts[m].1
                    == char_counts(events@)[m].1 && 1 <= counts[m].1 <= events.len(),
        decreases found.len() - i,
    {
        proof {
            let c = events[found[i as int].0 as int];
            assert(events@.contains(c));
            lemma_occurrences_bound(events@, c);
        }
        counts.push((events[found[i].0], found[i].1));
        i += 1;
    }
    assert(counted(counts@) =~= char_counts(events@));
    counts
}

/// The pairs of neighbours of a sequence, each as a character, or `None`
/// for the end of the sequence, and the character before it, or `None` for
/// the beginning of the sequence: the first character after the beginning,
/// each further character after the one before, and the end after the last
/// character. An empty sequence has none.
pub open spec fn bigrams_of(seq: Seq<char>) -> Seq<(Option<char>, Option<char>)> {
    if seq.len() == 0 {
        Seq::empty()
    } else {
        Seq::new(
            (seq.len() + 1) as nat,
            |i: int|
                (
                    if 0 <= i < seq.len() {
                        Some(seq[i])
                    } else {
                        None
                    },
                    if 0 < i <= seq.len() {
                        Some(seq[i - 1])
                    } else {
                        None
                    },
                ),
        )
    }
}

/// The pairs of neighbours of the first `n` sequences, sequence after
/// sequence.
pub open spec fn all_bigrams(seqs: Seq<Seq<char>>, n: int) -> Seq<(Option<char>, Option<char>)>
    decreases n,
{
    if n <= 0 {
        Seq::empty()
    } else {
        all_bigrams(seqs, n - 1) + bigrams_of(seqs[n - 1])
    }
}

/// The earlier places of the pairs.
pub open spec fn pres(events: Seq<(Option<char>, Option<char>)>) -> Seq<Option<char>> {
    Seq::new(events.len(), |i: int| events[i].1)
}

/// Each pair of `events`, where it occurs first, with the number of its
/// occurrences and the number of pairs that have the same earlier place:
/// the first of the two over the second is the share of the later place
/// among all that follow the earlier one.
pub open spec fn pair_counts(events: Seq<(Option<char>, Option<char>)>) -> Seq<
    (Option<char>, Option<char>, nat, nat),
> {
    let places = firsts(events, events.len() as int);
    Seq::new(
        places.len(),
        |i: int|
            {
                let e = events[places[i]];
                (e.0, e.1, occurrences(events, e), occurrences(pres(events), e.1))
            },
    )
}

/// The counted pairs with their counts as natural numbers.
pub open spec fn pair_counted(counts: Seq<(Option<char>, Option<char>, usize, usize)>) -> Seq<
    (Option<char>, Option<char>, nat, nat),
> {
    Seq::new(
        counts.len(),
        |i: int| (counts[i].0, counts[i].1, counts[i].2 as nat, counts[i].3 as nat),
    )
}

/// A pair does not occur more often than its earlier place.
proof fn lemma_pair_within_pre(events: Seq<(Option<char>, Option<char>)>, e: (Option<char>, Option<char>))
    ensures
        occurrences(events, e) <= occurrences(pres(events), e.1),
    decreases events.len(),
{
    if events.len() > 0 {
        lemma_pair_within_pre(events.drop_last(), e);
        assert(pres(events).drop_last() =~= pres(events.drop_last()));
        assert(pres(events).last() == events.last().1);
    }
}

/// The number that stands for a place: that of the character, or the first
/// number behind all characters for a marker.
pub open spec fn token_key(t: Option<char>) -> int {
    match t {
        None => 0x110000,
        Some(c) => c as int,
    }
}

/// Whether the place has a number of its own: a character has one up to
/// 0x10FFFF.
pub open spec fn token_fits(t: Option<char>) -> bool {
    match t {
        None => true,
        Some(c) => 0 <= c as int <= 0x10FFFF,
    }
}

fn key_of_token(t: Option<char>) -> (k: u64)
    ensures
        k == token_key(t),
        token_fits(t),
{
    match t {
        None => 0x110000,
        Some(c) => key_of_char(c),
    }
}

/// The key under which a place of a pair is stored: the character as a
/// text, or `marker` where the place is the beginning or the end of a
/// sequence.
pub fn place_key(place: Option<char>, marker: &str) -> (key: String)
    ensures
        key@ == match place {
            Some(c) => seq![c],
            None => marker@,
        },
{
    match place {
        Some(c) => {
            let mut key = String::new();
            key.push(c);
            assert(key@ =~= seq![c]);
            key
        },
        None => String::from_str(marker),
    }
}

/// The pairs of neighbours with their numbers.
struct Bigrams {
    events: Vec<(Option<char>, Option<char>)>,
    keys: Vec<u64>,
    pre_keys: Vec<u64>,
}

impl Bigrams {
    spec fn wf(&self) -> bool {
        &&& self.keys.len() == self.events.len()
        &&& self.pre_keys.len() == self.events.len()
        &&& forall|m: int|
            0 <= m < self.events.len() ==> token_fits((#[trigger] self.events[m]).0) && token_fits(
                self.events[m].1,
            )
        &&& forall|m: int|
            0 <= m < self.events.len() ==> #[trigger] self.keys[m] == token_key(self.events[m].0)
                * 0x1_0000_0000 + token_key(self.events[m].1)
        &&& forall|m: int|
            0 <= m < self.events.len() ==> #[trigger] self.pre_keys[m] == token_key(
                self.events[m].1,
            )
    }

    fn add(&mut self, post: Option<char>, pre: Option<char>)
        requires
            old(self).wf(),
        ensures
            final(self).wf(),
            final(self).events@ == old(self).events@.push((post, pre)),
    {
        let a: u64 = key_of_token(post);
        let b: u64 = key_of_token(pre);
        self.events.push((post, pre));
        self.keys.push(a * 0x1_0000_0000 + b);
        self.pre_keys.push(b);
    }
}

/// Counts how often each character, or the end of a sequence, follows each
/// other character, or the beginning of a sequence. The result names each
/// pair once, in the order in which the pairs occur first: the later place,
/// the earlier place, the number of the pair's occurrences, and the number
/// of all pairs with the same earlier place, so that the two numbers give
/// the share of the later place among all that follow the earlier one.
/// `None` stands for the end as the later place and for the beginning as the
/// earlier one.
pub fn count_trans(seqs: &Vec<String>) -> (counts: Vec<
    (Option<char>, Option<char>, usize, usize),
>)
    ensures
        pair_counted(counts@) == pair_counts(all_bigrams(seqs.deep_view(), seqs.len() as int)),
        forall|i: int|
            0 <= i < counts.len() ==> 1 <= (#[trigger] counts[i]).2 && counts[i].2 <= counts[i].3,
{
    let mut all = Bigrams { events: Vec::new(), keys: Vec::new(), pre_keys: Vec::new() };
    let mut i: usize = 0;
    while i < seqs.len()
        invariant
            i <= seqs.len(),
            all.wf(),
            all.events@ == all_bigrams(seqs.deep_view(), i as int),
        decreases seqs.len() - i,
    {
        let chars = chars_of(seqs[i].as_str());
        let ghost seq = seqs.deep_view()[i as int];
        assert(seq == chars@);
        let ghost before = all.events@;
        if chars.len() > 0 {
            let ghost pairs = bigrams_of(seq);
            assert(pairs.len() == seq.len() + 1);
            all.add(Some(chars[0]), None);
            assert(pairs[0] == (Some(chars[0]), None::<char>));
            assert(pairs.take(1) =~= seq![pairs[0]]);
            assert(all.events@ =~= before + pairs.take(1));
            let mut j: usize = 1;
            while j < chars.len()
                invariant
                    1 <= j <= chars.len(),
                    seq == chars@,
                    pairs == bigrams_of(seq),
                    pairs.len() == seq.len() + 1,
                    all.wf(),
                    all.events@ == before + pairs.take(j as int),
                decreases chars.len() - j,
            {
                all.add(Some(chars[j]), Some(chars[j - 1]));
                assert(pairs[j as int] == (Some(chars[j as int]), Some(chars[j - 1])));
                assert(pairs.take(j + 1) =~= pairs.take(j as int).push(pairs[j as int]));
                assert(all.events@ =~= before + pairs.take(j + 1));
                j += 1;
            }
            all.add(None, Some(chars[chars.len() - 1]));
            assert(pairs[seq.len() as int] == (None::<char>, Some(chars[chars.len() - 1])));
            assert(pairs =~= pairs.take(seq.len() as int).push(pairs[seq.len() as int]));
            assert(all.events@ =~= before + pairs);
        } else {
            assert(all.events@ =~= before + bigrams_of(seq));
        }
        i += 1;
    }
    let ghost events = all.events@;
    let found = first_counts(&all.keys);
    let totals = Tally::of(&all.pre_keys);
    proof {
        assert forall|i: int, j: int| 0 <= i < events.len() && 0 <= j < events.len() implies (
        #[trigger] all.keys@[i] == #[trigger] all.keys@[j] <==> events[i] == events[j]) by {
            assert(token_fits(events[i].0) && token_fits(events[i].1));
            assert(token_fits(events[j].0) && token_fits(events[j].1));
        }
        assert forall|i: int, j: int| 0 <= i < events.len() && 0 <= j < events.len() implies (
        #[trigger] all.pre_keys@[i] == #[trigger] all.pre_keys@[j] <==> pres(events)[i] == pres(
            events,
        )[j]) by {
            assert(token_fits(events[i].1));
            assert(token_fits(events[j].1));
        }
        lemma_keyed(events, all.keys@, events.len() as int);
        lemma_keyed(pres(events), all.pre_keys@, events.len() as int);
        assert(events.take(events.len() as int) =~= events);
        assert(all.keys@.take(events.len() as int) =~= all.keys@);
        assert(pres(events).take(events.len() as int) =~= pres(events));
        assert(all.pre_keys@.take(events.len() as int) =~= all.pre_keys@);
    }
    let mut counts: Vec<(Option<char>, Option<char>, usize, usize)> = Vec::new();
    let mut k: usize = 0;
    while k < found.len()
        invariant
            k <= found.len(),
            all.wf(),
            events == all.events@,
            found.len() == firsts(events, events.len() as int).len(),
            forall|m: int|
                0 <= m < found.len() ==> (#[trigger] found[m]).0 == firsts(
                    events,
                    events.len() as int,
                )[m] && found[m].0 < events.len() && found[m].1 == occurrences(
                    events,
                    events[found[m].0 as int],
                ),
            forall|m: int|
                0 <= m < events.len() ==> totals.count_of(#[trigger] all.pre_keys[m])
                    == occurrences(pres(events), events[m].1),
            counts.len() == k,
            forall|m: int|
                0 <= m < k ==> (#[trigger] counts[m]).0 == pair_counts(events)[m].0 && counts[m].1
                    == pair_counts(events)[m].1 && counts[m].2 == pair_counts(events)[m].2
                    && counts[m].3 == pair_counts(events)[m].3 && 1 <= counts[m].2 <= counts[m].3,
        decreases found.len() - k,
    {
        let place: usize = found[k].0;
        let e = all.events[place];
        proof {
            assert(events.contains(e));
            lemma_occurrences_bound(events, e);
            lemma_pair_within_pre(events, e);
        }
        counts.push((e.0, e.1, found[k].1, totals.count(all.pre_keys[place])));
        k += 1;
    }
    assert(pair_counted(counts@) =~= pair_counts(events));
    counts
}

/// Why the emissions were not counted.
#[derive(Clone, Copy, Debug, PartialEq, Eq)]
pub enum TrainError {
    /// The character has no reading.
    NoReading(char),
}

/// The reading of a character without tone marks, as the `pinyin` crate
/// gives it; `None` where it has none for the character.
pub uninterp spec fn plain_reading(c: char) -> Option<Seq<char>>;

/// Calls `ToPinyin::to_pinyin` of the `pinyin` crate on the character and
/// takes the plain style of what it gives. Trusted of that call: the result
/// is the reading that the crate's table holds for the character, the same
/// for the same character, and `None` where the table has none.
#[verifier::external_body]
fn reading_of(c: char) -> (reading: Option<String>)
    ensures
        match reading {
            Some(s) => plain_reading(c) == Some(s@),
            None => plain_reading(c) is None,
        },
{
    match c.to_pinyin() {
        Some(p) => Some(p.plain().to_string()),
        None => None,
    }
}

/// The characters of the first `n` sequences, sequence after sequence.
pub open spec fn all_chars(seqs: Seq<Seq<char>>, n: int) -> Seq<char>
    decreases n,
{
    if n <= 0 {
        Seq::empty()
    } else {
        all_chars(seqs, n - 1) + seqs[n - 1]
    }
}

/// Whether `i` is the first entry of `counted` whose character has no
/// reading.
pub open spec fn first_unread(counted: Seq<(char, usize, Option<String>)>, i: int) -> bool {
    &&& 0 <= i < counted.len()
    &&& counted[i].2 is None
    &&& forall|m: int| 0 <= m < i ==> (#[trigger] counted[m]).2 is Some
}

/// Puts each counted character with its reading: the character, the
/// reading, the number of times the character was seen with it, and the
/// number of times the character was seen at all, which is the same where a
/// character has one reading. Fails on the first character without one.
pub fn with_readings(counted: &Vec<(char, usize, Option<String>)>) -> (r: Result<
    Vec<(char, String, usize, usize)>,
    TrainError,
>)
    ensures
        match r {
            Ok(entries) => {
                &&& entries.len() == counted.len()
                &&& forall|i: int|
                    0 <= i < entries.len() ==> counted[i].2 == Some((#[trigger] entries[i]).1)
                        && entries[i].0 == counted[i].0 && entries[i].2 == counted[i].1
                        && entries[i].3 == counted[i].1
            },
            Err(TrainError::NoReading(c)) => exists|i: int|
                #[trigger] first_unread(counted@, i) && c == counted[i].0,
        },
{
    let mut entries: Vec<(char, String, usize, usize)> = Vec::new();
    let mut i: usize = 0;
    while i < counted.len()
        invariant
            i <= counted.len(),
            entries.len() == i,
            forall|m: int|
                0 <= m < i ==> counted[m].2 == Some((#[trigger] entries[m]).1) && entries[m].0
                    == counted[m].0 && entries[m].2 == counted[m].1 && entries[m].3 == counted[m].1,
            forall|m: int| 0 <= m < i ==> (#[trigger] counted[m]).2 is Some,
        decreases counted.len() - i,
    {
        match &counted[i].2 {
            Some(s) => {
                entries.push((counted[i].0, s.clone(), counted[i].1, counted[i].1));
            },
            None => {
                assert(first_unread(counted@, i as int));
                return Err(TrainError::NoReading(counted[i].0));
            },
        }
        i += 1;
    }
    Ok(entries)
}

/// Counts how often each character occurs in the sequences and puts it with
/// its reading. The result names each character once, in the order in which
/// the characters occur first: the character, its reading, the number of
/// its occurrences with that reading, and the number of all its
/// occurrences. Fails on the first such character that has no reading.
pub fn count_emission(seqs: &Vec<String>) -> (r: Result<
    Vec<(char, String, usize, usize)>,
    TrainError,
>)
    ensures
        match r {
            Ok(entries) => {
                let counts = char_counts(all_chars(seqs.deep_view(), seqs.len() as int));
                &&& entries.len() == counts.len()
                &&& forall|i: int|
                    0 <= i < entries.len() ==> plain_reading(counts[i].0) == Some(
                        (#[trigger] entries[i]).1@,
                    ) && entries[i].0 == counts[i].0 && entries[i].2 == counts[i].1 && entries[i].3
                        == counts[i].1 && 1 <= entries[i].2
            },
            Err(TrainError::NoReading(c)) => {
                let counts = char_counts(all_chars(seqs.deep_view(), seqs.len() as int));
                exists|i: int|
                    0 <= i < counts.len() && c == (#[trigger] counts[i]).0 && plain_reading(c) is None
                        && forall|m: int|
                        0 <= m < i ==> plain_reading((#[trigger] counts[m]).0) is Some
            },
        },
{
    let mut events: Vec<char> = Vec::new();
    let mut keys: Vec<u64> = Vec::new();
    let mut i: usize = 0;
    while i < seqs.len()
        invariant
            i <= seqs.len(),
            events@ == all_chars(seqs.deep_view(), i as int),
            keys.len() == events.len(),
            forall|m: int| 0 <= m < keys.len() ==> #[trigger] keys[m] == events[m] as int,
        decreases seqs.len() - i,
    {
        let chars = chars_of(seqs[i].as_str());
        assert(seqs.deep_view()[i as int] == chars@);
        let ghost before = events@;
        let mut j: usize = 0;
        assert(events@ =~= before + chars@.take(0));
        while j < chars.len()
            invariant
                j <= chars.len(),
                events@ == before + chars@.take(j as int),
                keys.len() == events.len(),
                forall|m: int| 0 <= m < keys.len() ==> #[trigger] keys[m] == events[m] as int,
            decreases chars.len() - j,
        {
            events.push(chars[j]);
            keys.push(key_of_char(chars[j]));
            assert(events@ =~= before + chars@.take(j + 1));
            j += 1;
        }
        assert(chars@.take(chars.len() as int) =~= chars@);
        i += 1;
    }
    let counts = count_chars(&events, &keys);
    let ghost spec_counts = char_counts(events@);
    proof {
        assert(spec_counts.len() == counts.len());
        assert forall|m: int| 0 <= m < counts.len() implies (#[trigger] counts[m]).0
            == spec_counts[m].0 && counts[m].1 == spec_counts[m].1 by {
            assert(counted(counts@)[m] == spec_counts[m]);
        }
    }
    let mut counted: Vec<(char, usize, Option<String>)> = Vec::new();
    let mut k: usize = 0;
    while k < counts.len()
        invariant
            k <= counts.len(),
            counted.len() == k,
            forall|m: int| 0 <= m < counts.len() ==> 1 <= (#[trigger] counts[m]).1,
            forall|m: int|
                0 <= m < k ==> (#[trigger] counted[m]).0 == counts[m].0 && counted[m].1
                    == counts[m].1 && match counted[m].2 {
                    Some(s) => plain_reading(counts[m].0) == Some(s@),
                    None => plain_reading(counts[m].0) is None,
                },
        decreases counts.len() - k,
    {
        counted.push((counts[k].0, counts[k].1, reading_of(counts[k].0)));
        k += 1;
    }
    let r = with_readings(&counted);
    proof {
        if r is Err {
            let c = r->Err_0->NoReading_0;
            let i = choose|i: int| #[trigger] first_unread(counted@, i) && c == counted[i].0;
            assert(c == spec_counts[i].0);
            assert forall|m: int| 0 <= m < i implies plain_reading(
                (#[trigger] spec_counts[m]).0,
            ) is Some by {
                assert(counted[m].2 is Some);
            }
        }
    }
    r
}

/// The candidate lists after one more pair of a character and a syllable:
/// the character is added at the end of the syllable's list unless the list
/// names it already, and a syllable without a list gets one, behind the
/// others.
pub open spec fn add_key(groups: Seq<(Seq<char>, Seq<char>)>, c: char, s: Seq<char>) -> Seq<
    (Seq<char>, Seq<char>),
>
    decreases groups.len(),
{
    if groups.len() == 0 {
        seq![(s, seq![c])]
    } else if groups[0].0 == s {
        seq![
            (
                s,
                if groups[0].1.contains(c) {
                    groups[0].1
                } else {
                    groups[0].1.push(c)
                },
            ),
        ] + groups.drop_first()
    } else {
        seq![groups[0]] + add_key(groups.drop_first(), c, s)
    }
}

/// The candidate lists `earlier` after the first `n` pairs were added, one
/// after the other: the lists that were there stay in their places and keep
/// their characters, new characters follow in the order of the pairs, and
/// new syllables follow in the order in which they occur first.
pub open spec fn grouped(
    earlier: Seq<(Seq<char>, Seq<char>)>,
    keys: Seq<(char, Seq<char>)>,
    n: int,
) -> Seq<(Seq<char>, Seq<char>)>
    decreases n,
{
    if n <= 0 {
        earlier
    } else {
        add_key(grouped(earlier, keys, n - 1), keys[n - 1].0, keys[n - 1].1)
    }
}

/// The characters of the first list of `groups` for the syllable `s`; none
/// where no list is for `s`.
pub open spec fn chars_for(groups: Seq<(Seq<char>, Seq<char>)>, s: Seq<char>) -> Seq<char>
    decreases groups.len(),
{
    if groups.len() == 0 {
        Seq::empty()
    } else if groups[0].0 == s {
        groups[0].1
    } else {
        chars_for(groups.drop_first(), s)
    }
}

/// Whether `groups` holds a list for the syllable `s`.
pub open spec fn has_entry(groups: Seq<(Seq<char>, Seq<char>)>, s: Seq<char>) -> bool
    decreases groups.len(),
{
    groups.len() > 0 && (groups[0].0 == s || has_entry(groups.drop_first(), s))
}

/// Whether every list of `groups` names a character.
pub open spec fn all_filled(groups: Seq<(Seq<char>, Seq<char>)>) -> bool {
    forall|m: int| 0 <= m < groups.len() ==> (#[trigger] groups[m]).1.len() > 0
}

proof fn lemma_push_contains(list: Seq<char>, c: char, d: char)
    ensures
        list.push(c).contains(d) <==> list.contains(d) || d == c,
{
    if list.contains(d) {
        let m = list.index_of(d);
        assert(list.push(c)[m] == d);
    }
    if d == c {
        assert(list.push(c)[list.len() as int] == d);
    }
    if list.push(c).contains(d) {
        let m = list.push(c).index_of(d);
        if m < list.len() {
            assert(list[m] == d);
        }
    }
}

/// One more pair adds its character to the list of its syllable and to no
/// other, gives its syllable a list, takes no list away, and leaves no list
/// empty.
pub proof fn lemma_add_key(
    groups: Seq<(Seq<char>, Seq<char>)>,
    c: char,
    s: Seq<char>,
    x: Seq<char>,
    d: char,
)
    ensures
        chars_for(add_key(groups, c, s), x).contains(d) <==> chars_for(groups, x).contains(d) || (x
            == s && d == c),
        has_entry(add_key(groups, c, s), x) <==> has_entry(groups, x) || x == s,
        all_filled(groups) ==> all_filled(add_key(groups, c, s)),
        add_key(groups, c, s).len() >= groups.len(),
    decreases groups.len(),
{
    let after = add_key(groups, c, s);
    let none = Seq::<(Seq<char>, Seq<char>)>::empty();
    assert(chars_for(none, x) == Seq::<char>::empty());
    assert(!has_entry(none, x));
    assert(after.len() > 0);
    assert(chars_for(after, x) == if after[0].0 == x {
        after[0].1
    } else {
        chars_for(after.drop_first(), x)
    });
    assert(has_entry(after, x) == (after[0].0 == x || has_entry(after.drop_first(), x)));
    if groups.len() == 0 {
        assert(after =~= seq![(s, seq![c])]);
        assert(after[0] == (s, seq![c]));
        assert(after.drop_first() =~= none);
        lemma_push_contains(Seq::empty(), c, d);
        assert(Seq::<char>::empty().push(c) =~= seq![c]);
        assert(!Seq::<char>::empty().contains(d));
        assert(groups =~= none);
    } else if groups[0].0 == s {
        let rest = groups.drop_first();
        assert(after.drop_first() =~= rest);
        assert(after[0].0 == s);
        assert(after[0].1 == if groups[0].1.contains(c) {
            groups[0].1
        } else {
            groups[0].1.push(c)
        });
        lemma_push_contains(groups[0].1, c, d);
        if all_filled(groups) {
            assert forall|m: int| 0 <= m < after.len() implies (#[trigger] after[m]).1.len() > 0 by {
                if m > 0 {
                    assert(after[m] == groups[m]);
                } else {
                    assert(groups[0].1.len() > 0);
                }
            }
        }
    } else {
        let rest = groups.drop_first();
        lemma_add_key(rest, c, s, x, d);
        assert(after.drop_first() =~= add_key(rest, c, s));
        assert(after[0] == groups[0]);
        if all_filled(groups) {
            assert forall|m: int| 0 <= m < rest.len() implies (#[trigger] rest[m]).1.len() > 0 by {
                assert(rest[m] == groups[m + 1]);
            }
            assert forall|m: int| 0 <= m < after.len() implies (#[trigger] after[m]).1.len() > 0 by {
                if m > 0 {
                    assert(after[m] == add_key(rest, c, s)[m - 1]);
                } else {
                    assert(groups[0].1.len() > 0);
                }
            }
        }
    }
}

/// What the candidate lists hold after the pairs were added: a syllable's
/// list names a character exactly where the earlier list named it or a pair
/// gives it for the syllable; a syllable has a list exactly where it had one
/// or a pair names it; and where no earlier list was empty, none is.
pub proof fn lemma_grouped(
    earlier: Seq<(Seq<char>, Seq<char>)>,
    keys: Seq<(char, Seq<char>)>,
    n: int,
    x: Seq<char>,
    d: char,
)
    requires
        0 <= n <= keys.len(),
    ensures
        chars_for(grouped(earlier, keys, n), x).contains(d) <==> chars_for(earlier, x).contains(d) || (
        exists|m: int| 0 <= m < n && #[trigger] keys[m] == (d, x)),
        has_entry(grouped(earlier, keys, n), x) <==> has_entry(earlier, x) || (exists|m: int|
            0 <= m < n && (#[trigger] keys[m]).1 == x),
        all_filled(earlier) ==> all_filled(grouped(earlier, keys, n)),
        grouped(earlier, keys, n).len() >= earlier.len(),
    decreases n,
{
    if n > 0 {
        lemma_grouped(earlier, keys, n - 1, x, d);
        let before = grouped(earlier, keys, n - 1);
        let c = keys[n - 1].0;
        let s = keys[n - 1].1;
        lemma_add_key(before, c, s, x, d);
        if x == s && d == c {
            assert(keys[n - 1] == (d, x));
        }
        if x == s {
            assert(keys[n - 1].1 == x);
        }
    }
}

proof fn lemma_add_key_found(groups: Seq<(Seq<char>, Seq<char>)>, c: char, s: Seq<char>, at: int)
    requires
        0 <= at < groups.len(),
        groups[at].0 == s,
        forall|m: int| 0 <= m < at ==> (#[trigger] groups[m]).0 != s,
    ensures
        add_key(groups, c, s) == groups.update(
            at,
            (
                s,
                if groups[at].1.contains(c) {
                    groups[at].1
                } else {
                    groups[at].1.push(c)
                },
            ),
        ),
    decreases groups.len(),
{
    let entry = (
        s,
        if groups[at].1.contains(c) {
            groups[at].1
        } else {
            groups[at].1.push(c)
        },
    );
    if at == 0 {
        assert(add_key(groups, c, s) =~= groups.update(at, entry));
    } else {
        let rest = groups.drop_first();
        assert(groups[0].0 != s);
        assert forall|m: int| 0 <= m < at - 1 implies (#[trigger] rest[m]).0 != s by {
            assert(rest[m] == groups[m + 1]);
        }
        lemma_add_key_found(rest, c, s, at - 1);
        assert(seq![groups[0]] + rest.update(at - 1, entry) =~= groups.update(at, entry));
    }
}

proof fn lemma_add_key_new(groups: Seq<(Seq<char>, Seq<char>)>, c: char, s: Seq<char>)
    requires
        forall|m: int| 0 <= m < groups.len() ==> (#[trigger] groups[m]).0 != s,
    ensures
        add_key(groups, c, s) == groups.push((s, seq![c])),
    decreases groups.len(),
{
    if groups.len() == 0 {
        assert(add_key(groups, c, s) =~= groups.push((s, seq![c])));
    } else {
        let rest = groups.drop_first();
        assert(groups[0].0 != s);
        assert forall|m: int| 0 <= m < rest.len() implies (#[trigger] rest[m]).0 != s by {
            assert(rest[m] == groups[m + 1]);
        }
        lemma_add_key_new(rest, c, s);
        assert(seq![groups[0]] + rest.push((s, seq![c])) =~= groups.push((s, seq![c])));
    }
}

/// Where `name` stands first in `names`.
fn find_name(names: &Vec<String>, name: &String) -> (at: Option<usize>)
    ensures
        match at {
            Some(i) => i < names.len() && names[i as int]@ == name@ && forall|m: int|
                0 <= m < i ==> (#[trigger] names[m])@ != name@,
            None => forall|m: int| 0 <= m < names.len() ==> (#[trigger] names[m])@ != name@,
        },
{
    let mut i: usize = 0;
    while i < names.len()
        invariant
            i <= names.len(),
            forall|m: int| 0 <= m < i ==> (#[trigger] names[m])@ != name@,
        decreases names.len() - i,
    {
        if names[i] == *name {
            return Some(i);
        }
        i += 1;
    }
    None
}

/// A copy of `list` with `c` added at its end.
fn with_char(list: &Vec<char>, c: char) -> (longer: Vec<char>)
    ensures
        longer@ == list@.push(c),
{
    let mut longer: Vec<char> = Vec::new();
    let mut i: usize = 0;
    while i < list.len()
        invariant
            i <= list.len(),
            longer@ == list@.take(i as int),
        decreases list.len() - i,
    {
        longer.push(list[i]);
        assert(longer@ =~= list@.take(i + 1));
        i += 1;
    }
    assert(list@.take(list.len() as int) =~= list@);
    longer.push(c);
    longer
}

/// Adds the candidate characters that pairs of a character and a syllable
/// give to the candidate lists `earlier`, each a syllable with its
/// characters as one string. A character goes to the end of the first list
/// for its syllable unless that list names it already; a syllable without a
/// list gets one, behind the others. With no earlier list, the result holds
/// each syllable once, in the order in which the syllables occur first, and
/// each of its characters once, in the order in which they occur first with
/// it.
pub fn pinyin_states(earlier: &Vec<(String, String)>, keys: &Vec<(char, String)>) -> (states: Vec<
    (String, String),
>)
    ensures
        states.deep_view() == grouped(earlier.deep_view(), keys.deep_view(), keys.len() as int),
        states.len() >= earlier.len(),
        forall|x: Seq<char>, d: char|
            #[trigger] chars_for(states.deep_view(), x).contains(d) <==> chars_for(
                earlier.deep_view(),
                x,
            ).contains(d) || keys.deep_view().contains((d, x)),
        forall|x: Seq<char>| #[trigger]
            has_entry(states.deep_view(), x) <==> has_entry(earlier.deep_view(), x) || exists|
                m: int,
            |
                0 <= m < keys.len() && (#[trigger] keys.deep_view()[m]).1 == x,
        all_filled(earlier.deep_view()) ==> all_filled(states.deep_view()),
{
    let ghost start = earlier.deep_view();
    let mut names: Vec<String> = Vec::new();
    let mut lists: Vec<Vec<char>> = Vec::new();
    let mut e: usize = 0;
    while e < earlier.len()
        invariant
            e <= earlier.len(),
            start == earlier.deep_view(),
            names.len() == e,
            lists.len() == e,
            forall|m: int| 0 <= m < e ==> (#[trigger] names[m])@ == start[m].0,
            forall|m: int| 0 <= m < e ==> (#[trigger] lists[m])@ == start[m].1,
        decreases earlier.len() - e,
    {
        names.push(earlier[e].0.clone());
        lists.push(chars_of(earlier[e].1.as_str()));
        e += 1;
    }
    let ghost all = keys.deep_view();
    let mut i: usize = 0;
    while i < keys.len()
        invariant
            i <= keys.len(),
            all == keys.deep_view(),
            names.len() == grouped(start, all, i as int).len(),
            lists.len() == names.len(),
            forall|m: int|
                0 <= m < names.len() ==> (#[trigger] names[m])@ == grouped(start, all, i as int)[m].0,
            forall|m: int|
                0 <= m < lists.len() ==> (#[trigger] lists[m])@ == grouped(start, all, i as int)[m].1,
        decreases keys.len() - i,
    {
        let ghost groups = grouped(start, all, i as int);
        let c = keys[i].0;
        let s = &keys[i].1;
        assert(all[i as int] == (c, s@));
        match find_name(&names, s) {
            Some(at) => {
                proof {
                    assert forall|m: int| 0 <= m < at implies (#[trigger] groups[m]).0 != s@ by {
                        assert(names[m]@ != s@);
                    }
                    lemma_add_key_found(groups, c, s@, at as int);
                }
                if !contains_char(&lists[at], c) {
                    let longer = with_char(&lists[at], c);
                    lists.set(at, longer);
                }
            },
            None => {
                proof {
                    assert forall|m: int| 0 <= m < groups.len() implies (#[trigger] groups[m]).0
                        != s@ by {
                        assert(names[m]@ != s@);
                    }
                    lemma_add_key_new(groups, c, s@);
                }
                names.push(s.clone());
                let mut list: Vec<char> = Vec::new();
                list.push(c);
                assert(list@ =~= seq![c]);
                lists.push(list);
            },
        }
        i += 1;
    }
    let ghost groups = grouped(start, all, keys.len() as int);
    let mut states: Vec<(String, String)> = Vec::new();
    let mut m: usize = 0;
    while m < names.len()
        invariant
            m <= names.len(),
            names.len() == groups.len(),
            lists.len() == names.len(),
            forall|n: int| 0 <= n < names.len() ==> (#[trigger] names[n])@ == groups[n].0,
            forall|n: int| 0 <= n < lists.len() ==> (#[trigger] lists[n])@ == groups[n].1,
            states.len() == m,
            forall|n: int| 0 <= n < m ==> (#[trigger] states[n]).0@ == groups[n].0 && states[n].1@
                == groups[n].1,
        decreases names.len() - m,
    {
        let text = string_of(&lists[m], 0, lists[m].len());
        assert(lists[m as int]@.subrange(0, lists[m as int].len() as int) =~= lists[m as int]@);
        states.push((names[m].clone(), text));
        m += 1;
    }
    assert(states.deep_view() =~= groups);
    proof {
        assert forall|x: Seq<char>, d: char| #[trigger]
            chars_for(groups, x).contains(d) <==> chars_for(start, x).contains(d) || all.contains(
                (d, x),
            ) by {
            lemma_grouped(start, all, all.len() as int, x, d);
            if all.contains((d, x)) {
                let m = all.index_of((d, x));
                assert(all[m] == (d, x));
            }
        }
        assert forall|x: Seq<char>| #[trigger]
            has_entry(groups, x) <==> has_entry(start, x) || exists|m: int|
                0 <= m < keys.len() && (#[trigger] all[m]).1 == x by {
            lemma_grouped(start, all, all.len() as int, x, 'a');
        }
        lemma_grouped(start, all, all.len() as int, Seq::empty(), 'a');
    }
    states
}

} // verus!
