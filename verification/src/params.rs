//! The model's parameter tables.
//!
//! A log-probability is held as an integer: a number of fixed-point units
//! between the floor `MIN_LOG` and zero. The size of the unit is the
//! caller's choice, the same for all tables. Sums of such values are exact,
//! so the order of two scores never depends on rounding.

use crate::corpus::chars_of;
use std::collections::HashMap;
use vstd::prelude::*;

verus! {

broadcast use vstd::std_specs::hash::group_hash_axioms;

/// The floor that stands for the log-probability of an entry that a table
/// does not hold. No stored log-probability lies below it.
pub const MIN_LOG: i64 = -1_000_000_000_000_000;

/// The key that stands for the beginning of a sequence in a stored
/// transition.
pub const BOS: &'static str = "BOS";

/// The key that stands for the end of a sequence in a stored transition.
pub const EOS: &'static str = "EOS";

/// The largest number of letters of a syllable that the tables can hold.
pub const MAX_SYLLABLE_LEN: usize = 8;

/// Whether `v` can be stored as a log-probability.
pub open spec fn is_log_prob(v: int) -> bool {
    MIN_LOG <= v <= 0
}

/// Whether `c` is one of the letters `a` to `z`.
pub open spec fn is_lower(c: char) -> bool {
    97 <= c as int <= 122
}

/// Whether `s` has the shape of a syllable: one to eight letters `a` to `z`.
pub open spec fn is_syllable_text(s: Seq<char>) -> bool {
    &&& 0 < s.len() <= MAX_SYLLABLE_LEN
    &&& forall|i: int| 0 <= i < s.len() ==> is_lower(#[trigger] s[i])
}

/// The mathematical content of the parameter tables.
pub struct Tables {
    /// Log-probability that a character opens a sequence.
    pub init: Map<char, int>,
    /// Log-probability of a character (first) after another (second).
    pub trans: Map<(char, char), int>,
    /// Log-probability that a sequence ends after a character.
    pub eos: Map<char, int>,
    /// Log-probability of a syllable given a character.
    pub emiss: Map<(char, Seq<char>), int>,
    /// The candidate characters of each syllable, in stored order.
    pub states: Map<Seq<char>, Seq<char>>,
}

impl Tables {
    /// The initial log-probability of `c`, the floor where the table has none.
    pub open spec fn init_of(self, c: char) -> int {
        if self.init.contains_key(c) {
            self.init[c]
        } else {
            MIN_LOG as int
        }
    }

    /// The log-probability of `post` following `pre`, the floor where the
    /// table has none.
    pub open spec fn trans_of(self, post: char, pre: char) -> int {
        if self.trans.contains_key((post, pre)) {
            self.trans[(post, pre)]
        } else {
            MIN_LOG as int
        }
    }

    /// The log-probability of the sequence ending after `c`, the floor where
    /// the table has none.
    pub open spec fn eos_of(self, c: char) -> int {
        if self.eos.contains_key(c) {
            self.eos[c]
        } else {
            MIN_LOG as int
        }
    }

    /// The log-probability of `syllable` given `c`, the floor where the table
    /// has none.
    pub open spec fn emiss_of(self, c: char, syllable: Seq<char>) -> int {
        if self.emiss.contains_key((c, syllable)) {
            self.emiss[(c, syllable)]
        } else {
            MIN_LOG as int
        }
    }

    /// The candidate characters of `syllable`, none where the table has no
    /// entry for it.
    pub open spec fn candidates(self, syllable: Seq<char>) -> Seq<char> {
        if self.states.contains_key(syllable) {
            self.states[syllable]
        } else {
            Seq::empty()
        }
    }

    /// Every stored value is a log-probability, and no candidate list names a
    /// character twice.
    pub open spec fn wf(self) -> bool {
        &&& forall|c: char| self.init.contains_key(c) ==> is_log_prob(#[trigger] self.init[c])
        &&& forall|k: (char, char)|
            self.trans.contains_key(k) ==> is_log_prob(#[trigger] self.trans[k])
        &&& forall|c: char| self.eos.contains_key(c) ==> is_log_prob(#[trigger] self.eos[c])
        &&& forall|k: (char, Seq<char>)|
            self.emiss.contains_key(k) ==> is_log_prob(#[trigger] self.emiss[k])
        &&& forall|s: Seq<char>|
            self.states.contains_key(s) ==> (#[trigger] self.states[s]).no_duplicates()
    }

    /// What is stored is what is read: a lookup gives the value stored last
    /// for its key, and a value stored for another key leaves it as it was.
    pub proof fn lemma_read_back(self, a: char, b: char, s: Seq<char>, v: int, c: char, d: char, u: Seq<char>)
        ensures
            (Tables { init: self.init.insert(a, v), ..self }).init_of(a) == v,
            c != a ==> (Tables { init: self.init.insert(a, v), ..self }).init_of(c) == self.init_of(c),
            (Tables { trans: self.trans.insert((a, b), v), ..self }).trans_of(a, b) == v,
            (c, d) != (a, b) ==> (Tables { trans: self.trans.insert((a, b), v), ..self }).trans_of(c, d)
                == self.trans_of(c, d),
            (Tables { eos: self.eos.insert(a, v), ..self }).eos_of(a) == v,
            c != a ==> (Tables { eos: self.eos.insert(a, v), ..self }).eos_of(c) == self.eos_of(c),
            (Tables { emiss: self.emiss.insert((a, s), v), ..self }).emiss_of(a, s) == v,
            (c, u) != (a, s) ==> (Tables { emiss: self.emiss.insert((a, s), v), ..self }).emiss_of(c, u)
                == self.emiss_of(c, u),
    {
    }

    /// Storing a log-probability in the initial table keeps the tables valid.
    pub proof fn lemma_wf_with_init(self, c: char, v: int)
        requires
            self.wf(),
            is_log_prob(v),
        ensures
            (Tables { init: self.init.insert(c, v), ..self }).wf(),
    {
        let t = Tables { init: self.init.insert(c, v), ..self };
        assert forall|d: char| t.init.contains_key(d) implies is_log_prob(#[trigger] t.init[d]) by {
            if d != c {
                assert(is_log_prob(self.init[d]));
            }
        }
    }

    /// Storing a log-probability in the transition table keeps the tables valid.
    pub proof fn lemma_wf_with_trans(self, post: char, pre: char, v: int)
        requires
            self.wf(),
            is_log_prob(v),
        ensures
            (Tables { trans: self.trans.insert((post, pre), v), ..self }).wf(),
    {
        let t = Tables { trans: self.trans.insert((post, pre), v), ..self };
        assert forall|d: (char, char)| t.trans.contains_key(d) implies is_log_prob(
            #[trigger] t.trans[d],
        ) by {
            if d != (post, pre) {
                assert(is_log_prob(self.trans[d]));
            }
        }
    }

    /// Storing a log-probability in the table of endings keeps the tables valid.
    pub proof fn lemma_wf_with_eos(self, c: char, v: int)
        requires
            self.wf(),
            is_log_prob(v),
        ensures
            (Tables { eos: self.eos.insert(c, v), ..self }).wf(),
    {
        let t = Tables { eos: self.eos.insert(c, v), ..self };
        assert forall|d: char| t.eos.contains_key(d) implies is_log_prob(#[trigger] t.eos[d]) by {
            if d != c {
                assert(is_log_prob(self.eos[d]));
            }
        }
    }

    /// Storing a log-probability in the emission table keeps the tables valid.
    pub proof fn lemma_wf_with_emiss(self, c: char, syllable: Seq<char>, v: int)
        requires
            self.wf(),
            is_log_prob(v),
        ensures
            (Tables { emiss: self.emiss.insert((c, syllable), v), ..self }).wf(),
    {
        let t = Tables { emiss: self.emiss.insert((c, syllable), v), ..self };
        assert forall|d: (char, Seq<char>)| t.emiss.contains_key(d) implies is_log_prob(
            #[trigger] t.emiss[d],
        ) by {
            if d != (c, syllable) {
                assert(is_log_prob(self.emiss[d]));
            }
        }
    }

    /// Storing a candidate list without repetition keeps the tables valid.
    pub proof fn lemma_wf_with_states(self, syllable: Seq<char>, list: Seq<char>)
        requires
            self.wf(),
            list.no_duplicates(),
        ensures
            (Tables { states: self.states.insert(syllable, list), ..self }).wf(),
    {
        let t = Tables { states: self.states.insert(syllable, list), ..self };
        assert forall|d: Seq<char>| t.states.contains_key(d) implies (
        #[trigger] t.states[d]).no_duplicates() by {
            if d != syllable {
                assert(self.states[d].no_duplicates());
            }
        }
    }

    /// What `store_trans` makes of the tables for a stored transition with
    /// valid keys: a transition to the end marker goes to the table of
    /// endings, one from the beginning marker is left out, and one between
    /// two characters goes to the transition table.
    pub open spec fn with_stored_trans(self, post: Seq<char>, pre: Seq<char>, v: int) -> Tables {
        if post == EOS@ {
            Tables { eos: self.eos.insert(pre[0], v), ..self }
        } else if pre == BOS@ {
            self
        } else {
            Tables { trans: self.trans.insert((post[0], pre[0]), v), ..self }
        }
    }

    /// What `store_states` makes of the tables: the characters of `chars`
    /// from `from` on are added to the candidates of `syllable`, one after the
    /// other.
    pub open spec fn with_states(self, syllable: Seq<char>, chars: Seq<char>, from: int) -> Tables
        decreases chars.len() - from,
    {
        if from < 0 || from >= chars.len() {
            self
        } else {
            self.with_state(syllable, chars[from]).with_states(syllable, chars, from + 1)
        }
    }

    /// What `add_state` makes of the candidate list of `syllable`: `c` is
    /// added at its end unless the list names it already.
    pub open spec fn with_state(self, syllable: Seq<char>, c: char) -> Tables {
        let list = self.candidates(syllable);
        Tables {
            states: self.states.insert(
                syllable,
                if list.contains(c) {
                    list
                } else {
                    list.push(c)
                },
            ),
            ..self
        }
    }

    /// Tables without any entry.
    pub open spec fn empty() -> Tables {
        Tables {
            init: Map::empty(),
            trans: Map::empty(),
            eos: Map::empty(),
            emiss: Map::empty(),
            states: Map::empty(),
        }
    }
}

/// The number that stands for a letter: 1 for `a` up to 26 for `z`.
pub open spec fn letter_digit(c: char) -> nat {
    (c as int - 96) as nat
}

/// The number that stands for a syllable: its letters read as digits in base 27.
pub open spec fn code_of(s: Seq<char>) -> nat
    decreases s.len(),
{
    if s.len() == 0 {
        0
    } else {
        code_of(s.drop_last()) * 27 + letter_digit(s.last())
    }
}

/// 27 to the power `n`.
pub open spec fn pow27(n: nat) -> nat
    decreases n,
{
    if n == 0 {
        1
    } else {
        27 * pow27((n - 1) as nat)
    }
}

/// The code of a string of letters is positive where the string is not empty,
/// and below 27 to the power of its length.
pub proof fn lemma_code_bounds(s: Seq<char>)
    requires
        forall|i: int| 0 <= i < s.len() ==> is_lower(#[trigger] s[i]),
    ensures
        code_of(s) < pow27(s.len()),
        s.len() > 0 ==> code_of(s) > 0,
    decreases s.len(),
{
    if s.len() > 0 {
        lemma_code_bounds(s.drop_last());
        assert(is_lower(s[s.len() - 1]));
    }
}

/// Two strings of letters with the same code are the same string.
pub proof fn lemma_code_injective(s: Seq<char>, t: Seq<char>)
    requires
        forall|i: int| 0 <= i < s.len() ==> is_lower(#[trigger] s[i]),
        forall|i: int| 0 <= i < t.len() ==> is_lower(#[trigger] t[i]),
        code_of(s) == code_of(t),
    ensures
        s == t,
    decreases s.len(),
{
    lemma_code_bounds(s);
    lemma_code_bounds(t);
    if s.len() == 0 || t.len() == 0 {
        assert(s =~= t);
    } else {
        assert(is_lower(s[s.len() - 1]));
        assert(is_lower(t[t.len() - 1]));
        let a = code_of(s.drop_last());
        let b = code_of(t.drop_last());
        let x = letter_digit(s.last());
        let y = letter_digit(t.last());
        assert(1 <= x <= 26 && 1 <= y <= 26);
        assert(code_of(s) == a * 27 + x);
        assert(code_of(t) == b * 27 + y);
        assert(a == b && x == y);
        assert(s.last() as int == t.last() as int);
        assert(s.last() == t.last());
        lemma_code_injective(s.drop_last(), t.drop_last());
        assert(s =~= s.drop_last().push(s.last()));
        assert(t =~= t.drop_last().push(t.last()));
    }
}

proof fn lemma_pow27_8()
    ensures
        pow27(8) == 282429536481,
{
    reveal_with_fuel(pow27, 9);
}

proof fn lemma_pow27_monotonic(a: nat, b: nat)
    requires
        a <= b,
    ensures
        pow27(a) <= pow27(b),
    decreases b,
{
    if a < b {
        lemma_pow27_monotonic(a, (b - 1) as nat);
    }
}

/// The code of `syllable`, where it has the shape of a syllable.
pub fn syllable_code(syllable: &str) -> (code: Option<u64>)
    ensures
        code is Some <==> is_syllable_text(syllable@),
        code is Some ==> code->0 == code_of(syllable@) && 0 < code->0 < 282429536481,
{
    let len: usize = syllable.unicode_len();
    if len == 0 || len > MAX_SYLLABLE_LEN {
        return None;
    }
    let mut code: u64 = 0;
    let mut i: usize = 0;
    while i < len
        invariant
            i <= len <= 8,
            len == syllable@.len(),
            code == code_of(syllable@.subrange(0, i as int)),
            forall|m: int| 0 <= m < i ==> is_lower(#[trigger] syllable@[m]),
            code < pow27(i as nat),
        decreases len - i,
    {
        let c = syllable.get_char(i);
        let n: u32 = c as u32;
        if n < 97 || n > 122 {
            return None;
        }
        proof {
            let next = syllable@.subrange(0, i + 1);
            assert(next.drop_last() =~= syllable@.subrange(0, i as int));
            assert(next.last() == c);
            lemma_pow27_monotonic((i + 1) as nat, 8);
            lemma_pow27_8();
        }
        code = code * 27 + (n - 96) as u64;
        i += 1;
    }
    proof {
        assert(syllable@.subrange(0, len as int) =~= syllable@);
        lemma_pow27_monotonic(len as nat, 8);
        lemma_pow27_8();
        lemma_code_bounds(syllable@);
    }
    Some(code)
}

/// Why a value was not stored.
#[derive(Clone, Copy, Debug, PartialEq, Eq)]
pub enum ParamError {
    /// The syllable is not one to eight letters `a` to `z`.
    BadSyllable,
    /// The key is neither one character nor a marker where one may stand.
    BadKey,
    /// The value is above zero or below the floor.
    OutOfRange,
}

/// Whether the keys of a stored transition are valid: the end marker after
/// one character, one character after the beginning marker, or one
/// character after another.
pub open spec fn is_trans_key(post: Seq<char>, pre: Seq<char>) -> bool {
    ||| post == EOS@ && pre.len() == 1
    ||| pre == BOS@ && post.len() == 1
    ||| post.len() == 1 && pre.len() == 1
}

/// The character of a text of one character.
pub fn single_char(text: &str) -> (c: Option<char>)
    ensures
        c == if text@.len() == 1 {
            Some(text@[0])
        } else {
            None::<char>
        },
{
    if text.unicode_len() == 1 {
        Some(text.get_char(0))
    } else {
        None
    }
}

/// Whether two texts are the same.
fn same_text(a: &str, b: &str) -> (same: bool)
    ensures
        same == (a@ == b@),
{
    String::from_str(a) == String::from_str(b)
}

/// The key of a character in the tables that are indexed by one character.
pub open spec fn char_key(c: char) -> int {
    c as int
}

/// The key of a pair of characters in the transition table.
pub open spec fn pair_key(post: char, pre: char) -> int {
    post as int * 0x1_0000_0000 + pre as int
}

/// The key of a character and a syllable's code in the emission table.
pub open spec fn emiss_key(c: char, code: nat) -> int {
    c as int * 0x100_0000_0000 + code
}

/// Whether `c` is an element of `list`.
pub fn contains_char(list: &Vec<char>, c: char) -> (found: bool)
    ensures
        found == list@.contains(c),
{
    let mut i: usize = 0;
    while i < list.len()
        invariant
            i <= list.len(),
            forall|m: int| 0 <= m < i ==> list@[m] != c,
        decreases list.len() - i,
    {
        if list[i] == c {
            return true;
        }
        i += 1;
    }
    false
}

fn key_of_char(c: char) -> (k: u32)
    ensures
        k == char_key(c),
        k <= 0x10FFFF,
{
    c as u32
}

fn key_of_pair(post: char, pre: char) -> (k: u64)
    ensures
        k == pair_key(post, pre),
{
    let a: u64 = key_of_char(post) as u64;
    let b: u64 = key_of_char(pre) as u64;
    a * 0x1_0000_0000 + b
}

fn key_of_emiss(c: char, code: u64) -> (k: u64)
    requires
        code < 282429536481,
    ensures
        k == emiss_key(c, code as nat),
{
    let a: u64 = key_of_char(c) as u64;
    a * 0x100_0000_0000 + code
}

/// The parameter tables of the model.
pub struct Params {
    init: HashMap<u32, i64>,
    trans: HashMap<u64, i64>,
    eos: HashMap<u32, i64>,
    emiss: HashMap<u64, i64>,
    states: HashMap<u64, Vec<char>>,
}

/// What a table keyed by one character holds.
pub closed spec fn char_table(m: Map<u32, i64>) -> Map<char, int> {
    Map::new(|c: char| m.contains_key(char_key(c) as u32), |c: char| m[char_key(c) as u32] as int)
}

/// What the transition table holds.
pub closed spec fn pair_table(m: Map<u64, i64>) -> Map<(char, char), int> {
    Map::new(
        |k: (char, char)| m.contains_key(pair_key(k.0, k.1) as u64),
        |k: (char, char)| m[pair_key(k.0, k.1) as u64] as int,
    )
}

/// What the emission table holds.
pub closed spec fn emiss_table(m: Map<u64, i64>) -> Map<(char, Seq<char>), int> {
    Map::new(
        |k: (char, Seq<char>)|
            is_syllable_text(k.1) && m.contains_key(emiss_key(k.0, code_of(k.1)) as u64),
        |k: (char, Seq<char>)| m[emiss_key(k.0, code_of(k.1)) as u64] as int,
    )
}

/// What the table of candidate characters holds.
pub closed spec fn states_table(m: Map<u64, Vec<char>>) -> Map<Seq<char>, Seq<char>> {
    Map::new(
        |s: Seq<char>| is_syllable_text(s) && m.contains_key(code_of(s) as u64),
        |s: Seq<char>| m[code_of(s) as u64]@,
    )
}

proof fn lemma_char_table_insert(m: Map<u32, i64>, c: char, v: i64)
    ensures
        char_table(m.insert(char_key(c) as u32, v)) == char_table(m).insert(c, v as int),
{
    let a = char_table(m.insert(char_key(c) as u32, v));
    let b = char_table(m).insert(c, v as int);
    assert forall|d: char| #[trigger] a.dom().contains(d) == b.dom().contains(d) by {
        lemma_char_key_injective(c, d);
    }
    assert(a.dom() =~= b.dom());
    assert forall|d: char| #[trigger] a.dom().contains(d) implies a[d] == b[d] by {
        lemma_char_key_injective(c, d);
    }
    assert(a =~= b);
}

proof fn lemma_char_key_injective(a: char, b: char)
    ensures
        char_key(a) as u32 == char_key(b) as u32 ==> a == b,
        0 <= char_key(a) <= 0x10FFFF,
        0 <= char_key(b) <= 0x10FFFF,
{
}

proof fn lemma_pair_key_injective(a: (char, char), b: (char, char))
    ensures
        pair_key(a.0, a.1) as u64 == pair_key(b.0, b.1) as u64 ==> a == b,
        0 <= pair_key(a.0, a.1) <= u64::MAX,
        0 <= pair_key(b.0, b.1) <= u64::MAX,
{
    lemma_char_key_injective(a.0, b.0);
    lemma_char_key_injective(a.1, b.1);
}

proof fn lemma_pair_table_insert(m: Map<u64, i64>, k: (char, char), v: i64)
    ensures
        pair_table(m.insert(pair_key(k.0, k.1) as u64, v)) == pair_table(m).insert(k, v as int),
{
    let a = pair_table(m.insert(pair_key(k.0, k.1) as u64, v));
    let b = pair_table(m).insert(k, v as int);
    assert forall|d: (char, char)| #[trigger] a.dom().contains(d) == b.dom().contains(d) by {
        lemma_pair_key_injective(k, d);
    }
    assert(a.dom() =~= b.dom());
    assert forall|d: (char, char)| #[trigger] a.dom().contains(d) implies a[d] == b[d] by {
        lemma_pair_key_injective(k, d);
    }
    assert(a =~= b);
}

proof fn lemma_syllable_code_range(s: Seq<char>)
    requires
        is_syllable_text(s),
    ensures
        0 < code_of(s) < 282429536481,
{
    lemma_code_bounds(s);
    lemma_pow27_monotonic(s.len(), 8);
    lemma_pow27_8();
}

proof fn lemma_emiss_key_injective(a: (char, Seq<char>), b: (char, Seq<char>))
    requires
        is_syllable_text(a.1),
        is_syllable_text(b.1),
    ensures
        emiss_key(a.0, code_of(a.1)) as u64 == emiss_key(b.0, code_of(b.1)) as u64 ==> a == b,
        0 <= emiss_key(a.0, code_of(a.1)) <= u64::MAX,
        0 <= emiss_key(b.0, code_of(b.1)) <= u64::MAX,
{
    lemma_char_key_injective(a.0, b.0);
    lemma_syllable_code_range(a.1);
    lemma_syllable_code_range(b.1);
    if emiss_key(a.0, code_of(a.1)) as u64 == emiss_key(b.0, code_of(b.1)) as u64 {
        assert(code_of(a.1) == code_of(b.1));
        lemma_code_injective(a.1, b.1);
    }
}

proof fn lemma_emiss_table_insert(m: Map<u64, i64>, k: (char, Seq<char>), v: i64)
    requires
        is_syllable_text(k.1),
    ensures
        emiss_table(m.insert(emiss_key(k.0, code_of(k.1)) as u64, v)) == emiss_table(m).insert(
            k,
            v as int,
        ),
{
    let a = emiss_table(m.insert(emiss_key(k.0, code_of(k.1)) as u64, v));
    let b = emiss_table(m).insert(k, v as int);
    assert forall|d: (char, Seq<char>)| #[trigger] a.dom().contains(d) == b.dom().contains(d) by {
        if is_syllable_text(d.1) {
            lemma_emiss_key_injective(k, d);
        }
    }
    assert(a.dom() =~= b.dom());
    assert forall|d: (char, Seq<char>)| #[trigger] a.dom().contains(d) implies a[d] == b[d] by {
        lemma_emiss_key_injective(k, d);
    }
    assert(a =~= b);
}

proof fn lemma_states_table_insert(m: Map<u64, Vec<char>>, s: Seq<char>, v: Vec<char>)
    requires
        is_syllable_text(s),
    ensures
        states_table(m.insert(code_of(s) as u64, v)) == states_table(m).insert(s, v@),
{
    let a = states_table(m.insert(code_of(s) as u64, v));
    let b = states_table(m).insert(s, v@);
    lemma_syllable_code_range(s);
    assert forall|d: Seq<char>| #[trigger] a.dom().contains(d) == b.dom().contains(d) by {
        if is_syllable_text(d) {
            lemma_syllable_code_range(d);
            if code_of(s) == code_of(d) {
                lemma_code_injective(s, d);
            }
        }
    }
    assert(a.dom() =~= b.dom());
    assert forall|d: Seq<char>| #[trigger] a.dom().contains(d) implies a[d] == b[d] by {
        lemma_syllable_code_range(d);
        if code_of(s) == code_of(d) {
            lemma_code_injective(s, d);
        }
    }
    assert(a =~= b);
}

impl View for Params {
    type V = Tables;

    closed spec fn view(&self) -> Tables {
        Tables {
            init: char_table(self.init@),
            trans: pair_table(self.trans@),
            eos: char_table(self.eos@),
            emiss: emiss_table(self.emiss@),
            states: states_table(self.states@),
        }
    }
}

impl Params {
    /// The tables' validity: what `Tables::wf` says of their content.
    pub open spec fn wf(&self) -> bool {
        self@.wf()
    }

    /// Tables without any entry: every lookup gives the floor, and no syllable
    /// has a candidate.
    pub fn new() -> (params: Params)
        ensures
            params@ == Tables::empty(),
            params.wf(),
    {
        let params = Params {
            init: HashMap::new(),
            trans: HashMap::new(),
            eos: HashMap::new(),
            emiss: HashMap::new(),
            states: HashMap::new(),
        };
        proof {
            assert(params@.init =~= Map::empty());
            assert(params@.trans =~= Map::empty());
            assert(params@.eos =~= Map::empty());
            assert(params@.emiss =~= Map::empty());
            assert(params@.states =~= Map::empty());
        }
        params
    }

    /// Stores `v` as the initial log-probability of `c`.
    pub fn set_init(&mut self, c: char, v: i64) -> (r: Result<(), ParamError>)
        requires
            old(self).wf(),
        ensures
            final(self).wf(),
            is_log_prob(v as int) ==> r is Ok && final(self)@ == (Tables {
                init: old(self)@.init.insert(c, v as int),
                ..old(self)@
            }),
            !is_log_prob(v as int) ==> r == Err::<(), ParamError>(ParamError::OutOfRange)
                && final(self)@ == old(self)@,
    {
        if v < MIN_LOG || v > 0 {
            return Err(ParamError::OutOfRange);
        }
        self.init.insert(key_of_char(c), v);
        proof {
            lemma_char_table_insert(old(self).init@, c, v);
            old(self)@.lemma_wf_with_init(c, v as int);
        }
        Ok(())
    }

    /// Stores `v` as the log-probability of `post` following `pre`.
    pub fn set_trans(&mut self, post: char, pre: char, v: i64) -> (r: Result<(), ParamError>)
        requires
            old(self).wf(),
        ensures
            final(self).wf(),
            is_log_prob(v as int) ==> r is Ok && final(self)@ == (Tables {
                trans: old(self)@.trans.insert((post, pre), v as int),
                ..old(self)@
            }),
            !is_log_prob(v as int) ==> r == Err::<(), ParamError>(ParamError::OutOfRange)
                && final(self)@ == old(self)@,
    {
        if v < MIN_LOG || v > 0 {
            return Err(ParamError::OutOfRange);
        }
        self.trans.insert(key_of_pair(post, pre), v);
        proof {
            lemma_pair_table_insert(old(self).trans@, (post, pre), v);
            old(self)@.lemma_wf_with_trans(post, pre, v as int);
        }
        Ok(())
    }

    /// Stores `v` as the log-probability of a sequence ending after `c`.
    pub fn set_eos(&mut self, c: char, v: i64) -> (r: Result<(), ParamError>)
        requires
            old(self).wf(),
        ensures
            final(self).wf(),
            is_log_prob(v as int) ==> r is Ok && final(self)@ == (Tables {
                eos: old(self)@.eos.insert(c, v as int),
                ..old(self)@
            }),
            !is_log_prob(v as int) ==> r == Err::<(), ParamError>(ParamError::OutOfRange)
                && final(self)@ == old(self)@,
    {
        if v < MIN_LOG || v > 0 {
            return Err(ParamError::OutOfRange);
        }
        self.eos.insert(key_of_char(c), v);
        proof {
            lemma_char_table_insert(old(self).eos@, c, v);
            old(self)@.lemma_wf_with_eos(c, v as int);
        }
        Ok(())
    }

    /// Stores `v` as the log-probability of `syllable` given `c`.
    pub fn set_emiss(&mut self, c: char, syllable: &str, v: i64) -> (r: Result<(), ParamError>)
        requires
            old(self).wf(),
        ensures
            final(self).wf(),
            is_syllable_text(syllable@) && is_log_prob(v as int) ==> r is Ok && final(self)@ == (Tables {
                emiss: old(self)@.emiss.insert((c, syllable@), v as int),
                ..old(self)@
            }),
            !is_syllable_text(syllable@) ==> r == Err::<(), ParamError>(ParamError::BadSyllable)
                && final(self)@ == old(self)@,
            is_syllable_text(syllable@) && !is_log_prob(v as int) ==> r == Err::<(), ParamError>(
                ParamError::OutOfRange,
            ) && final(self)@ == old(self)@,
    {
        let code = match syllable_code(syllable) {
            Some(code) => code,
            None => {
                return Err(ParamError::BadSyllable);
            },
        };
        if v < MIN_LOG || v > 0 {
            return Err(ParamError::OutOfRange);
        }
        self.emiss.insert(key_of_emiss(c, code), v);
        proof {
            lemma_emiss_table_insert(old(self).emiss@, (c, syllable@), v);
            old(self)@.lemma_wf_with_emiss(c, syllable@, v as int);
        }
        Ok(())
    }

    /// Adds `c` to the candidate characters of `syllable`, at the end, unless
    /// it is one of them already.
    pub fn add_state(&mut self, syllable: &str, c: char) -> (r: Result<(), ParamError>)
        requires
            old(self).wf(),
        ensures
            final(self).wf(),
            is_syllable_text(syllable@) ==> r is Ok && final(self)@ == old(self)@.with_state(
                syllable@,
                c,
            ),
            !is_syllable_text(syllable@) ==> r == Err::<(), ParamError>(ParamError::BadSyllable)
                && final(self)@ == old(self)@,
    {
        let code = match syllable_code(syllable) {
            Some(code) => code,
            None => {
                return Err(ParamError::BadSyllable);
            },
        };
        let ghost before = old(self)@.candidates(syllable@);
        let mut list: Vec<char> = match self.states.remove(&code) {
            Some(list) => list,
            None => Vec::new(),
        };
        assert(list@ =~= before);
        let ghost removed = self.states@;
        assert(before.no_duplicates()) by {
            if old(self)@.states.contains_key(syllable@) {
                assert(old(self)@.states[syllable@].no_duplicates());
            }
        }
        if !contains_char(&list, c) {
            list.push(c);
        }
        let ghost after = list@;
        self.states.insert(code, list);
        proof {
            assert(self.states@ =~= old(self).states@.insert(code, list));
            lemma_states_table_insert(old(self).states@, syllable@, list);
            old(self)@.lemma_wf_with_states(syllable@, after);
        }
        Ok(())
    }

    /// The candidate characters of `syllable`, in stored order; none where
    /// the tables have no entry for it.
    pub fn candidates(&self, syllable: &str) -> (list: Vec<char>)
        requires
            self.wf(),
        ensures
            list@ == self@.candidates(syllable@),
            list@.no_duplicates(),
    {
        let mut list: Vec<char> = Vec::new();
        let code = match syllable_code(syllable) {
            Some(code) => code,
            None => {
                return list;
            },
        };
        match self.states.get(&code) {
            Some(stored) => {
                assert(self@.states.contains_key(syllable@));
                assert(self@.states[syllable@].no_duplicates());
                let mut i: usize = 0;
                while i < stored.len()
                    invariant
                        i <= stored.len(),
                        list@ == stored@.subrange(0, i as int),
                    decreases stored.len() - i,
                {
                    list.push(stored[i]);
                    assert(list@ =~= stored@.subrange(0, i + 1));
                    i += 1;
                }
                assert(list@ =~= stored@);
                list
            },
            None => list,
        }
    }

    /// Stores `v` as the initial log-probability of the character that
    /// `key` holds.
    pub fn store_init(&mut self, key: &str, v: i64) -> (r: Result<(), ParamError>)
        requires
            old(self).wf(),
        ensures
            final(self).wf(),
            key@.len() == 1 && is_log_prob(v as int) ==> r is Ok && final(self)@ == (Tables {
                init: old(self)@.init.insert(key@[0], v as int),
                ..old(self)@
            }),
            key@.len() != 1 ==> r == Err::<(), ParamError>(ParamError::BadKey) && final(self)@ == old(self)@,
            key@.len() == 1 && !is_log_prob(v as int) ==> r == Err::<(), ParamError>(
                ParamError::OutOfRange,
            ) && final(self)@ == old(self)@,
    {
        match single_char(key) {
            Some(c) => self.set_init(c, v),
            None => Err(ParamError::BadKey),
        }
    }

    /// Stores `v` as the log-probability of the stored transition from `pre`
    /// to `post`, each one character or a marker: to the end marker `EOS` it
    /// is the log-probability of ending after `pre`; from the beginning marker
    /// `BOS` it is left out, since the initial table holds what opens a
    /// sequence.
    pub fn store_trans(&mut self, post: &str, pre: &str, v: i64) -> (r: Result<(), ParamError>)
        requires
            old(self).wf(),
        ensures
            final(self).wf(),
            is_trans_key(post@, pre@) && is_log_prob(v as int) ==> r is Ok && final(self)@
                == old(self)@.with_stored_trans(post@, pre@, v as int),
            !is_trans_key(post@, pre@) ==> r == Err::<(), ParamError>(ParamError::BadKey)
                && final(self)@ == old(self)@,
            is_trans_key(post@, pre@) && !is_log_prob(v as int) ==> r == Err::<(), ParamError>(
                ParamError::OutOfRange,
            ) && final(self)@ == old(self)@,
    {
        proof {
            reveal_strlit("EOS");
            reveal_strlit("BOS");
        }
        let a = single_char(post);
        let b = single_char(pre);
        if same_text(post, EOS) {
            match b {
                Some(c) => self.set_eos(c, v),
                None => Err(ParamError::BadKey),
            }
        } else if same_text(pre, BOS) {
            match a {
                Some(c) => if v < MIN_LOG || v > 0 {
                    Err(ParamError::OutOfRange)
                } else {
                    Ok(())
                },
                None => Err(ParamError::BadKey),
            }
        } else {
            match (a, b) {
                (Some(c), Some(d)) => self.set_trans(c, d, v),
                _ => Err(ParamError::BadKey),
            }
        }
    }

    /// Stores `v` as the log-probability of `syllable` given the character
    /// that `key` holds.
    pub fn store_emiss(&mut self, key: &str, syllable: &str, v: i64) -> (r: Result<(), ParamError>)
        requires
            old(self).wf(),
        ensures
            final(self).wf(),
            key@.len() == 1 && is_syllable_text(syllable@) && is_log_prob(v as int) ==> r is Ok
                && final(self)@ == (Tables {
                emiss: old(self)@.emiss.insert((key@[0], syllable@), v as int),
                ..old(self)@
            }),
            key@.len() != 1 ==> r == Err::<(), ParamError>(ParamError::BadKey) && final(self)@ == old(self)@,
            key@.len() == 1 && !is_syllable_text(syllable@) ==> r == Err::<(), ParamError>(
                ParamError::BadSyllable,
            ) && final(self)@ == old(self)@,
            key@.len() == 1 && is_syllable_text(syllable@) && !is_log_prob(v as int) ==> r == Err::<
                (),
                ParamError,
            >(ParamError::OutOfRange) && final(self)@ == old(self)@,
    {
        match single_char(key) {
            Some(c) => self.set_emiss(c, syllable, v),
            None => Err(ParamError::BadKey),
        }
    }

    /// Adds each character of `chars` to the candidate characters of
    /// `syllable`, in the order of `chars`.
    pub fn store_states(&mut self, syllable: &str, chars: &str) -> (r: Result<(), ParamError>)
        requires
            old(self).wf(),
        ensures
            final(self).wf(),
            is_syllable_text(syllable@) ==> r is Ok && final(self)@ == old(self)@.with_states(
                syllable@,
                chars@,
                0,
            ),
            !is_syllable_text(syllable@) ==> r == Err::<(), ParamError>(ParamError::BadSyllable)
                && final(self)@ == old(self)@,
    {
        if syllable_code(syllable).is_none() {
            return Err(ParamError::BadSyllable);
        }
        let list = chars_of(chars);
        let mut i: usize = 0;
        while i < list.len()
            invariant
                self.wf(),
                is_syllable_text(syllable@),
                list@ == chars@,
                i <= list.len(),
                self@.with_states(syllable@, chars@, i as int) == old(self)@.with_states(
                    syllable@,
                    chars@,
                    0,
                ),
            decreases list.len() - i,
        {
            let _ = self.add_state(syllable, list[i]);
            i += 1;
        }
        Ok(())
    }

    /// The initial log-probability of `c`.
    pub fn init_score(&self, c: char) -> (v: i64)
        requires
            self.wf(),
        ensures
            v == self@.init_of(c),
            is_log_prob(v as int),
    {
        match self.init.get(&key_of_char(c)) {
            Some(v) => {
                assert(self@.init.contains_key(c));
                *v
            },
            None => MIN_LOG,
        }
    }

    /// The log-probability of `post` following `pre`.
    pub fn trans_score(&self, post: char, pre: char) -> (v: i64)
        requires
            self.wf(),
        ensures
            v == self@.trans_of(post, pre),
            is_log_prob(v as int),
    {
        match self.trans.get(&key_of_pair(post, pre)) {
            Some(v) => {
                assert(self@.trans.contains_key((post, pre)));
                *v
            },
            None => MIN_LOG,
        }
    }

    /// The log-probability of a sequence ending after `c`.
    pub fn eos_score(&self, c: char) -> (v: i64)
        requires
            self.wf(),
        ensures
            v == self@.eos_of(c),
            is_log_prob(v as int),
    {
        match self.eos.get(&key_of_char(c)) {
            Some(v) => {
                assert(self@.eos.contains_key(c));
                *v
            },
            None => MIN_LOG,
        }
    }

    /// The log-probability of `syllable` given `c`.
    pub fn emiss_score(&self, c: char, syllable: &str) -> (v: i64)
        requires
            self.wf(),
        ensures
            v == self@.emiss_of(c, syllable@),
            is_log_prob(v as int),
    {
        match syllable_code(syllable) {
            Some(code) => match self.emiss.get(&key_of_emiss(c, code)) {
                Some(v) => {
                    assert(self@.emiss.contains_key((c, syllable@)));
                    *v
                },
                None => MIN_LOG,
            },
            None => MIN_LOG,
        }
    }
}

} // verus!
