//! The word index: built once from a line-oriented word list, then queried
//! for exact anagrams, wildcard-pattern matches, dictionary membership and
//! prefix reachability.
//!
//! A query is modelled as an unordered multiset of letters. A word `w`
//! matches a wildcard-free query `q` exactly when their letter multisets are
//! equal; a pattern with wildcard slots matches `w` when the pattern's fixed
//! letters all fit inside `w`'s multiset and the lengths agree, each wildcard
//! absorbing one leftover letter.

use vstd::multiset::Multiset;
use vstd::prelude::*;

use crate::letters::{
    chars_eq, count_char, is_lower, key_sorted, lemma_key_unique, lemma_lower_idempotent,
    lower_char, lower_char_exec, lower_seq, normalized_chars, sort_chars,
};

verus! {

broadcast use
    vstd::seq_lib::group_to_multiset_ensures,
    vstd::multiset::group_multiset_axioms,
    vstd::set::group_set_axioms,
;

/// The wildcard marker: one unknown letter per slot. A `'*'` in a raw query
/// is read as the same marker.
pub open spec fn cleaned_char(c: char) -> char {
    if c == '*' {
        '?'
    } else {
        c
    }
}

/// How a raw query pattern is read: lowercased, with `'*'` normalized to the
/// wildcard marker `'?'`.
pub open spec fn normalize_pattern(p: Seq<char>) -> Seq<char> {
    lower_seq(p).map_values(|c: char| cleaned_char(c))
}

/// A word is an exact anagram of a letter set when both use exactly the same
/// letters with the same multiplicities.
pub open spec fn is_anagram_match(w: Seq<char>, q: Seq<char>) -> bool {
    w.to_multiset() == q.to_multiset()
}

/// A word matches a normalized pattern when the lengths agree and every fixed
/// (non-wildcard) letter of the pattern occurs in the word at least as often
/// as in the pattern; the wildcard slots absorb the leftover letters.
pub open spec fn wild_match(w: Seq<char>, p: Seq<char>) -> bool {
    &&& w.len() == p.len()
    &&& forall|c: char|
        c != '?' ==> #[trigger] p.to_multiset().count(c) <= w.to_multiset().count(c)
}

/// The view of a vector of owned strings as a sequence of character
/// sequences.
pub open spec fn strings_view(r: Seq<String>) -> Seq<Seq<char>> {
    r.map_values(|s: String| s@)
}

/// Whether a word answers the exact anagram query for `letters`.
pub open spec fn anagram_pred(letters: Seq<char>) -> spec_fn(Seq<char>) -> bool {
    |w: Seq<char>| is_anagram_match(w, lower_seq(letters))
}

/// Whether a word answers the wildcard query for the raw pattern `pattern`.
pub open spec fn match_pred(pattern: Seq<char>) -> spec_fn(Seq<char>) -> bool {
    |w: Seq<char>| wild_match(w, normalize_pattern(pattern))
}

/// The words of the stored word list, in index order, that are exact
/// anagrams of the (lowercased) query letters.
pub open spec fn anagram_results(words: Seq<Seq<char>>, letters: Seq<char>) -> Seq<Seq<char>> {
    words.filter(anagram_pred(letters))
}

/// The words of the stored word list, in index order, that match the
/// normalized query pattern.
pub open spec fn match_results(words: Seq<Seq<char>>, pattern: Seq<char>) -> Seq<Seq<char>> {
    words.filter(match_pred(pattern))
}

/// The set of indexed words that are exact anagrams of the query letters.
pub open spec fn anagram_set(words: Set<Seq<char>>, letters: Seq<char>) -> Set<Seq<char>> {
    words.filter(anagram_pred(letters))
}

/// The set of indexed words that match the query pattern.
pub open spec fn match_set(words: Set<Seq<char>>, pattern: Seq<char>) -> Set<Seq<char>> {
    words.filter(match_pred(pattern))
}

/// The view of a vector of stored character vectors as a sequence of
/// character sequences.
pub open spec fn words_view(ws: Seq<Vec<char>>) -> Seq<Seq<char>> {
    ws.map_values(|w: Vec<char>| w@)
}

/// The stored word list an index built over `lines` with minimum length
/// `min_length` holds, in order: each line of sufficient length, lowercased,
/// appended the first time it appears.
pub open spec fn ingested_seq(lines: Seq<Seq<char>>, min_length: nat) -> Seq<Seq<char>>
    decreases lines.len(),
{
    if lines.len() == 0 {
        Seq::empty()
    } else {
        let prefix = ingested_seq(lines.drop_last(), min_length);
        let w = lower_seq(lines.last());
        if lines.last().len() >= min_length && !prefix.contains(w) {
            prefix.push(w)
        } else {
            prefix
        }
    }
}

/// The words an index built over `lines` with minimum length `min_length`
/// holds: every line of sufficient length, lowercased, duplicates collapsed.
pub open spec fn ingested_set(lines: Seq<Seq<char>>, min_length: nat) -> Set<Seq<char>> {
    Set::new(
        |w: Seq<char>|
            exists|k: int|
                0 <= k < lines.len() && (#[trigger] lines[k]).len() >= min_length && lower_seq(
                    lines[k],
                ) == w,
    )
}

/// Why an index could not be built.
#[derive(Clone, Copy, Debug, PartialEq, Eq, Structural)]
pub enum LexiconError {
    /// The word-list source could not be opened or read; no partial index is
    /// produced.
    SourceUnavailable,
}

/// Relies on `String: FromIterator<&char>`: collecting characters yields the
/// string of exactly those characters, in order.
#[verifier::external_body]
pub(crate) fn chars_to_string(v: &Vec<char>) -> (r: String)
    ensures
        r@ == v@,
{
    v.iter().collect()
}

/// Whether `w` occurs in `ws`, letter for letter.
fn contains_word(ws: &Vec<Vec<char>>, w: &Vec<char>) -> (r: bool)
    ensures
        r <==> exists|m: int| 0 <= m < ws@.len() && (#[trigger] ws@[m])@ == w@,
{
    let mut m: usize = 0;
    while m < ws.len()
        invariant
            m <= ws@.len(),
            forall|k: int| 0 <= k < m ==> (#[trigger] ws@[k])@ != w@,
        decreases ws@.len() - m,
    {
        if chars_eq(&ws[m], w) {
            return true;
        }
        m = m + 1;
    }
    false
}

/// Reads a raw query pattern into its normalized form: lowercased, `'*'`
/// mapped to the wildcard marker.
fn pattern_chars(p: &str) -> (r: Vec<char>)
    ensures
        r@ == normalize_pattern(p@),
{
    let n: usize = p.unicode_len();
    let mut r: Vec<char> = Vec::new();
    let mut i: usize = 0;
    while i < n
        invariant
            n == p@.len(),
            i <= n,
            r@ == normalize_pattern(p@).subrange(0, i as int),
        decreases n - i,
    {
        let c = lower_char_exec(p.get_char(i));
        let c = if c == '*' {
            '?'
        } else {
            c
        };
        r.push(c);
        proof {
            assert(normalize_pattern(p@)[i as int] == cleaned_char(lower_char(p@[i as int])));
            assert(r@ =~= normalize_pattern(p@).subrange(0, i + 1));
        }
        i = i + 1;
    }
    proof {
        assert(normalize_pattern(p@).subrange(0, n as int) =~= normalize_pattern(p@));
    }
    r
}

/// Whether the normalized pattern holds a wildcard slot.
fn contains_wildcard(p: &Vec<char>) -> (r: bool)
    ensures
        r <==> p@.contains('?'),
{
    let mut i: usize = 0;
    while i < p.len()
        invariant
            i <= p@.len(),
            forall|t: int| 0 <= t < i ==> p@[t] != '?',
        decreases p@.len() - i,
    {
        if p[i] == '?' {
            return true;
        }
        i = i + 1;
    }
    false
}

/// Whether `w` matches the normalized pattern `p`: equal length, and every
/// fixed letter of `p` available in `w` at least as often as `p` needs it.
fn wild_match_exec(w: &Vec<char>, p: &Vec<char>) -> (r: bool)
    ensures
        r <==> wild_match(w@, p@),
{
    if w.len() != p.len() {
        return false;
    }
    let mut j: usize = 0;
    while j < p.len()
        invariant
            w@.len() == p@.len(),
            j <= p@.len(),
            forall|t: int|
                0 <= t < j ==> (#[trigger] p@[t]) == '?' || p@.to_multiset().count(p@[t])
                    <= w@.to_multiset().count(p@[t]),
        decreases p@.len() - j,
    {
        let c = p[j];
        if c != '?' {
            let pc = count_char(p, c);
            let wc = count_char(w, c);
            if wc < pc {
                return false;
            }
        }
        j = j + 1;
    }
    proof {
        assert forall|c: char| c != '?' implies #[trigger] p@.to_multiset().count(c)
            <= w@.to_multiset().count(c) by {
            if p@.to_multiset().count(c) > 0 {
                assert(p@.contains(c));
                let t = choose|t: int| 0 <= t < p@.len() && p@[t] == c;
                assert(p@[t] == '?' || p@.to_multiset().count(p@[t]) <= w@.to_multiset().count(
                    p@[t],
                ));
            }
        }
    }
    true
}

/// Whether `p` is a letter-for-letter prefix of `w`.
fn is_prefix_chars(p: &Vec<char>, w: &Vec<char>) -> (r: bool)
    ensures
        r <==> p@.is_prefix_of(w@),
{
    if p.len() > w.len() {
        return false;
    }
    let mut i: usize = 0;
    while i < p.len()
        invariant
            p@.len() <= w@.len(),
            i <= p@.len(),
            forall|t: int| 0 <= t < i ==> p@[t] == w@[t],
        decreases p@.len() - i,
    {
        if p[i] != w[i] {
            proof {
                assert(p@[i as int] != w@.subrange(0, p@.len() as int)[i as int]);
            }
            return false;
        }
        i = i + 1;
    }
    proof {
        assert(p@ =~= w@.subrange(0, p@.len() as int));
    }
    true
}

/// How one more line extends the stored word list: appended when long enough
/// and new, ignored otherwise.
proof fn lemma_ingested_step(lv: Seq<Seq<char>>, k: int, mn: nat)
    requires
        0 <= k < lv.len(),
    ensures
        lv[k].len() >= mn && !ingested_seq(lv.subrange(0, k), mn).contains(lower_seq(lv[k]))
            ==> ingested_seq(lv.subrange(0, k + 1), mn) == ingested_seq(
            lv.subrange(0, k),
            mn,
        ).push(lower_seq(lv[k])),
        !(lv[k].len() >= mn && !ingested_seq(lv.subrange(0, k), mn).contains(lower_seq(lv[k])))
            ==> ingested_seq(lv.subrange(0, k + 1), mn) == ingested_seq(lv.subrange(0, k), mn),
{
    assert(lv.subrange(0, k + 1).drop_last() =~= lv.subrange(0, k));
    assert(lv.subrange(0, k + 1).last() == lv[k]);
}

/// Every stored word is lower-normalized and long enough.
proof fn lemma_ingested_seq_elems(lv: Seq<Seq<char>>, mn: nat)
    ensures
        forall|t: int|
            0 <= t < ingested_seq(lv, mn).len() ==> is_lower(#[trigger] ingested_seq(lv, mn)[t])
                && ingested_seq(lv, mn)[t].len() >= mn,
    decreases lv.len(),
{
    if lv.len() > 0 {
        lemma_ingested_seq_elems(lv.drop_last(), mn);
        let pre = ingested_seq(lv.drop_last(), mn);
        let w = lower_seq(lv.last());
        if lv.last().len() >= mn && !pre.contains(w) {
            lemma_lower_idempotent(lv.last());
            assert forall|t: int| 0 <= t < ingested_seq(lv, mn).len() implies is_lower(
                #[trigger] ingested_seq(lv, mn)[t],
            ) && ingested_seq(lv, mn)[t].len() >= mn by {
                if t < pre.len() {
                    assert(ingested_seq(lv, mn)[t] == pre[t]);
                } else {
                    assert(ingested_seq(lv, mn)[t] == w);
                }
            }
        }
    }
}

/// No word is stored twice.
proof fn lemma_ingested_seq_distinct(lv: Seq<Seq<char>>, mn: nat)
    ensures
        forall|a: int, b: int|
            0 <= a < b < ingested_seq(lv, mn).len() ==> #[trigger] ingested_seq(lv, mn)[a]
                != #[trigger] ingested_seq(lv, mn)[b],
    decreases lv.len(),
{
    if lv.len() > 0 {
        lemma_ingested_seq_distinct(lv.drop_last(), mn);
        let pre = ingested_seq(lv.drop_last(), mn);
        let w = lower_seq(lv.last());
        if lv.last().len() >= mn && !pre.contains(w) {
            assert forall|a: int, b: int|
                0 <= a < b < ingested_seq(lv, mn).len() implies #[trigger] ingested_seq(lv, mn)[a]
                != #[trigger] ingested_seq(lv, mn)[b] by {
                if b < pre.len() {
                    assert(ingested_seq(lv, mn)[a] == pre[a]);
                    assert(ingested_seq(lv, mn)[b] == pre[b]);
                } else {
                    assert(ingested_seq(lv, mn)[a] == pre[a]);
                    assert(ingested_seq(lv, mn)[b] == w);
                    assert(!pre.contains(pre[a]) ==> false);
                }
            }
        }
    }
}

/// The stored word list holds exactly the ingested word set.
proof fn lemma_ingested_seq_set(lv: Seq<Seq<char>>, mn: nat)
    ensures
        ingested_seq(lv, mn).to_set() == ingested_set(lv, mn),
    decreases lv.len(),
{
    let sq = ingested_seq(lv, mn);
    if lv.len() == 0 {
        assert(sq.to_set() =~= ingested_set(lv, mn));
    } else {
        let rest = lv.drop_last();
        lemma_ingested_seq_set(rest, mn);
        let pre = ingested_seq(rest, mn);
        let w = lower_seq(lv.last());
        assert forall|x: Seq<char>| sq.to_set().contains(x) implies ingested_set(
            lv,
            mn,
        ).contains(x) by {
            let t = choose|t: int| 0 <= t < sq.len() && sq[t] == x;
            if t < pre.len() {
                assert(pre[t] == x);
                assert(pre.contains(x));
                assert(ingested_set(rest, mn).contains(x));
                let k = choose|k: int|
                    0 <= k < rest.len() && (#[trigger] rest[k]).len() >= mn && lower_seq(rest[k])
                        == x;
                assert(lv[k] == rest[k]);
                assert((lv[k]).len() >= mn && lower_seq(lv[k]) == x);
            } else {
                assert(sq[t] == w);
                assert((lv[lv.len() - 1]).len() >= mn && lower_seq(lv[lv.len() - 1]) == x);
            }
        }
        assert forall|x: Seq<char>| ingested_set(lv, mn).contains(x) implies sq.to_set().contains(
            x,
        ) by {
            let k = choose|k: int|
                0 <= k < lv.len() && (#[trigger] lv[k]).len() >= mn && lower_seq(lv[k]) == x;
            if k < lv.len() - 1 {
                assert(rest[k] == lv[k]);
                assert((rest[k]).len() >= mn && lower_seq(rest[k]) == x);
                assert(ingested_set(rest, mn).contains(x));
                assert(pre.to_set().contains(x));
                let t = choose|t: int| 0 <= t < pre.len() && pre[t] == x;
                assert(sq[t] == x);
                assert(sq.contains(x));
            } else {
                assert(x == w);
                if pre.contains(w) {
                    let t = choose|t: int| 0 <= t < pre.len() && pre[t] == w;
                    assert(sq[t] == w);
                    assert(sq.contains(x));
                } else {
                    assert(sq[sq.len() - 1] == w);
                    assert(sq.contains(x));
                }
            }
        }
        assert(sq.to_set() =~= ingested_set(lv, mn));
    }
}

/// A multiset contained in another of the same size equals it.
proof fn lemma_sub_multiset_same_len(m1: Multiset<char>, m2: Multiset<char>)
    requires
        forall|c: char| #[trigger] m1.count(c) <= m2.count(c),
        m1.len() == m2.len(),
    ensures
        m1 == m2,
{
    let d = m2.sub(m1);
    assert(m1.add(d) =~= m2);
    vstd::multiset::lemma_multiset_empty_len(d);
    assert(m1 =~= m2);
}

/// A pattern without wildcard slots matches exactly its anagrams: the
/// wildcard query degenerates to the exact anagram query.
pub proof fn lemma_no_wild_anagram(w: Seq<char>, p: Seq<char>)
    requires
        !p.contains('?'),
    ensures
        wild_match(w, p) <==> is_anagram_match(w, p),
{
    assert(p.to_multiset().len() == p.len());
    assert(w.to_multiset().len() == w.len());
    if wild_match(w, p) {
        assert(p.to_multiset().count('?') == 0);
        assert(forall|c: char| #[trigger] p.to_multiset().count(c) <= w.to_multiset().count(c));
        lemma_sub_multiset_same_len(p.to_multiset(), w.to_multiset());
    }
}

/// A pattern whose normalized form has no wildcard normalizes to plain
/// lowercasing: it held neither a wildcard nor a `'*'`.
pub proof fn lemma_no_wildcard_normalize(q: Seq<char>)
    requires
        !normalize_pattern(q).contains('?'),
    ensures
        normalize_pattern(q) == lower_seq(q),
        !lower_seq(q).contains('?'),
{
    assert forall|t: int| 0 <= t < q.len() implies #[trigger] normalize_pattern(q)[t] == lower_seq(
        q,
    )[t] && lower_seq(q)[t] != '?' by {
        assert(normalize_pattern(q)[t] != '?') by {
            if normalize_pattern(q)[t] == '?' {
                assert(normalize_pattern(q).contains(normalize_pattern(q)[t]));
            }
        }
    }
    assert(normalize_pattern(q) =~= lower_seq(q));
    if lower_seq(q).contains('?') {
        let t = choose|t: int| 0 <= t < lower_seq(q).len() && lower_seq(q)[t] == '?';
        assert(normalize_pattern(q)[t] == lower_seq(q)[t]);
    }
}

/// Filtering a sequence commutes with collecting it into a set.
proof fn lemma_filter_to_set(s: Seq<Seq<char>>, pred: spec_fn(Seq<char>) -> bool)
    ensures
        s.filter(pred).to_set() == s.to_set().filter(pred),
{
    assert forall|w: Seq<char>| s.filter(pred).to_set().contains(w) implies s.to_set().filter(
        pred,
    ).contains(w) by {
        s.lemma_filter_contains_rev(pred, w);
        let i = choose|i: int| 0 <= i < s.filter(pred).len() && s.filter(pred)[i] == w;
        s.lemma_filter_pred(pred, i);
    }
    assert forall|w: Seq<char>| s.to_set().filter(pred).contains(w) implies s.filter(
        pred,
    ).to_set().contains(w) by {
        let i = choose|i: int| 0 <= i < s.len() && s[i] == w;
        s.lemma_filter_contains(pred, i);
    }
    assert(s.filter(pred).to_set() =~= s.to_set().filter(pred));
}

/// Two filters of one sequence agree when their predicates agree on its
/// elements.
proof fn lemma_filter_congruence(
    s: Seq<Seq<char>>,
    p1: spec_fn(Seq<char>) -> bool,
    p2: spec_fn(Seq<char>) -> bool,
)
    requires
        forall|w: Seq<char>| s.contains(w) ==> (#[trigger] p1(w) <==> #[trigger] p2(w)),
    ensures
        s.filter(p1) == s.filter(p2),
    decreases s.len(),
{
    reveal(Seq::filter);
    if s.len() > 0 {
        let rest = s.drop_last();
        assert(forall|w: Seq<char>| rest.contains(w) ==> s.contains(w)) by {
            assert forall|w: Seq<char>| rest.contains(w) implies s.contains(w) by {
                let i = choose|i: int| 0 <= i < rest.len() && rest[i] == w;
                assert(s[i] == w);
            }
        }
        lemma_filter_congruence(rest, p1, p2);
        assert(s.contains(s.last()));
    }
}

/// The word index. It owns one lowercased copy of every distinct word of
/// sufficient length from the word list, and beside each word its canonical
/// key: the word's letters sorted into ascending code-point order, computed
/// once at construction. Words sharing a key are exactly each other's
/// anagrams, so the (word, key) pairs represent the canonical-key buckets:
/// the bucket of a key holds the words whose stored key equals it, and every
/// word lies in exactly the bucket of its own key.
pub struct Dictionary {
    words: Vec<Vec<char>>,
    keys: Vec<Vec<char>>,
    min_length: usize,
}

impl Dictionary {
    /// The stored word list, in index order.
    pub closed spec fn word_seq(&self) -> Seq<Seq<char>> {
        words_view(self.words@)
    }

    /// The set of indexed words.
    pub open spec fn word_set(&self) -> Set<Seq<char>> {
        self.word_seq().to_set()
    }

    /// The configured minimum word length.
    pub closed spec fn min_len(&self) -> nat {
        self.min_length as nat
    }

    /// The index invariant: every stored word is lower-normalized, long
    /// enough and stored once, and beside it stands its canonical key — a
    /// sorted sequence holding exactly the word's letters.
    pub closed spec fn wf(&self) -> bool {
        &&& self.keys@.len() == self.words@.len()
        &&& forall|m: int|
            0 <= m < self.words@.len() ==> key_sorted((#[trigger] self.keys@[m])@)
                && self.keys@[m]@.to_multiset() == self.words@[m]@.to_multiset()
        &&& forall|m: int|
            0 <= m < self.words@.len() ==> (#[trigger] self.words@[m])@.len() >= self.min_length
        &&& forall|m: int| 0 <= m < self.words@.len() ==> is_lower((#[trigger] self.words@[m])@)
        &&& forall|m1: int, m2: int|
            0 <= m1 < m2 < self.words@.len() ==> (#[trigger] self.words@[m1])@ != (
            #[trigger] self.words@[m2])@
    }

    /// Every indexed word is lower-normalized and at least `min_len` long.
    pub proof fn lemma_word_set_wf(&self)
        requires
            self.wf(),
        ensures
            forall|w: Seq<char>|
                #[trigger] self.word_set().contains(w) ==> is_lower(w) && w.len() >= self.min_len(),
    {
        assert forall|w: Seq<char>| #[trigger] self.word_set().contains(w) implies is_lower(w)
            && w.len() >= self.min_len() by {
            let m = choose|m: int| 0 <= m < self.word_seq().len() && self.word_seq()[m] == w;
            assert(self.words@[m]@ == w);
        }
    }

    /// Builds the index from the word list's lines. Lines shorter than
    /// `min_length` are discarded; every kept line is lowercased and stored
    /// once, with its canonical key.
    #[verifier::rlimit(60)]
    pub fn new(lines: &Vec<String>, min_length: usize) -> (d: Dictionary)
        requires
            min_length >= 1,
        ensures
            d.wf(),
            d.min_len() == min_length,
            d.word_seq() == ingested_seq(strings_view(lines@), min_length as nat),
            d.word_set() == ingested_set(strings_view(lines@), min_length as nat),
    {
        let mut words: Vec<Vec<char>> = Vec::new();
        let mut keys: Vec<Vec<char>> = Vec::new();
        proof {
            assert(strings_view(lines@).subrange(0, 0) =~= Seq::<Seq<char>>::empty());
            assert(words_view(Seq::<Vec<char>>::empty()) =~= Seq::<Seq<char>>::empty());
        }
        let mut k: usize = 0;
        while k < lines.len()
            invariant
                k <= lines@.len(),
                keys@.len() == words@.len(),
                forall|m: int|
                    0 <= m < words@.len() ==> key_sorted((#[trigger] keys@[m])@)
                        && keys@[m]@.to_multiset() == words@[m]@.to_multiset(),
                words_view(words@) == ingested_seq(
                    strings_view(lines@).subrange(0, k as int),
                    min_length as nat,
                ),
            decreases lines@.len() - k,
        {
            let ghost words0 = words@;
            let cs = normalized_chars(lines[k].as_str());
            let ghost csv = cs@;
            proof {
                assert(csv == lower_seq(lines@[k as int]@));
                assert(csv.len() == lines@[k as int]@.len());
            }
            if cs.len() >= min_length {
                if !contains_word(&words, &cs) {
                    let key = sort_chars(&cs);
                    words.push(cs);
                    keys.push(key);
                }
            }
            proof {
                let lv = strings_view(lines@);
                let mn = min_length as nat;
                let pre = ingested_seq(lv.subrange(0, k as int), mn);
                lemma_ingested_step(lv, k as int, mn);
                assert(lv[k as int] == lines@[k as int]@);
                assert(words_view(words0) == pre);
                if csv.len() >= min_length {
                    if words@.len() == words0.len() {
                        assert(pre.contains(csv)) by {
                            let t = choose|t: int|
                                0 <= t < words0.len() && (#[trigger] words0[t])@ == csv;
                            assert(words_view(words0)[t] == csv);
                        }
                    } else {
                        assert(!pre.contains(csv)) by {
                            if pre.contains(csv) {
                                let t = choose|t: int| 0 <= t < pre.len() && pre[t] == csv;
                                assert(words0[t]@ == csv);
                            }
                        }
                        assert(words_view(words@) =~= words_view(words0).push(csv));
                    }
                }
                assert(words_view(words@) == ingested_seq(lv.subrange(0, k + 1), mn));
            }
            k = k + 1;
        }
        let d = Dictionary { words, keys, min_length };
        proof {
            let lv = strings_view(lines@);
            let mn = min_length as nat;
            assert(lv.subrange(0, lv.len() as int) =~= lv);
            lemma_ingested_seq_elems(lv, mn);
            lemma_ingested_seq_distinct(lv, mn);
            lemma_ingested_seq_set(lv, mn);
            assert forall|m: int| 0 <= m < d.words@.len() implies is_lower(
                (#[trigger] d.words@[m])@,
            ) && d.words@[m]@.len() >= min_length by {
                assert(d.word_seq()[m] == d.words@[m]@);
            }
            assert forall|m1: int, m2: int| 0 <= m1 < m2 < d.words@.len() implies (
            #[trigger] d.words@[m1])@ != (#[trigger] d.words@[m2])@ by {
                assert(d.word_seq()[m1] == d.words@[m1]@);
                assert(d.word_seq()[m2] == d.words@[m2]@);
            }
        }
        d
    }

    /// Builds the index from a word-list source that may have failed to be
    /// read: a caller that could not open or read the source passes `None`
    /// and receives `SourceUnavailable`; no partial index is produced.
    pub fn from_source(source: Option<&Vec<String>>, min_length: usize) -> (r: Result<
        Dictionary,
        LexiconError,
    >)
        requires
            min_length >= 1,
        ensures
            match r {
                Ok(d) => source matches Some(lines) && d.wf() && d.min_len() == min_length
                    && d.word_set() == ingested_set(strings_view(lines@), min_length as nat),
                Err(e) => source is None && e == LexiconError::SourceUnavailable,
            },
    {
        match source {
            Some(lines) => Ok(Dictionary::new(lines, min_length)),
            None => Err(LexiconError::SourceUnavailable),
        }
    }

    /// Exact anagram query: every indexed word spelt with exactly the query's
    /// letters. The query is lowercased; the result holds each matching word
    /// once, in index order.
    pub fn exact_anagrams_of(&self, letters: &str) -> (r: Vec<String>)
        requires
            self.wf(),
        ensures
            strings_view(r@) == anagram_results(self.word_seq(), letters@),
            strings_view(r@).to_set() == anagram_set(self.word_set(), letters@),
            forall|a: int, b: int|
                0 <= a < b < r@.len() ==> (#[trigger] r@[a])@ != (#[trigger] r@[b])@,
    {
        let nq = normalized_chars(letters);
        let q = sort_chars(&nq);
        let mut out: Vec<String> = Vec::new();
        let mut i: usize = 0;
        while i < self.words.len()
            invariant
                self.wf(),
                i <= self.words@.len(),
                key_sorted(q@),
                q@.to_multiset() == lower_seq(letters@).to_multiset(),
                strings_view(out@) == self.word_seq().subrange(0, i as int).filter(
                    anagram_pred(letters@),
                ),
                forall|a: int|
                    0 <= a < out@.len() ==> exists|m: int|
                        0 <= m < i && (#[trigger] out@[a])@ == self.word_seq()[m],
                forall|a: int, b: int|
                    0 <= a < b < out@.len() ==> (#[trigger] out@[a])@ != (#[trigger] out@[b])@,
            decreases self.words@.len() - i,
        {
            let ghost w = self.word_seq()[i as int];
            let ghost out0 = out@;
            let hit = chars_eq(&self.keys[i], &q);
            proof {
                assert(self.keys@[i as int]@.to_multiset() == self.words@[i as int]@.to_multiset());
                lemma_key_unique(self.keys@[i as int]@, q@);
                assert(hit <==> anagram_pred(letters@)(w));
            }
            if hit {
                let s = chars_to_string(&self.words[i]);
                out.push(s);
                proof {
                    assert forall|a: int, b: int| 0 <= a < b < out@.len() implies (
                    #[trigger] out@[a])@ != (#[trigger] out@[b])@ by {
                        if b == out@.len() - 1 {
                            let m = choose|m: int|
                                0 <= m < i && (#[trigger] out0[a])@ == self.word_seq()[m];
                            assert(self.words@[m]@ != self.words@[i as int]@);
                        }
                    }
                }
            }
            proof {
                let pred = anagram_pred(letters@);
                assert(self.word_seq().subrange(0, i + 1) =~= self.word_seq().subrange(0, i as int)
                    + seq![w]);
                Seq::filter_distributes_over_add(
                    self.word_seq().subrange(0, i as int),
                    seq![w],
                    pred,
                );
                reveal_with_fuel(Seq::<_>::filter, 3);
                if pred(w) {
                    assert(seq![w].filter(pred) =~= seq![w]);
                    assert(strings_view(out@) =~= strings_view(out0).push(w));
                } else {
                    assert(seq![w].filter(pred) =~= Seq::<Seq<char>>::empty());
                }
                assert(strings_view(out@) =~= self.word_seq().subrange(0, i + 1).filter(pred));
            }
            i = i + 1;
        }
        proof {
            assert(self.word_seq().subrange(0, self.word_seq().len() as int) =~= self.word_seq());
            lemma_filter_to_set(self.word_seq(), anagram_pred(letters@));
        }
        out
    }

    /// Wildcard pattern query: every indexed word that some arrangement of
    /// the pattern's letters spells, with each wildcard slot standing for one
    /// arbitrary letter. A pattern without wildcards short-circuits to the
    /// exact anagram lookup instead of considering arrangements.
    pub fn matches_of(&self, pattern: &str) -> (r: Vec<String>)
        requires
            self.wf(),
        ensures
            strings_view(r@) == match_results(self.word_seq(), pattern@),
            strings_view(r@).to_set() == match_set(self.word_set(), pattern@),
            forall|a: int, b: int|
                0 <= a < b < r@.len() ==> (#[trigger] r@[a])@ != (#[trigger] r@[b])@,
    {
        let p = pattern_chars(pattern);
        if !contains_wildcard(&p) {
            let r = self.exact_anagrams_of(pattern);
            proof {
                lemma_no_wildcard_normalize(pattern@);
                assert forall|w: Seq<char>| self.word_seq().contains(w) implies (
                #[trigger] anagram_pred(pattern@)(w) <==> #[trigger] match_pred(pattern@)(
                    w,
                )) by {
                    lemma_no_wild_anagram(w, lower_seq(pattern@));
                }
                lemma_filter_congruence(
                    self.word_seq(),
                    anagram_pred(pattern@),
                    match_pred(pattern@),
                );
                lemma_filter_to_set(self.word_seq(), match_pred(pattern@));
                lemma_filter_to_set(self.word_seq(), anagram_pred(pattern@));
            }
            return r;
        }
        let mut out: Vec<String> = Vec::new();
        let mut i: usize = 0;
        while i < self.words.len()
            invariant
                self.wf(),
                i <= self.words@.len(),
                p@ == normalize_pattern(pattern@),
                strings_view(out@) == self.word_seq().subrange(0, i as int).filter(
                    match_pred(pattern@),
                ),
                forall|a: int|
                    0 <= a < out@.len() ==> exists|m: int|
                        0 <= m < i && (#[trigger] out@[a])@ == self.word_seq()[m],
                forall|a: int, b: int|
                    0 <= a < b < out@.len() ==> (#[trigger] out@[a])@ != (#[trigger] out@[b])@,
            decreases self.words@.len() - i,
        {
            let ghost w = self.word_seq()[i as int];
            let ghost out0 = out@;
            let hit = wild_match_exec(&self.words[i], &p);
            proof {
                assert(hit <==> match_pred(pattern@)(w));
            }
            if hit {
                let s = chars_to_string(&self.words[i]);
                out.push(s);
                proof {
                    assert forall|a: int, b: int| 0 <= a < b < out@.len() implies (
                    #[trigger] out@[a])@ != (#[trigger] out@[b])@ by {
                        if b == out@.len() - 1 {
                            let m = choose|m: int|
                                0 <= m < i && (#[trigger] out0[a])@ == self.word_seq()[m];
                            assert(self.words@[m]@ != self.words@[i as int]@);
                        }
                    }
                }
            }
            proof {
                let pred = match_pred(pattern@);
                assert(self.word_seq().subrange(0, i + 1) =~= self.word_seq().subrange(0, i as int)
                    + seq![w]);
                Seq::filter_distributes_over_add(
                    self.word_seq().subrange(0, i as int),
                    seq![w],
                    pred,
                );
                reveal_with_fuel(Seq::<_>::filter, 3);
                if pred(w) {
                    assert(seq![w].filter(pred) =~= seq![w]);
                    assert(strings_view(out@) =~= strings_view(out0).push(w));
                } else {
                    assert(seq![w].filter(pred) =~= Seq::<Seq<char>>::empty());
                }
                assert(strings_view(out@) =~= self.word_seq().subrange(0, i + 1).filter(pred));
            }
            i = i + 1;
        }
        proof {
            assert(self.word_seq().subrange(0, self.word_seq().len() as int) =~= self.word_seq());
            lemma_filter_to_set(self.word_seq(), match_pred(pattern@));
        }
        out
    }

    /// The single query surface of the index: a query with wildcard slots
    /// runs the wildcard pattern query, one without degenerates to the exact
    /// anagram lookup; both cases answer the same pattern semantics.
    pub fn words_from(&self, characters: &str) -> (r: Vec<String>)
        requires
            self.wf(),
        ensures
            strings_view(r@) == match_results(self.word_seq(), characters@),
            strings_view(r@).to_set() == match_set(self.word_set(), characters@),
            forall|a: int, b: int|
                0 <= a < b < r@.len() ==> (#[trigger] r@[a])@ != (#[trigger] r@[b])@,
    {
        self.matches_of(characters)
    }

    /// Exact dictionary membership of the lowercased query.
    pub fn is_word(&self, s: &str) -> (r: bool)
        requires
            self.wf(),
        ensures
            r <==> self.word_set().contains(lower_seq(s@)),
    {
        let cs = normalized_chars(s);
        let r = contains_word(&self.words, &cs);
        proof {
            if r {
                let m = choose|m: int| 0 <= m < self.words@.len() && (#[trigger] self.words@[m])@
                    == cs@;
                assert(self.word_seq()[m] == lower_seq(s@));
            } else {
                if self.word_set().contains(lower_seq(s@)) {
                    let m = choose|m: int|
                        0 <= m < self.word_seq().len() && self.word_seq()[m] == lower_seq(s@);
                    assert(self.words@[m]@ == cs@);
                }
            }
        }
        r
    }

    /// Whether the lowercased query, of length at least two, is a prefix of
    /// at least one indexed word.
    pub fn has_prefix(&self, s: &str) -> (r: bool)
        requires
            self.wf(),
        ensures
            r <==> (lower_seq(s@).len() >= 2 && exists|w: Seq<char>|
                #[trigger] self.word_set().contains(w) && lower_seq(s@).is_prefix_of(w)),
    {
        let cs = normalized_chars(s);
        if cs.len() < 2 {
            return false;
        }
        let mut m: usize = 0;
        while m < self.words.len()
            invariant
                self.wf(),
                m <= self.words@.len(),
                cs@ == lower_seq(s@),
                cs@.len() >= 2,
                forall|t: int| 0 <= t < m ==> !cs@.is_prefix_of((#[trigger] self.words@[t])@),
            decreases self.words@.len() - m,
        {
            if is_prefix_chars(&cs, &self.words[m]) {
                proof {
                    let w = self.word_seq()[m as int];
                    assert(self.word_set().contains(w));
                    assert(lower_seq(s@).is_prefix_of(w));
                }
                return true;
            }
            m = m + 1;
        }
        proof {
            assert forall|w: Seq<char>| #[trigger] self.word_set().contains(w) implies !lower_seq(
                s@,
            ).is_prefix_of(w) by {
                let t = choose|t: int| 0 <= t < self.word_seq().len() && self.word_seq()[t] == w;
                assert(!cs@.is_prefix_of(self.words@[t]@));
            }
        }
        false
    }
}

} // verus!
