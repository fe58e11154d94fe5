//! The index's global guarantees, stated over the same spec-level query
//! semantics that the query methods' contracts pin their results to.

use vstd::prelude::*;

use crate::dictionary::{
    anagram_pred, anagram_results, anagram_set, ingested_seq, ingested_set, lemma_no_wild_anagram,
    lemma_no_wildcard_normalize, match_pred, match_results, match_set, normalize_pattern,
    strings_view, Dictionary,
};
use crate::letters::{is_lower, lemma_lower_idempotent, lower_char, lower_seq};

verus! {

broadcast use
    vstd::seq_lib::group_to_multiset_ensures,
    vstd::set::group_set_axioms,
;

/// Determinism: the query contracts pin each result to a function of the
/// index contents and the query alone, so any two results of the same query
/// against the same contents are equal.
pub proof fn lemma_query_deterministic(
    d: Dictionary,
    q: Seq<char>,
    a1: Seq<Seq<char>>,
    a2: Seq<Seq<char>>,
    m1: Seq<Seq<char>>,
    m2: Seq<Seq<char>>,
)
    requires
        a1 == anagram_results(d.word_seq(), q),
        a2 == anagram_results(d.word_seq(), q),
        m1 == match_results(d.word_seq(), q),
        m2 == match_results(d.word_seq(), q),
    ensures
        a1 == a2,
        m1 == m2,
{
}

/// A permutation of a lower-normalized sequence is lower-normalized.
proof fn lemma_permutation_keeps_lower(w: Seq<char>, q: Seq<char>)
    requires
        is_lower(w),
        q.to_multiset() == w.to_multiset(),
    ensures
        is_lower(q),
{
    assert forall|i: int| 0 <= i < q.len() implies lower_char(#[trigger] q[i]) == q[i] by {
        assert(q.to_multiset().count(q[i]) > 0);
        assert(w.contains(q[i]));
        let j = choose|j: int| 0 <= j < w.len() && w[j] == q[i];
        assert(lower_seq(w)[j] == w[j]);
    }
    assert(lower_seq(q) =~= q);
}

/// Anagram correctness: every permutation of an indexed word's letters,
/// offered as a query, finds that word.
pub proof fn lemma_anagram_correctness(d: Dictionary, w: Seq<char>, q: Seq<char>)
    requires
        d.wf(),
        d.word_set().contains(w),
        q.to_multiset() == w.to_multiset(),
    ensures
        anagram_set(d.word_set(), q).contains(w),
{
    d.lemma_word_set_wf();
    lemma_permutation_keeps_lower(w, q);
    assert(lower_seq(q) == q);
    assert(anagram_pred(q)(w));
}

/// Wildcard subsumption: a query without wildcard slots matches exactly the
/// words the exact anagram query finds — the query's own word, when indexed,
/// among them.
pub proof fn lemma_wildcard_subsumption(d: Dictionary, q: Seq<char>)
    requires
        d.wf(),
        !normalize_pattern(q).contains('?'),
    ensures
        match_set(d.word_set(), q) == anagram_set(d.word_set(), q),
        d.word_set().contains(lower_seq(q)) ==> match_set(d.word_set(), q).contains(lower_seq(q)),
{
    lemma_no_wildcard_normalize(q);
    assert forall|w: Seq<char>|
        #![trigger match_pred(q)(w)]
        #![trigger anagram_pred(q)(w)]
        true implies (match_pred(q)(w) <==> anagram_pred(q)(w)) by {
        lemma_no_wild_anagram(w, lower_seq(q));
    }
    assert(match_set(d.word_set(), q) =~= anagram_set(d.word_set(), q));
    if d.word_set().contains(lower_seq(q)) {
        assert(anagram_pred(q)(lower_seq(q)));
        assert(anagram_set(d.word_set(), q).contains(lower_seq(q)));
    }
}

/// Length filter: no query ever returns a word shorter than the index's
/// configured minimum length.
pub proof fn lemma_length_filter(d: Dictionary, q: Seq<char>)
    requires
        d.wf(),
    ensures
        forall|w: Seq<char>|
            #[trigger] anagram_set(d.word_set(), q).contains(w) ==> w.len() >= d.min_len(),
        forall|w: Seq<char>|
            #[trigger] match_set(d.word_set(), q).contains(w) ==> w.len() >= d.min_len(),
{
    d.lemma_word_set_wf();
    assert forall|w: Seq<char>| #[trigger] anagram_set(d.word_set(), q).contains(w) implies w.len()
        >= d.min_len() by {
        assert(d.word_set().contains(w));
    }
    assert forall|w: Seq<char>| #[trigger] match_set(d.word_set(), q).contains(w) implies w.len()
        >= d.min_len() by {
        assert(d.word_set().contains(w));
    }
}

/// Case normalization on the query side: a query and its lowercased form
/// resolve to the same matches.
pub proof fn lemma_query_case_insensitive(words: Set<Seq<char>>, q: Seq<char>)
    ensures
        anagram_set(words, q) == anagram_set(words, lower_seq(q)),
        match_set(words, q) == match_set(words, lower_seq(q)),
{
    lemma_lower_idempotent(q);
    assert(lower_seq(lower_seq(q)) == lower_seq(q));
    assert forall|t: int| 0 <= t < q.len() implies #[trigger] normalize_pattern(lower_seq(q))[t]
        == normalize_pattern(q)[t] by {
        assert(lower_seq(lower_seq(q))[t] == lower_seq(q)[t]);
    }
    assert(normalize_pattern(lower_seq(q)) =~= normalize_pattern(q));
    assert(anagram_set(words, q) =~= anagram_set(words, lower_seq(q)));
    assert(match_set(words, q) =~= match_set(words, lower_seq(q)));
}

/// Case normalization on the word-list side: lowercasing the source lines
/// before ingestion builds the same index contents.
pub proof fn lemma_build_case_insensitive(lines: Seq<Seq<char>>, mn: nat)
    ensures
        ingested_set(lines, mn) == ingested_set(lines.map_values(|l: Seq<char>| lower_seq(l)), mn),
{
    let low = lines.map_values(|l: Seq<char>| lower_seq(l));
    assert forall|w: Seq<char>| ingested_set(lines, mn).contains(w) implies ingested_set(
        low,
        mn,
    ).contains(w) by {
        let k = choose|k: int|
            0 <= k < lines.len() && (#[trigger] lines[k]).len() >= mn && lower_seq(lines[k]) == w;
        lemma_lower_idempotent(lines[k]);
        assert((low[k]).len() >= mn && lower_seq(low[k]) == w);
    }
    assert forall|w: Seq<char>| ingested_set(low, mn).contains(w) implies ingested_set(
        lines,
        mn,
    ).contains(w) by {
        let k = choose|k: int|
            0 <= k < low.len() && (#[trigger] low[k]).len() >= mn && lower_seq(low[k]) == w;
        lemma_lower_idempotent(lines[k]);
        assert((lines[k]).len() >= mn && lower_seq(lines[k]) == w);
    }
    assert(ingested_set(lines, mn) =~= ingested_set(low, mn));
}

/// Idempotent construction: the build contract pins an index's stored word
/// list to a function of the source lines, so two indices built from the same
/// source answer every query identically.
pub proof fn lemma_idempotent_construction(
    d1: Dictionary,
    d2: Dictionary,
    lines: Seq<Seq<char>>,
    mn: nat,
    q: Seq<char>,
)
    requires
        d1.word_seq() == ingested_seq(lines, mn),
        d2.word_seq() == ingested_seq(lines, mn),
    ensures
        anagram_results(d1.word_seq(), q) == anagram_results(d2.word_seq(), q),
        match_results(d1.word_seq(), q) == match_results(d2.word_seq(), q),
        d1.word_set() == d2.word_set(),
{
}

} // verus!
