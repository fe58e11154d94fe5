use seven_solver::dictionary::{Dictionary, LexiconError};

fn lines(words: &[&str]) -> Vec<String> {
    words.iter().map(|w| w.to_string()).collect()
}

fn seven_list() -> Vec<String> {
    lines(&["pickles", "monster", "letters", "pickle", "cat", "slicker"])
}

#[test]
fn test_letters_only() {
    let d = Dictionary::new(&seven_list(), 7);
    let input_letters = "csiplek";

    assert_eq!(d.words_from(input_letters), vec!["pickles"]);
}

#[test]
fn test_one_wildcard() {
    let d = Dictionary::new(&seven_list(), 7);
    let input_letters = "csipl?k";

    assert_eq!(d.words_from(input_letters), vec!["pickles"]);
}

#[test]
fn test_star_wildcard_reads_as_wildcard() {
    let d = Dictionary::new(&seven_list(), 7);

    assert_eq!(d.words_from("csipl*k"), vec!["pickles"]);
}

#[test]
fn test_exact_anagram_of_each_permutation() {
    let d = Dictionary::new(&lines(&["cat"]), 1);
    for p in ["cat", "cta", "act", "atc", "tca", "tac"] {
        assert_eq!(d.exact_anagrams_of(p), vec!["cat"]);
    }
}

#[test]
fn test_non_match_returns_empty() {
    let d = Dictionary::new(&seven_list(), 7);

    assert!(d.exact_anagrams_of("zzzzzzz").is_empty());
}

#[test]
fn test_no_wildcard_returns_word_and_its_anagrams() {
    let d = Dictionary::new(&lines(&["stop", "pots", "tops", "rust"]), 4);
    let found = d.matches_of("stop");

    assert_eq!(found, vec!["stop", "pots", "tops"]);
    assert_eq!(found, d.exact_anagrams_of("stop"));
}

#[test]
fn test_wildcard_expansion() {
    let d = Dictionary::new(&lines(&["pickles"]), 7);

    assert_eq!(d.exact_anagrams_of("csiplek"), vec!["pickles"]);
    assert_eq!(d.matches_of("csipl?k"), vec!["pickles"]);
}

#[test]
fn test_length_filter_excludes_short_words() {
    let d = Dictionary::new(&lines(&["robot", "pickles", "cranks"]), 7);

    assert!(d.exact_anagrams_of("robot").is_empty());
    assert!(d.matches_of("rob?t").is_empty());
    assert!(!d.is_word("robot"));
    assert!(d.is_word("pickles"));
}

#[test]
fn test_case_normalization() {
    let upper = Dictionary::new(&lines(&["Pickles"]), 7);
    let lower = Dictionary::new(&lines(&["pickles"]), 7);

    assert_eq!(upper.exact_anagrams_of("CSIPLEK"), vec!["pickles"]);
    assert_eq!(
        upper.exact_anagrams_of("CSIPLEK"),
        lower.exact_anagrams_of("csiplek")
    );
    assert!(upper.is_word("PICKLES"));
}

#[test]
fn test_repeated_queries_are_deterministic() {
    let d = Dictionary::new(&seven_list(), 7);

    assert_eq!(d.exact_anagrams_of("csiplek"), d.exact_anagrams_of("csiplek"));
    assert_eq!(d.matches_of("csipl?k"), d.matches_of("csipl?k"));
}

#[test]
fn test_idempotent_construction() {
    let d1 = Dictionary::new(&seven_list(), 7);
    let d2 = Dictionary::new(&seven_list(), 7);

    for q in ["csiplek", "csipl?k", "monster", "zzzzzzz", "sl?cker"] {
        assert_eq!(d1.exact_anagrams_of(q), d2.exact_anagrams_of(q));
        assert_eq!(d1.matches_of(q), d2.matches_of(q));
    }
    assert_eq!(d1.is_word("pickles"), d2.is_word("pickles"));
}

#[test]
fn test_duplicate_lines_collapse() {
    let d = Dictionary::new(&lines(&["pickles", "pickles", "Pickles"]), 7);

    assert_eq!(d.exact_anagrams_of("csiplek"), vec!["pickles"]);
}

#[test]
fn test_is_word_membership() {
    let d = Dictionary::new(&seven_list(), 6);

    assert!(d.is_word("pickle"));
    assert!(d.is_word("monster"));
    assert!(!d.is_word("pickl"));
    assert!(!d.is_word("monsters"));
}

#[test]
fn test_has_prefix() {
    let d = Dictionary::new(&seven_list(), 7);

    assert!(d.has_prefix("pi"));
    assert!(d.has_prefix("pickle"));
    assert!(d.has_prefix("PICK"));
    assert!(!d.has_prefix("p"));
    assert!(!d.has_prefix("zz"));
    assert!(!d.has_prefix("picklesx"));
}

#[test]
fn test_from_source_ok() {
    let list = seven_list();
    let d = Dictionary::from_source(Some(&list), 7).unwrap();

    assert_eq!(d.words_from("csiplek"), vec!["pickles"]);
}

#[test]
fn test_from_source_unavailable() {
    let r = Dictionary::from_source(None, 7);

    assert!(matches!(r, Err(LexiconError::SourceUnavailable)));
}

#[test]
fn test_wildcard_absorbs_any_letter() {
    let d = Dictionary::new(&lines(&["bad", "bed", "bid", "bud", "cab"]), 3);

    assert_eq!(d.matches_of("b?d"), vec!["bad", "bed", "bid", "bud"]);
    assert_eq!(d.matches_of("db?"), vec!["bad", "bed", "bid", "bud"]);
    assert_eq!(d.matches_of("???"), vec!["bad", "bed", "bid", "bud", "cab"]);
}
