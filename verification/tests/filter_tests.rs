//! Tests for the text normalizer, the admissibility filter, and the lexicon
//! record store.

use spelling_bee::filter::{count_unique_chars, filter, filter_report, RuleFailure};
use spelling_bee::lexicon::{Categoria, Lexicon, LexiconEntry};
use spelling_bee::norm::normalize;

fn entry(word: &str, lemma: &str, category: Categoria, freq: usize) -> LexiconEntry {
    LexiconEntry {
        word: word.to_string(),
        lemma: lemma.to_string(),
        category,
        raw_frequency: freq,
    }
}

#[test]
fn normalize_strips_accents() {
    assert_eq!(normalize("papá"), "papa");
    assert_eq!(normalize("ñoño"), "nono");
    assert_eq!(normalize("corrí"), "corri");
    assert_eq!(normalize("águila"), "aguila");
}

#[test]
fn normalize_leaves_ascii_alone() {
    assert_eq!(normalize("gato"), "gato");
    assert_eq!(normalize(""), "");
}

#[test]
fn normalize_is_idempotent() {
    for w in ["papá", "ñoño", "corrí", "gato", "Æneid", ""] {
        let once = normalize(w);
        let twice = normalize(&once);
        assert_eq!(once, twice);
    }
}

#[test]
fn count_unique_chars_is_accent_insensitive() {
    assert_eq!(count_unique_chars("papá"), 2);
    assert_eq!(count_unique_chars("gato"), 4);
    assert_eq!(count_unique_chars("mojarse"), 7);
    assert_eq!(count_unique_chars(""), 0);
}

#[test]
fn filter_rejects_below_frequency_floor() {
    // A word with raw frequency 40 is rejected regardless of category.
    for cat in [None, Some(Categoria::N), Some(Categoria::V), Some(Categoria::A)] {
        let r = filter(&"gato".to_string(), None, cat, 40, true);
        assert_eq!(r, (false, false));
        let r = filter(&"gato".to_string(), None, cat, 40, false);
        assert!(!r.0);
    }
}

#[test]
fn filter_accepts_common_noun() {
    // "gato": 4 distinct letters, frequency 500, category noun.
    let r = filter(&"gato".to_string(), None, Some(Categoria::N), 500, true);
    assert_eq!(r, (true, false));
}

#[test]
fn filter_rejects_excluded_categories() {
    for cat in [Categoria::F, Categoria::M, Categoria::Y] {
        let r = filter(&"gato".to_string(), None, Some(cat), 5000, true);
        assert_eq!(r, (false, false));
    }
    // Other categories pass.
    let r = filter(&"gato".to_string(), None, Some(Categoria::V), 5000, true);
    assert_eq!(r, (true, false));
}

#[test]
fn filter_rejects_short_words() {
    let r = filter(&"sol".to_string(), None, None, 5000, true);
    assert_eq!(r, (false, false));
    let r = filter(&"sola".to_string(), None, None, 5000, true);
    assert_eq!(r, (true, false));
}

#[test]
fn filter_rejects_non_lowercase() {
    let r = filter(&"Gato".to_string(), None, None, 5000, true);
    assert_eq!(r, (false, false));
    let r = filter(&"dos palabras".to_string(), None, None, 5000, true);
    assert_eq!(r, (false, false));
    let r = filter(&"a-b-c-d".to_string(), None, None, 5000, true);
    assert_eq!(r, (false, false));
    // Accented letters are fine: they normalize to lowercase ASCII.
    let r = filter(&"corrió".to_string(), None, None, 5000, true);
    assert_eq!(r, (true, false));
}

#[test]
fn filter_rejects_more_than_seven_unique_letters() {
    // 10 distinct normalized letters, everything else fine.
    let r = filter(&"murcielago".to_string(), None, Some(Categoria::N), 5000, true);
    assert_eq!(r, (false, false));
}

#[test]
fn filter_flags_common_pangrams() {
    // Exactly 7 distinct letters and frequency above 1000: admissible and
    // flagged; the same word at 900 is admissible but not flagged.
    let r = filter(&"mojarse".to_string(), None, None, 1500, true);
    assert_eq!(r, (true, true));
    let r = filter(&"mojarse".to_string(), None, None, 900, true);
    assert_eq!(r, (true, false));
}

#[test]
fn filter_is_pure() {
    // Identical inputs always yield the identical pair.
    for sc in [true, false] {
        let a = filter(&"mojarse".to_string(), None, Some(Categoria::N), 1500, sc);
        let b = filter(&"mojarse".to_string(), None, Some(Categoria::N), 1500, sc);
        assert_eq!(a, b);
    }
}

#[test]
fn filter_full_mode_reports_pangram_flag_for_invalid_words() {
    // In full evaluation mode the pangram flag is computed even when a rule
    // failed; in short-circuit mode the check never gets there.
    let r = filter(&"mojarse".to_string(), None, Some(Categoria::F), 1500, false);
    assert_eq!(r, (false, true));
    let r = filter(&"mojarse".to_string(), None, Some(Categoria::F), 1500, true);
    assert_eq!(r, (false, false));
}

#[test]
fn filter_report_lists_each_failure() {
    let (fails, admissible, pangram) =
        filter_report(&"Ab".to_string(), Some(Categoria::F), 10);
    assert!(!admissible);
    assert!(!pangram);
    assert!(fails.contains(&RuleFailure::TooInfrequent));
    assert!(fails.contains(&RuleFailure::ExcludedCategory));
    assert!(fails.contains(&RuleFailure::TooShort));
    assert!(fails.contains(&RuleFailure::NotLowercaseLetters));
    assert!(!fails.contains(&RuleFailure::TooManyUniqueLetters));

    let (fails, admissible, pangram) =
        filter_report(&"mojarse".to_string(), Some(Categoria::N), 1500);
    assert!(admissible);
    assert!(pangram);
    assert!(fails.is_empty());
}

#[test]
fn lexicon_merges_duplicate_rows() {
    // Frequencies sum across rows of the same word; the first row's lemma
    // and category are kept.
    let rows = vec![
        entry("banco", "banco", Categoria::N, 30),
        entry("banco", "bancar", Categoria::V, 40),
        entry("banco", "banco", Categoria::N, 5),
    ];
    let lex = Lexicon::from_rows(&rows);
    assert_eq!(lex.len(), 1);
    let e = lex.lookup(&"banco".to_string()).expect("entry must exist");
    assert_eq!(e.word, "banco");
    assert_eq!(e.lemma, "banco");
    assert_eq!(e.category, Categoria::N);
    assert_eq!(e.raw_frequency, 75);
}

#[test]
fn lexicon_keeps_distinct_words_apart() {
    let rows = vec![
        entry("gato", "gato", Categoria::N, 500),
        entry("gata", "gato", Categoria::N, 200),
        entry("gato", "gato", Categoria::N, 100),
    ];
    let lex = Lexicon::from_rows(&rows);
    assert_eq!(lex.len(), 2);
    assert_eq!(lex.lookup(&"gato".to_string()).unwrap().raw_frequency, 600);
    assert_eq!(lex.lookup(&"gata".to_string()).unwrap().raw_frequency, 200);
    assert!(lex.lookup(&"perro".to_string()).is_none());
}
