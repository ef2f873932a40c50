//! Tests for the word pool builder and the puzzle generator.

use spelling_bee::lexicon::{Categoria, Lexicon, LexiconEntry};
use spelling_bee::pool::{generate_words_and_pangrams, WordPool};
use spelling_bee::puzzle::create_puzzle_from_letters;
use spelling_bee::Error;

fn entry(word: &str, lemma: &str, category: Categoria, freq: usize) -> LexiconEntry {
    LexiconEntry {
        word: word.to_string(),
        lemma: lemma.to_string(),
        category,
        raw_frequency: freq,
    }
}

fn pair(word: &str, lemma: &str) -> (String, String) {
    (word.to_string(), lemma.to_string())
}

/// Distinct filler words over {c, a}, each containing the letter a.
fn filler_words(count: usize) -> Vec<(String, String)> {
    let mut out = Vec::new();
    for k in 0..count {
        let w = format!("c{}", "a".repeat(k + 2));
        out.push((w.clone(), w));
    }
    out
}

#[test]
fn pool_includes_directly_admissible_words() {
    let rows = vec![
        entry("gato", "gato", Categoria::N, 500),
        entry("sol", "sol", Categoria::N, 9000),
        entry("raro", "raro", Categoria::A, 10),
    ];
    let lex = Lexicon::from_rows(&rows);
    let pool = generate_words_and_pangrams(&lex);
    assert_eq!(pool.words(), &vec![pair("gato", "gato")]);
    assert!(pool.pangrams().is_empty());
}

#[test]
fn pool_falls_back_to_lemma_frequency() {
    // "corria" is too rare on its own, but its lemma "correr" is common,
    // so the inflected form is admitted through the fallback.
    let rows = vec![
        entry("corria", "correr", Categoria::V, 10),
        entry("correr", "correr", Categoria::V, 5000),
        entry("perdia", "perder", Categoria::V, 10),
    ];
    let lex = Lexicon::from_rows(&rows);
    let pool = generate_words_and_pangrams(&lex);
    assert_eq!(
        pool.words(),
        &vec![pair("corria", "correr"), pair("correr", "correr")]
    );
}

#[test]
fn pool_sentinel_lemma_cannot_anchor_fallback() {
    let rows = vec![
        // Rare word under the unknown-lemma sentinel: no fallback possible.
        entry("rara", "??", Categoria::A, 10),
        // Common word under the sentinel: still admissible directly.
        entry("gato", "??", Categoria::N, 500),
        // Rare word whose lemma has an uppercase letter: no fallback either,
        // even though that lemma is itself on record and common.
        entry("rare", "Gato", Categoria::A, 10),
        entry("Gato", "Gato", Categoria::N, 9000),
    ];
    let lex = Lexicon::from_rows(&rows);
    let pool = generate_words_and_pangrams(&lex);
    assert_eq!(pool.words(), &vec![pair("gato", "??")]);
}

#[test]
fn pool_collects_normalized_pangrams() {
    let rows = vec![
        entry("mojarse", "mojarse", Categoria::V, 1500),
        // Admissible but not common enough to anchor puzzles.
        entry("mojaste", "mojar", Categoria::V, 900),
        // An accent variant folding to the same pangram: listed once.
        entry("mójarse", "mojarse", Categoria::V, 2000),
    ];
    let lex = Lexicon::from_rows(&rows);
    let pool = generate_words_and_pangrams(&lex);
    assert_eq!(pool.words().len(), 3);
    assert_eq!(pool.pangrams(), &vec!["mojarse".to_string()]);
}

#[test]
fn word_pool_new_validates_its_parts() {
    // A well-formed pool.
    assert!(WordPool::new(filler_words(3), vec!["mojarse".to_string()]).is_some());
    // Duplicate words.
    assert!(WordPool::new(vec![pair("gato", "gato"), pair("gato", "gata")], vec![]).is_none());
    // A pangram that is not its own normalized form.
    assert!(WordPool::new(vec![], vec!["mójarse".to_string()]).is_none());
    // A pangram without exactly seven distinct letters.
    assert!(WordPool::new(vec![], vec!["gato".to_string()]).is_none());
    // A pangram listed twice.
    assert!(
        WordPool::new(vec![], vec!["mojarse".to_string(), "mojarse".to_string()]).is_none()
    );
}

fn letters(s: &str) -> Vec<char> {
    s.chars().collect()
}

#[test]
fn puzzle_keeps_fitting_words_and_excludes_others() {
    // Letters {a,c,d,e,g,o,r} with center a: "cargo" is kept (contains a,
    // letters within the set); "perro" is excluded (p is not in the set).
    let mut words = filler_words(30);
    words.push(pair("cargo", "cargar"));
    words.push(pair("perro", "perro"));
    words.push(pair("cerro", "cerro")); // no center letter: excluded
    let pool = WordPool::new(words, vec![]).unwrap();
    let puzzle = create_puzzle_from_letters(letters("acdegor"), &pool).unwrap();
    assert_eq!(puzzle.letters, letters("acdegor"));
    let all_forms: Vec<&String> =
        puzzle.word_index.iter().flat_map(|(_, forms)| forms.iter()).collect();
    assert!(all_forms.iter().any(|w| w.as_str() == "cargo"));
    assert!(!all_forms.iter().any(|w| w.as_str() == "perro"));
    assert!(!all_forms.iter().any(|w| w.as_str() == "cerro"));
    assert_eq!(all_forms.len(), 31);
}

#[test]
fn puzzle_word_index_respects_the_letter_constraints() {
    // Every surface form in the index contains the center letter and uses
    // only the puzzle's letters, accent-insensitively, and the total number
    // of surface forms stays within the size bounds.
    let mut words = filler_words(30);
    words.push(pair("cargo", "cargar"));
    words.push(pair("dedo", "dedo")); // no center letter
    words.push(pair("perro", "perro")); // letter outside the set
    let pool = WordPool::new(words, vec![]).unwrap();
    let the_letters = letters("acdegor");
    let puzzle = create_puzzle_from_letters(the_letters.clone(), &pool).unwrap();
    let mut total = 0;
    for (_, forms) in &puzzle.word_index {
        for form in forms {
            let stripped = spelling_bee::norm::normalize(form);
            assert!(stripped.contains(the_letters[0]));
            assert!(stripped.chars().all(|c| the_letters.contains(&c)));
            total += 1;
        }
    }
    assert!((25..=100).contains(&total));
}

#[test]
fn puzzle_rejects_too_few_words() {
    let mut words = filler_words(10);
    words.push(pair("cargo", "cargar"));
    let pool = WordPool::new(words, vec![]).unwrap();
    let r = create_puzzle_from_letters(letters("acdegor"), &pool);
    assert_eq!(r.unwrap_err(), Error::TooFewWords);
}

#[test]
fn puzzle_rejects_too_many_words() {
    let words = filler_words(101);
    let pool = WordPool::new(words, vec![]).unwrap();
    let r = create_puzzle_from_letters(letters("acdegor"), &pool);
    assert_eq!(r.unwrap_err(), Error::TooManyWords);
}

#[test]
fn puzzle_size_bounds_are_inclusive() {
    let pool25 = WordPool::new(filler_words(25), vec![]).unwrap();
    assert!(create_puzzle_from_letters(letters("acdegor"), &pool25).is_ok());
    let pool24 = WordPool::new(filler_words(24), vec![]).unwrap();
    assert_eq!(
        create_puzzle_from_letters(letters("acdegor"), &pool24).unwrap_err(),
        Error::TooFewWords
    );
    let pool100 = WordPool::new(filler_words(100), vec![]).unwrap();
    assert!(create_puzzle_from_letters(letters("acdegor"), &pool100).is_ok());
}

#[test]
fn puzzle_buckets_accent_variants_together() {
    let mut words = filler_words(30);
    words.push(pair("papa", "papa"));
    words.push(pair("papá", "papá"));
    let pool = WordPool::new(words, vec![]).unwrap();
    // Letters {a,c,p,x,y,z,w} with center a cover the fillers and both
    // accent variants of papa.
    let puzzle = create_puzzle_from_letters(letters("acpxyzw"), &pool).unwrap();
    let bucket = puzzle
        .word_index
        .iter()
        .find(|(key, _)| key.as_str() == "papa")
        .expect("papa bucket must exist");
    assert_eq!(bucket.1, vec!["papa".to_string(), "papá".to_string()]);
}

#[test]
fn puzzle_groups_forms_under_their_lemma() {
    let mut words = filler_words(30);
    words.push(pair("cargo", "cargar"));
    words.push(pair("carga", "cargar"));
    let pool = WordPool::new(words, vec![]).unwrap();
    let puzzle = create_puzzle_from_letters(letters("acdegor"), &pool).unwrap();
    let bucket = puzzle
        .lemma_index
        .iter()
        .find(|(key, _)| key.as_str() == "cargar")
        .expect("cargar bucket must exist");
    assert_eq!(bucket.1, vec!["cargo".to_string(), "carga".to_string()]);
}

#[test]
fn puzzle_classifies_pangrams_among_kept_words() {
    let mut words = filler_words(30);
    // Uses all seven of {a,c,d,e,g,o,r}.
    words.push(pair("cargadero", "cargadero"));
    words.push(pair("cargo", "cargar"));
    let pool = WordPool::new(words, vec![]).unwrap();
    let puzzle = create_puzzle_from_letters(letters("acdegor"), &pool).unwrap();
    assert_eq!(puzzle.pangrams, vec!["cargadero".to_string()]);
}
