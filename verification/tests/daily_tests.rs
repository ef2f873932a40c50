//! Tests for the daily puzzle scheduler.

use spelling_bee::daily::daily_puzzle;
use spelling_bee::lexicon::{Categoria, Lexicon, LexiconEntry};
use spelling_bee::pool::{generate_words_and_pangrams, WordPool};
use spelling_bee::utils::{day_index_of_secs, today};
use spelling_bee::Error;

/// A pool whose every word uses all seven letters of the one pangram, so
/// that any letter arrangement the scheduler derives keeps them all.
fn rich_pool() -> WordPool {
    let mut words = Vec::new();
    for k in 0..30 {
        let w = format!("cargodea{}", "a".repeat(k));
        words.push((w.clone(), w));
    }
    WordPool::new(words, vec!["cargodea".to_string()]).expect("pool must be well formed")
}

/// A pool with a pangram but too few fitting words for any puzzle.
fn poor_pool() -> WordPool {
    let words = vec![("cargodea".to_string(), "cargodea".to_string())];
    WordPool::new(words, vec!["cargodea".to_string()]).expect("pool must be well formed")
}

#[test]
fn daily_puzzle_is_deterministic() {
    let pool = rich_pool();
    for day in [0u64, 1, 7, 19875, u64::MAX] {
        let a = daily_puzzle(day, &pool);
        let b = daily_puzzle(day, &pool);
        assert_eq!(a.is_ok(), b.is_ok());
        match (a, b) {
            (Ok(pa), Ok(pb)) => assert_eq!(pa, pb),
            (Err(ea), Err(eb)) => assert_eq!(ea, eb),
            _ => unreachable!(),
        }
    }
}

#[test]
fn daily_puzzle_succeeds_on_a_rich_pool() {
    let pool = rich_pool();
    let puzzle = daily_puzzle(3, &pool).expect("every attempt keeps all 30 words");
    // The letters are the pangram's seven distinct letters in some order.
    let mut sorted = puzzle.letters.clone();
    sorted.sort();
    let expected: Vec<char> = "acdegor".chars().collect();
    assert_eq!(sorted, expected);
    // Every word of the pool fits whatever the center letter is.
    let total: usize = puzzle.word_index.iter().map(|(_, forms)| forms.len()).sum();
    assert_eq!(total, 30);
    assert_eq!(puzzle.pangrams.len(), 30);
}

#[test]
fn daily_puzzle_letter_order_depends_on_the_day() {
    // The seeded generator drives the shuffle, so across many days the
    // letter arrangements cannot all coincide.
    let pool = rich_pool();
    let first = daily_puzzle(0, &pool).unwrap().letters;
    let mut saw_another_order = false;
    for day in 1u64..21 {
        if daily_puzzle(day, &pool).unwrap().letters != first {
            saw_another_order = true;
        }
    }
    assert!(saw_another_order);
}

#[test]
fn daily_puzzle_fails_without_pangrams() {
    // An empty compiled pangram list fails with NoPangrams for any day.
    let words = vec![("gato".to_string(), "gato".to_string())];
    let pool = WordPool::new(words, vec![]).unwrap();
    for day in [0u64, 5, 123456] {
        assert_eq!(daily_puzzle(day, &pool).unwrap_err(), Error::NoPangrams);
    }
}

#[test]
fn daily_puzzle_exhausts_retries_on_a_poor_pool() {
    let pool = poor_pool();
    assert_eq!(daily_puzzle(11, &pool).unwrap_err(), Error::ExhaustedRetries);
}

#[test]
fn full_pipeline_generates_a_daily_puzzle() {
    let mut rows = Vec::new();
    for k in 0..30 {
        let w = format!("c{}", "a".repeat(k + 3));
        rows.push(LexiconEntry {
            word: w.clone(),
            lemma: w,
            category: Categoria::N,
            raw_frequency: 100,
        });
    }
    rows.push(LexiconEntry {
        word: "cargodea".to_string(),
        lemma: "cargodea".to_string(),
        category: Categoria::N,
        raw_frequency: 2000,
    });
    let lexicon = Lexicon::from_rows(&rows);
    let pool = generate_words_and_pangrams(&lexicon);
    assert_eq!(pool.words().len(), 31);
    assert_eq!(pool.pangrams(), &vec!["cargodea".to_string()]);

    // Retry until a drawn center letter suits the pool; the outcome for a
    // fixed day is stable.
    let puzzle = daily_puzzle(2, &pool).expect("some attempt must fit");
    assert!(puzzle.letters[0] == 'c' || puzzle.letters[0] == 'a');
    assert_eq!(daily_puzzle(2, &pool).unwrap(), puzzle);
}

#[test]
fn error_messages_name_the_failure() {
    assert_eq!(Error::TooFewWords.message(), "Too few words");
    assert_eq!(Error::TooManyWords.message(), "Too many words");
    assert_eq!(Error::NoPangrams.message(), "No pangrams to choose from");
    assert_eq!(
        Error::ExhaustedRetries.message(),
        "Too many tries, failed to find puzzle"
    );
}

#[test]
fn day_index_floors_to_whole_days() {
    assert_eq!(day_index_of_secs(0), 0);
    assert_eq!(day_index_of_secs(86399), 0);
    assert_eq!(day_index_of_secs(86400), 1);
    assert_eq!(day_index_of_secs(3 * 86400 + 5), 3);
}

#[test]
fn today_is_after_the_epoch() {
    let day = today().expect("the clock stands after the epoch");
    // The suite does not run before 2023.
    assert!(day > 19358);
}
