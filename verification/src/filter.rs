//! The admissibility filter: a pure predicate over one lexicon entry that
//! decides whether its word may enter the word pool, and whether the word can
//! seed a puzzle as a common pangram.

use vstd::prelude::*;
use crate::lexicon::Categoria;
use crate::norm::{char_is_lower_alpha, folded, normalize, seq_is_lower_alpha};
use vstd::string::StrSliceExecFns;

verus! {

/// The grammatical categories that never enter the pool: foreign words,
/// numerals and punctuation.
pub open spec fn category_excluded(category: Option<Categoria>) -> bool {
    ||| category == Some(Categoria::F)
    ||| category == Some(Categoria::M)
    ||| category == Some(Categoria::Y)
}

/// The admissibility rules over one entry, in the order they are checked:
/// the word must be decently common, of an ordinary category, at least four
/// letters long once accents are stripped, nothing but lowercase ASCII
/// letters then, and of at most seven distinct letters.
pub open spec fn spec_admissible(word: Seq<char>, category: Option<Categoria>, freq: nat) -> bool {
    &&& freq >= 50
    &&& !category_excluded(category)
    &&& folded(word).len() >= 4
    &&& seq_is_lower_alpha(folded(word))
    &&& folded(word).to_set().len() <= 7
}

/// A word that could anchor a puzzle: exactly seven distinct letters once
/// accents are stripped, and common enough that solvers will know it.
pub open spec fn spec_pangram_candidate(word: Seq<char>, freq: nat) -> bool {
    folded(word).to_set().len() == 7 && freq > 1000
}

/// What `filter` returns. In short-circuit mode the check stops at the first
/// failing rule, so the pangram flag can only be reached — and set — for an
/// admissible word; in full mode every rule is evaluated and the pangram flag
/// is reported even for an inadmissible word.
pub open spec fn spec_filter(
    word: Seq<char>,
    category: Option<Categoria>,
    freq: nat,
    short_circuit: bool,
) -> (bool, bool) {
    (
        spec_admissible(word, category, freq),
        if short_circuit {
            spec_admissible(word, category, freq) && spec_pangram_candidate(word, freq)
        } else {
            spec_pangram_candidate(word, freq)
        },
    )
}

/// The filter is a pure function: identical inputs always yield the
/// identical (admissible, pangram candidate) pair, whatever two calls
/// produced them.
pub proof fn lemma_filter_pure(
    r1: (bool, bool),
    r2: (bool, bool),
    word: Seq<char>,
    category: Option<Categoria>,
    freq: nat,
    short_circuit: bool,
)
    requires
        r1 == spec_filter(word, category, freq, short_circuit),
        r2 == spec_filter(word, category, freq, short_circuit),
    ensures
        r1 == r2,
{
}

/// Whether `c` is one of the characters of `v`.
pub fn char_vec_contains(v: &Vec<char>, c: char) -> (b: bool)
    ensures
        b == v@.contains(c),
{
    let n = v.len();
    for i in 0..n
        invariant
            n == v.len(),
            forall|k: int| 0 <= k < i ==> v@[k] != c,
    {
        if v[i] == c {
            return true;
        }
    }
    false
}

/// The number of distinct characters of the accent-stripped form of `word`.
pub fn count_unique_chars(word: &str) -> (n: usize)
    ensures
        n == folded(word@).to_set().len(),
{
    let f = normalize(word);
    let flen = f.as_str().unicode_len();
    let mut seen: Vec<char> = Vec::new();
    assert(f@.take(0) =~= Seq::<char>::empty());
    assert(seen@.to_set() =~= f@.take(0).to_set());
    for i in 0..flen
        invariant
            flen == f@.len(),
            f@ == folded(word@),
            seen@.to_set() == f@.take(i as int).to_set(),
            seen@.no_duplicates(),
    {
        let c = f.as_str().get_char(i);
        let already = char_vec_contains(&seen, c);
        proof {
            assert(f@.take(i + 1) =~= f@.take(i as int).push(f@[i as int]));
            assert forall|x: char| #[trigger] f@.take(i + 1).contains(x) implies f@.take(
                i as int,
            ).contains(x) || x == c by {
                let j = choose|j: int| 0 <= j < f@.take(i + 1).len() && (#[trigger] f@.take(i + 1)[j]) == x;
                if j < i {
                    assert(f@.take(i as int)[j] == x);
                }
            }
            assert forall|x: char| f@.take(i as int).contains(x) || x == c implies #[trigger] f@
                .take(i + 1).contains(x) by {
                if x == c {
                    assert(f@.take(i + 1)[i as int] == x);
                } else {
                    let j = choose|j: int|
                        0 <= j < f@.take(i as int).len() && (#[trigger] f@.take(i as int)[j]) == x;
                    assert(f@.take(i + 1)[j] == x);
                }
            }
            assert(f@.take(i + 1).to_set() =~= f@.take(i as int).to_set().insert(c));
        }
        if !already {
            let ghost old_seen = seen@;
            seen.push(c);
            proof {
                assert(seen@ =~= old_seen.push(c));
                assert forall|x: char| #[trigger] seen@.contains(x) implies old_seen.contains(x)
                    || x == c by {
                    let j = choose|j: int| 0 <= j < seen@.len() && (#[trigger] seen@[j]) == x;
                    if j < old_seen.len() {
                        assert(old_seen[j] == x);
                    }
                }
                assert forall|x: char| old_seen.contains(x) || x == c implies #[trigger] seen@
                    .contains(x) by {
                    if x == c {
                        assert(seen@[seen@.len() - 1] == x);
                    } else {
                        let j = choose|j: int| 0 <= j < old_seen.len() && (#[trigger] old_seen[j]) == x;
                        assert(seen@[j] == x);
                    }
                }
                assert(seen@.to_set() =~= old_seen.to_set().insert(c));
                assert forall|p: int, q: int| 0 <= p < q < seen@.len() implies seen@[p]
                    != seen@[q] by {
                    if q == seen@.len() - 1 {
                        assert(seen@[q] == c);
                        assert(old_seen[p] == seen@[p]);
                        assert(old_seen.contains(old_seen[p]));
                        assert(!old_seen.contains(c));
                    }
                }
            }
        } else {
            proof {
                assert(seen@.to_set().contains(c));
                assert(seen@.to_set() =~= seen@.to_set().insert(c));
            }
        }
    }
    proof {
        assert(f@.take(flen as int) =~= f@);
        seen@.unique_seq_to_set();
    }
    seen.len()
}

/// Whether every character of `s` is a lowercase ASCII letter.
pub(crate) fn all_lower_alpha(s: &String) -> (b: bool)
    ensures
        b == seq_is_lower_alpha(s@),
{
    let n = s.as_str().unicode_len();
    for i in 0..n
        invariant
            n == s@.len(),
            forall|k: int| 0 <= k < i ==> char_is_lower_alpha(#[trigger] s@[k]),
    {
        let c = s.as_str().get_char(i);
        let u = c as u32;
        if u < 97 || u > 122 {
            assert(!char_is_lower_alpha(s@[i as int]));
            return false;
        }
    }
    true
}

/// Whether `category` is one of the excluded tags.
fn category_is_excluded(category: Option<Categoria>) -> (b: bool)
    ensures
        b == category_excluded(category),
{
    match category {
        Some(Categoria::F) => true,
        Some(Categoria::M) => true,
        Some(Categoria::Y) => true,
        _ => false,
    }
}

/// Decides whether a word is admissible into the pool and whether it is a
/// common pangram candidate.
///
/// `lemma` is accepted for signature compatibility with callers that have it
/// at hand; no current rule reads it. In `short_circuit` mode the first
/// failing rule ends the check with `(false, false)`; in full mode all rules
/// are evaluated, which is what diagnostic callers want.
pub fn filter(
    word: &String,
    lemma: Option<&String>,
    category: Option<Categoria>,
    freq: usize,
    short_circuit: bool,
) -> (r: (bool, bool))
    ensures
        r == spec_filter(word@, category, freq as nat, short_circuit),
{
    let _ = lemma;
    let freq_ok = freq >= 50;
    if short_circuit && !freq_ok {
        return (false, false);
    }
    let category_ok = !category_is_excluded(category);
    if short_circuit && !category_ok {
        return (false, false);
    }
    let stripped = normalize(word.as_str());
    let length_ok = stripped.as_str().unicode_len() >= 4;
    if short_circuit && !length_ok {
        return (false, false);
    }
    let charset_ok = all_lower_alpha(&stripped);
    if short_circuit && !charset_ok {
        return (false, false);
    }
    let uniques = count_unique_chars(word.as_str());
    let uniques_ok = uniques <= 7;
    if short_circuit && !uniques_ok {
        return (false, false);
    }
    let valid = freq_ok && category_ok && length_ok && charset_ok && uniques_ok;
    let common_pangram = uniques == 7 && freq > 1000;
    (valid, common_pangram)
}

/// The reasons an entry can fail the admissibility rules, one per rule.
#[derive(Clone, Copy, Debug, PartialEq, Eq, Structural)]
pub enum RuleFailure {
    TooInfrequent,
    ExcludedCategory,
    TooShort,
    NotLowercaseLetters,
    TooManyUniqueLetters,
}

/// Evaluates every admissibility rule and reports each failure, for callers
/// that want to explain a rejection rather than just act on it. Returns the
/// failed rules in rule order, the admissibility verdict, and the pangram
/// candidate flag.
pub fn filter_report(word: &String, category: Option<Categoria>, freq: usize) -> (r: (
    Vec<RuleFailure>,
    bool,
    bool,
))
    ensures
        r.1 == spec_admissible(word@, category, freq as nat),
        r.2 == spec_pangram_candidate(word@, freq as nat),
        r.1 <==> r.0@.len() == 0,
        r.0@.contains(RuleFailure::TooInfrequent) <==> freq < 50,
        r.0@.contains(RuleFailure::ExcludedCategory) <==> category_excluded(category),
        r.0@.contains(RuleFailure::TooShort) <==> folded(word@).len() < 4,
        r.0@.contains(RuleFailure::NotLowercaseLetters) <==> !seq_is_lower_alpha(folded(word@)),
        r.0@.contains(RuleFailure::TooManyUniqueLetters) <==> folded(word@).to_set().len() > 7,
{
    let mut failures: Vec<RuleFailure> = Vec::new();
    if freq < 50 {
        let ghost before = failures@;
        failures.push(RuleFailure::TooInfrequent);
        proof {
            lemma_push_contains(before, RuleFailure::TooInfrequent);
        }
    }
    if category_is_excluded(category) {
        let ghost before = failures@;
        failures.push(RuleFailure::ExcludedCategory);
        proof {
            lemma_push_contains(before, RuleFailure::ExcludedCategory);
        }
    }
    let stripped = normalize(word.as_str());
    if stripped.as_str().unicode_len() < 4 {
        let ghost before = failures@;
        failures.push(RuleFailure::TooShort);
        proof {
            lemma_push_contains(before, RuleFailure::TooShort);
        }
    }
    if !all_lower_alpha(&stripped) {
        let ghost before = failures@;
        failures.push(RuleFailure::NotLowercaseLetters);
        proof {
            lemma_push_contains(before, RuleFailure::NotLowercaseLetters);
        }
    }
    let uniques = count_unique_chars(word.as_str());
    if uniques > 7 {
        let ghost before = failures@;
        failures.push(RuleFailure::TooManyUniqueLetters);
        proof {
            lemma_push_contains(before, RuleFailure::TooManyUniqueLetters);
        }
    }
    let admissible = failures.len() == 0;
    let common_pangram = uniques == 7 && freq > 1000;
    (failures, admissible, common_pangram)
}

/// What pushing one failure tag does to membership.
proof fn lemma_push_contains(s: Seq<RuleFailure>, y: RuleFailure)
    ensures
        forall|x: RuleFailure| #[trigger] s.push(y).contains(x) <==> (s.contains(x) || x == y),
{
    assert forall|x: RuleFailure| #[trigger] s.push(y).contains(x) implies (s.contains(x) || x
        == y) by {
        let j = choose|j: int| 0 <= j < s.push(y).len() && (#[trigger] s.push(y)[j]) == x;
        if j < s.len() {
            assert(s[j] == x);
        }
    }
    assert forall|x: RuleFailure| (s.contains(x) || x == y) implies #[trigger] s.push(y).contains(
        x,
    ) by {
        if x == y {
            assert(s.push(y)[s.len() as int] == x);
        } else {
            let j = choose|j: int| 0 <= j < s.len() && (#[trigger] s[j]) == x;
            assert(s.push(y)[j] == x);
        }
    }
}

} // verus!
