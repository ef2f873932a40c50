//! Accent stripping. Every comparison in the crate that must ignore
//! diacritics goes through `normalize`, which folds a word to its closest
//! ASCII form (for example a-acute to a, n-tilde to n).

use vstd::prelude::*;

verus! {

/// The ASCII folding of a character sequence: the sequence with every
/// character transliterated to its closest unaccented ASCII form.
pub uninterp spec fn folded(s: Seq<char>) -> Seq<char>;

/// A character inside the ASCII range.
pub open spec fn char_is_ascii(c: char) -> bool {
    (c as u32) < 128
}

pub open spec fn seq_is_ascii(s: Seq<char>) -> bool {
    forall|i: int| 0 <= i < s.len() ==> char_is_ascii(#[trigger] s[i])
}

/// A lowercase ASCII letter, `'a'` through `'z'`.
pub open spec fn char_is_lower_alpha(c: char) -> bool {
    ('a' as u32) <= (c as u32) <= ('z' as u32)
}

pub open spec fn seq_is_lower_alpha(s: Seq<char>) -> bool {
    forall|i: int| 0 <= i < s.len() ==> char_is_lower_alpha(#[trigger] s[i])
}

/// Relies on `unidecode::unidecode`, whose result depends on the characters
/// alone. The crate documents three guarantees used here: the returned string
/// is valid ASCII; every ASCII character is mapped to itself (so a string
/// that is already ASCII comes back unchanged, and folding a folded string
/// changes nothing).
#[verifier::external_body]
fn fold_str(s: &str) -> (r: String)
    ensures
        r@ == folded(s@),
        seq_is_ascii(r@),
        folded(r@) == r@,
        seq_is_ascii(s@) ==> r@ == s@,
{
    unidecode::unidecode(s)
}

/// Strips diacritics from a word, producing its accent-normalized form.
///
/// The second clause states that `normalize` is idempotent: normalizing an
/// already normalized word changes nothing.
pub fn normalize(w: &str) -> (r: String)
    ensures
        r@ == folded(w@),
        folded(r@) == r@,
        seq_is_ascii(r@),
{
    fold_str(w)
}

} // verus!
