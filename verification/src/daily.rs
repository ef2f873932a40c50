//! The daily puzzle scheduler: a generator seeded with the day index draws a
//! pangram, its distinct letters are sorted into a canonical order and then
//! shuffled with the same generator to pick the center letter, and the
//! puzzle generator is tried, for at most a fixed number of attempts. The
//! whole schedule is a function of the day index and the pool alone.

use vstd::prelude::*;
use crate::filter::char_vec_contains;
use crate::norm::{folded, normalize};
use crate::pool::{PoolModel, WordPool};
use crate::puzzle::{
    create_puzzle_from_letters, kept_words, puzzle_model, Puzzle, PuzzleModel, MAX_WORDS,
    MIN_WORDS,
};
use crate::rng::{pick_index, pick_spec, shuffle_chars, shuffle_spec, shuffle_steps, DailyRng};
use crate::Error;
use vstd::string::StrSliceExecFns;

verus! {

/// How many pangram draws the scheduler tries before giving up.
pub const MAX_ATTEMPTS: usize = 100;

/// The first-occurrence deduplication of a character sequence.
pub open spec fn dedup_chars(s: Seq<char>) -> Seq<char>
    decreases s.len(),
{
    if s.len() == 0 {
        s
    } else {
        let d = dedup_chars(s.drop_last());
        if d.contains(s.last()) {
            d
        } else {
            d.push(s.last())
        }
    }
}

pub proof fn lemma_dedup_chars_props(s: Seq<char>)
    ensures
        dedup_chars(s).no_duplicates(),
        forall|x: char| #[trigger] dedup_chars(s).contains(x) <==> s.contains(x),
    decreases s.len(),
{
    if s.len() > 0 {
        let d = dedup_chars(s.drop_last());
        lemma_dedup_chars_props(s.drop_last());
        assert forall|x: char| #[trigger] s.contains(x) implies (s.drop_last().contains(x) || x
            == s.last()) by {
            let j = choose|j: int| 0 <= j < s.len() && (#[trigger] s[j]) == x;
            if j < s.len() - 1 {
                assert(s.drop_last()[j] == x);
            }
        }
        assert forall|x: char| s.drop_last().contains(x) implies #[trigger] s.contains(x) by {
            let j = choose|j: int|
                0 <= j < s.drop_last().len() && (#[trigger] s.drop_last()[j]) == x;
            assert(s[j] == x);
        }
        if !d.contains(s.last()) {
            assert forall|x: char| #[trigger] d.push(s.last()).contains(x) implies (d.contains(x)
                || x == s.last()) by {
                let j = choose|j: int|
                    0 <= j < d.push(s.last()).len() && (#[trigger] d.push(s.last())[j]) == x;
                if j < d.len() {
                    assert(d[j] == x);
                }
            }
            assert forall|x: char| (d.contains(x) || x == s.last()) implies #[trigger] d.push(
                s.last(),
            ).contains(x) by {
                if x == s.last() {
                    assert(d.push(s.last())[d.len() as int] == x);
                } else {
                    let j = choose|j: int| 0 <= j < d.len() && (#[trigger] d[j]) == x;
                    assert(d.push(s.last())[j] == x);
                }
            }
            assert forall|p: int, q: int|
                0 <= p < q < d.push(s.last()).len() implies d.push(s.last())[p] != d.push(
                s.last(),
            )[q] by {
                if q == d.len() {
                    assert(d.push(s.last())[p] == d[p]);
                    assert(d.contains(d[p]));
                }
            }
        }
    }
}

/// The position at which `c` belongs in `s` to keep it sorted: before the
/// first character at or above it.
pub open spec fn insert_pos(s: Seq<char>, c: char) -> int
    decreases s.len(),
{
    if s.len() == 0 {
        0
    } else if (c as u32) <= (s[0] as u32) {
        0
    } else {
        1 + insert_pos(s.drop_first(), c)
    }
}

proof fn lemma_insert_pos_bounds(s: Seq<char>, c: char)
    ensures
        0 <= insert_pos(s, c) <= s.len(),
    decreases s.len(),
{
    if s.len() > 0 && (c as u32) > (s[0] as u32) {
        lemma_insert_pos_bounds(s.drop_first(), c);
    }
}

proof fn lemma_insert_pos_at(s: Seq<char>, c: char, j: int)
    requires
        0 <= j <= s.len(),
        forall|k: int| 0 <= k < j ==> ((#[trigger] s[k]) as u32) < (c as u32),
        j == s.len() || (c as u32) <= (s[j] as u32),
    ensures
        insert_pos(s, c) == j,
    decreases s.len(),
{
    if s.len() > 0 && (c as u32) > (s[0] as u32) {
        let rest = s.drop_first();
        assert(forall|i: int| 0 <= i < rest.len() ==> #[trigger] rest[i] == s[i + 1]);
        lemma_insert_pos_at(rest, c, j - 1);
    }
}

/// Insertion sort of a character sequence, one insertion per element, in
/// input order.
pub open spec fn sort_chars_spec(s: Seq<char>) -> Seq<char>
    decreases s.len(),
{
    if s.len() == 0 {
        s
    } else {
        let sorted = sort_chars_spec(s.drop_last());
        sorted.insert(insert_pos(sorted, s.last()), s.last())
    }
}

proof fn lemma_insert_preserves(s: Seq<char>, c: char)
    ensures
        s.insert(insert_pos(s, c), c).len() == s.len() + 1,
        forall|x: char| #[trigger] s.insert(insert_pos(s, c), c).contains(x) <==> (s.contains(x)
            || x == c),
        s.no_duplicates() && !s.contains(c) ==> s.insert(insert_pos(s, c), c).no_duplicates(),
{
    lemma_insert_pos_bounds(s, c);
    let p = insert_pos(s, c);
    let t = s.insert(p, c);
    assert forall|x: char| #[trigger] t.contains(x) implies (s.contains(x) || x == c) by {
        let j = choose|j: int| 0 <= j < t.len() && (#[trigger] t[j]) == x;
        if j < p {
            assert(s[j] == x);
        } else if j > p {
            assert(s[j - 1] == x);
        }
    }
    assert forall|x: char| (s.contains(x) || x == c) implies #[trigger] t.contains(x) by {
        if x == c {
            assert(t[p] == x);
        } else {
            let j = choose|j: int| 0 <= j < s.len() && (#[trigger] s[j]) == x;
            if j < p {
                assert(t[j] == x);
            } else {
                assert(t[j + 1] == x);
            }
        }
    }
    if s.no_duplicates() && !s.contains(c) {
        assert forall|a: int, b: int| 0 <= a < b < t.len() implies t[a] != t[b] by {
            let ea = if a < p { s[a] } else if a == p { c } else { s[a - 1] };
            let eb = if b < p { s[b] } else if b == p { c } else { s[b - 1] };
            assert(t[a] == ea);
            assert(t[b] == eb);
            if a != p && b != p {
            } else if a == p {
                assert(s.contains(s[b - 1]));
            } else {
                assert(s.contains(s[a]));
            }
        }
    }
}

/// Sorting keeps the length, the characters, and their distinctness.
pub proof fn lemma_sort_chars_props(s: Seq<char>)
    ensures
        sort_chars_spec(s).len() == s.len(),
        forall|x: char| #[trigger] sort_chars_spec(s).contains(x) <==> s.contains(x),
        s.no_duplicates() ==> sort_chars_spec(s).no_duplicates(),
    decreases s.len(),
{
    if s.len() > 0 {
        let rest = s.drop_last();
        lemma_sort_chars_props(rest);
        let sorted = sort_chars_spec(rest);
        lemma_insert_preserves(sorted, s.last());
        assert forall|x: char| #[trigger] s.contains(x) implies (rest.contains(x) || x
            == s.last()) by {
            let j = choose|j: int| 0 <= j < s.len() && (#[trigger] s[j]) == x;
            if j < s.len() - 1 {
                assert(rest[j] == x);
            }
        }
        assert forall|x: char| rest.contains(x) implies #[trigger] s.contains(x) by {
            let j = choose|j: int| 0 <= j < rest.len() && (#[trigger] rest[j]) == x;
            assert(s[j] == x);
        }
        assert(s.contains(s.last()));
        if s.no_duplicates() {
            assert forall|k: int| 0 <= k < rest.len() implies (#[trigger] rest[k])
                != s.last() by {
                assert(s[k] == rest[k]);
            }
            assert(!rest.contains(s.last()));
        }
    }
}

/// The distinct characters of `s`, in first-seen order.
fn distinct_chars(s: &String) -> (r: Vec<char>)
    ensures
        r@ == dedup_chars(s@),
{
    let n = s.as_str().unicode_len();
    let mut out: Vec<char> = Vec::new();
    proof {
        assert(s@.take(0) =~= Seq::<char>::empty());
        assert(out@ =~= dedup_chars(s@.take(0)));
    }
    for i in 0..n
        invariant
            n == s@.len(),
            out@ == dedup_chars(s@.take(i as int)),
    {
        let c = s.as_str().get_char(i);
        proof {
            assert(s@.take(i + 1).drop_last() =~= s@.take(i as int));
            assert(s@.take(i + 1).last() == s@[i as int]);
        }
        if !char_vec_contains(&out, c) {
            out.push(c);
        }
    }
    proof {
        assert(s@.take(n as int) =~= s@);
    }
    out
}

/// Insertion sort over a character vector, mirroring `sort_chars_spec`.
fn sort_chars(v: &Vec<char>) -> (r: Vec<char>)
    ensures
        r@ == sort_chars_spec(v@),
{
    let n = v.len();
    let mut out: Vec<char> = Vec::new();
    proof {
        assert(v@.take(0) =~= Seq::<char>::empty());
        assert(out@ =~= sort_chars_spec(v@.take(0)));
    }
    for i in 0..n
        invariant
            n == v@.len(),
            out@ == sort_chars_spec(v@.take(i as int)),
            out@.len() == i,
    {
        let c = v[i];
        let ghost before = out@;
        let mut j: usize = 0;
        while j < out.len() && (out[j] as u32) < (c as u32)
            invariant
                out@ == before,
                j <= out@.len(),
                forall|k: int| 0 <= k < j ==> ((#[trigger] out@[k]) as u32) < (c as u32),
            decreases out@.len() - j,
        {
            j = j + 1;
        }
        proof {
            lemma_insert_pos_at(before, c, j as int);
            lemma_sort_chars_props(v@.take(i as int));
        }
        out.insert(j, c);
        proof {
            assert(v@.take(i + 1).drop_last() =~= v@.take(i as int));
            assert(v@.take(i + 1).last() == v@[i as int]);
            assert(out@ == before.insert(j as int, c));
        }
    }
    proof {
        assert(v@.take(n as int) =~= v@);
    }
    out
}

/// The letter arrangement an attempt derives from a pangram: its distinct
/// accent-stripped letters, sorted into a canonical order — so that nothing
/// depends on an unspecified iteration order — and then shuffled with the
/// scheduler's generator from stream position `pos`.
pub open spec fn attempt_letters(seed: u64, pos: nat, p: Seq<char>) -> Seq<char> {
    shuffle_spec(seed, pos, sort_chars_spec(dedup_chars(folded(p))))
}

/// The outcome of the remaining attempts, the generator standing at `pos`.
pub open spec fn daily_attempts(seed: u64, pos: nat, pool: PoolModel, left: nat) -> Result<
    PuzzleModel,
    Error,
>
    recommends
        pool.pangrams.len() > 0,
    decreases left,
{
    if left == 0 {
        Err(Error::ExhaustedRetries)
    } else {
        let idx = pick_spec(seed, pos, pool.pangrams.len());
        let letters = attempt_letters(seed, pos + 1, pool.pangrams[idx as int]);
        let consumed = 1 + shuffle_steps(letters.len());
        let kept = kept_words(pool.words, letters);
        if MIN_WORDS <= kept.len() <= MAX_WORDS {
            Ok(puzzle_model(letters, pool))
        } else {
            daily_attempts(seed, pos + consumed, pool, (left - 1) as nat)
        }
    }
}

/// What `daily_puzzle` returns for a day index: failure at once on an empty
/// pangram list, otherwise the outcome of the bounded retry chain seeded
/// with the day index.
pub open spec fn daily_spec(day: u64, pool: PoolModel) -> Result<PuzzleModel, Error> {
    if pool.pangrams.len() == 0 {
        Err(Error::NoPangrams)
    } else {
        daily_attempts(day, 0, pool, MAX_ATTEMPTS as nat)
    }
}

/// Whether an executable result carries exactly the model result.
pub open spec fn result_matches(r: Result<Puzzle, Error>, s: Result<PuzzleModel, Error>) -> bool {
    match (r, s) {
        (Ok(p), Ok(m)) => p@ == m,
        (Err(e1), Err(e2)) => e1 == e2,
        _ => false,
    }
}

/// Generates the puzzle of a day index. A generator seeded with exactly
/// `day` draws a pangram, its letters are arranged, and the puzzle
/// generator is tried, at most `MAX_ATTEMPTS` times; shape rejections
/// continue the loop with the same generator, never reset. The outcome is a
/// function of the day index and the pool alone.
pub fn daily_puzzle(day: u64, pool: &WordPool) -> (r: Result<Puzzle, Error>)
    requires
        pool.wf(),
    ensures
        result_matches(r, daily_spec(day, pool@)),
        pool@.pangrams.len() == 0 <==> r == Err::<Puzzle, Error>(Error::NoPangrams),
{
    let pangrams = pool.pangrams();
    if pangrams.len() == 0 {
        return Err(Error::NoPangrams);
    }
    let mut rng = DailyRng::new(day);
    let mut attempt: usize = 0;
    while attempt < MAX_ATTEMPTS
        invariant
            pool.wf(),
            pangrams.deep_view() == pool@.pangrams,
            pangrams.len() == pool@.pangrams.len(),
            pangrams.len() > 0,
            attempt <= MAX_ATTEMPTS,
            rng.seed() == day,
            daily_attempts(day, 0, pool@, MAX_ATTEMPTS as nat) == daily_attempts(
                day,
                rng.pos(),
                pool@,
                (MAX_ATTEMPTS - attempt) as nat,
            ),
        decreases MAX_ATTEMPTS - attempt,
    {
        let ghost pos_here = rng.pos();
        let ghost left_here = (MAX_ATTEMPTS - attempt) as nat;
        let idx = pick_index(&mut rng, pangrams.len());
        let pangram = &pangrams[idx];
        proof {
            assert(pangram@ == pool@.pangrams[idx as int]);
        }
        let stripped = normalize(pangram.as_str());
        let distinct = distinct_chars(&stripped);
        proof {
            lemma_dedup_chars_props(stripped@);
            // The pool invariant makes the pangram its own folded form with
            // exactly seven distinct characters.
            assert(folded(pangram@) == pangram@);
            assert(pangram@.to_set().len() == 7);
            assert forall|x: char| distinct@.to_set().contains(x) <==> pangram@.to_set().contains(
                x,
            ) by {}
            assert(distinct@.to_set() =~= pangram@.to_set());
            distinct@.unique_seq_to_set();
        }
        let sorted = sort_chars(&distinct);
        proof {
            lemma_sort_chars_props(distinct@);
        }
        let mut letters = sorted;
        shuffle_chars(&mut rng, &mut letters);
        proof {
            assert(letters@ == attempt_letters(day, (pos_here + 1) as nat, pangram@));
            assert(letters@.len() == 7);
            assert(letters@.no_duplicates());
            assert(rng.pos() == pos_here + 1 + shuffle_steps(7));
        }
        let outcome = create_puzzle_from_letters(letters, pool);
        proof {
            let spec_letters = attempt_letters(day, (pos_here + 1) as nat, pool@.pangrams[
                idx as int]);
            let kept = kept_words(pool@.words, spec_letters);
            assert(daily_attempts(day, pos_here, pool@, left_here) == if MIN_WORDS <= kept.len()
                <= MAX_WORDS {
                Ok::<PuzzleModel, Error>(puzzle_model(spec_letters, pool@))
            } else {
                daily_attempts(day, pos_here + 7, pool@, (left_here - 1) as nat)
            });
        }
        match outcome {
            Ok(p) => {
                return Ok(p);
            }
            Err(_) => {
            }
        }
        attempt = attempt + 1;
    }
    Err(Error::ExhaustedRetries)
}

/// The daily schedule is deterministic: two results for the same day index
/// against the same pool agree — the same success or the same failure, and
/// on success puzzles with the same model.
pub proof fn lemma_daily_puzzle_deterministic(
    day: u64,
    pool: PoolModel,
    r1: Result<Puzzle, Error>,
    r2: Result<Puzzle, Error>,
)
    requires
        result_matches(r1, daily_spec(day, pool)),
        result_matches(r2, daily_spec(day, pool)),
    ensures
        match (r1, r2) {
            (Ok(p1), Ok(p2)) => p1@ == p2@,
            (Err(e1), Err(e2)) => e1 == e2,
            _ => false,
        },
{
}

} // verus!
