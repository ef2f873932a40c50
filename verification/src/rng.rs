//! The seeded pseudorandom generator of the daily scheduler. The stream of a
//! ChaCha8 generator is a pure function of its seed, so each draw is modeled
//! as the word at the generator's current position; determinism of everything
//! built on top follows.

use vstd::prelude::*;
use rand_chacha::rand_core::{Rng, SeedableRng};

verus! {

#[verifier::external_type_specification]
#[verifier::external_body]
pub struct ExChaCha8Rng(rand_chacha::ChaCha8Rng);

/// The word at position `pos` of the 64-bit output stream of a ChaCha8
/// generator seeded from `seed`. The generator is documented as deterministic
/// and portable, so this is a function of the two arguments alone.
pub uninterp spec fn chacha_word(seed: u64, pos: nat) -> u64;

/// A seeded generator together with the position it has reached in its
/// stream. Each day index seeds its own instance; instances are never shared
/// across day indices.
pub struct DailyRng {
    inner: rand_chacha::ChaCha8Rng,
    seed: Ghost<u64>,
    pos: Ghost<nat>,
}

impl DailyRng {
    /// The seed this generator was created from.
    pub closed spec fn seed(&self) -> u64 {
        self.seed@
    }

    /// How many words have been drawn from the stream.
    pub closed spec fn pos(&self) -> nat {
        self.pos@
    }

    /// A fresh generator at position 0 of the stream of `seed`.
    pub fn new(seed: u64) -> (r: DailyRng)
        ensures
            r.seed() == seed,
            r.pos() == 0,
    {
        DailyRng { inner: chacha_from_seed(seed), seed: Ghost(seed), pos: Ghost(0nat) }
    }

    /// Relies on `Rng::next_u64` on `ChaCha8Rng`: each call returns the next
    /// word of the stream determined by the seed, and advances one position.
    #[verifier::external_body]
    pub fn next_u64(&mut self) -> (w: u64)
        ensures
            final(self).seed() == old(self).seed(),
            final(self).pos() == old(self).pos() + 1,
            w == chacha_word(old(self).seed(), old(self).pos()),
    {
        self.inner.next_u64()
    }
}

/// Relies on `ChaCha8Rng::seed_from_u64`: seeding is deterministic, and the
/// fresh generator has drawn nothing yet.
#[verifier::external_body]
fn chacha_from_seed(seed: u64) -> (r: rand_chacha::ChaCha8Rng) {
    rand_chacha::ChaCha8Rng::seed_from_u64(seed)
}

/// The index below `len` that the stream word at `pos` selects.
pub open spec fn pick_spec(seed: u64, pos: nat, len: nat) -> nat
    recommends
        len > 0,
{
    (chacha_word(seed, pos) as nat) % len
}

/// Draws one index below `len`, advancing the generator one position.
pub fn pick_index(rng: &mut DailyRng, len: usize) -> (i: usize)
    requires
        len > 0,
    ensures
        final(rng).seed() == old(rng).seed(),
        final(rng).pos() == old(rng).pos() + 1,
        i == pick_spec(old(rng).seed(), old(rng).pos(), len as nat),
        i < len,
{
    let w = rng.next_u64();
    let r = w % (len as u64);
    assert(r < len as u64);
    assert(r as nat == (w as nat) % (len as nat)) by {
        assert(w as nat == w as int);
    };
    r as usize
}

/// One Fisher-Yates step: the elements at `i` and `j` exchanged.
pub open spec fn swap_step(s: Seq<char>, i: int, j: int) -> Seq<char>
    recommends
        0 <= i < s.len(),
        0 <= j < s.len(),
{
    s.update(i, s[j]).update(j, s[i])
}

proof fn lemma_swap_no_dup(s: Seq<char>, i: int, j: int)
    requires
        0 <= i < s.len(),
        0 <= j < s.len(),
        s.no_duplicates(),
    ensures
        swap_step(s, i, j).no_duplicates(),
{
    let t = swap_step(s, i, j);
    assert forall|p: int, q: int| 0 <= p < q < t.len() implies t[p] != t[q] by {
        assert(t[p] == if p == i { s[j] } else if p == j { s[i] } else { s[p] });
        assert(t[q] == if q == i { s[j] } else if q == j { s[i] } else { s[q] });
    }
}

/// The letters after the whole shuffle, working down from position `i`: at
/// each step the next stream word picks a partner at or below `i` to swap
/// with.
pub open spec fn shuffle_from(seed: u64, pos: nat, s: Seq<char>, i: nat) -> Seq<char>
    recommends
        i < s.len(),
    decreases i,
{
    if i == 0 {
        s
    } else {
        let j = pick_spec(seed, pos, i + 1);
        shuffle_from(seed, pos + 1, swap_step(s, i as int, j as int), (i - 1) as nat)
    }
}

/// The letters after a full shuffle of `s` starting at stream position
/// `pos`.
pub open spec fn shuffle_spec(seed: u64, pos: nat, s: Seq<char>) -> Seq<char> {
    if s.len() == 0 {
        s
    } else {
        shuffle_from(seed, pos, s, (s.len() - 1) as nat)
    }
}

/// How many stream words a full shuffle of `len` elements consumes.
pub open spec fn shuffle_steps(len: nat) -> nat {
    if len == 0 {
        0
    } else {
        (len - 1) as nat
    }
}

/// Shuffles the characters in place with the generator's stream, exactly as
/// `shuffle_spec` lays out. Distinct characters stay distinct.
pub fn shuffle_chars(rng: &mut DailyRng, v: &mut Vec<char>)
    ensures
        final(rng).seed() == old(rng).seed(),
        final(rng).pos() == old(rng).pos() + shuffle_steps(old(v)@.len()),
        final(v)@ == shuffle_spec(old(rng).seed(), old(rng).pos(), old(v)@),
        final(v)@.len() == old(v)@.len(),
        old(v)@.no_duplicates() ==> final(v)@.no_duplicates(),
{
    let len = v.len();
    if len <= 1 {
        return;
    }
    let ghost seed = rng.seed();
    let ghost pos0 = rng.pos();
    let ghost s0 = v@;
    let mut i: usize = len - 1;
    while i >= 1
        invariant
            i < len,
            v@.len() == len,
            len == s0.len(),
            rng.seed() == seed,
            rng.pos() == pos0 + (len - 1 - i),
            shuffle_from(seed, pos0, s0, (len - 1) as nat) == shuffle_from(
                seed,
                rng.pos(),
                v@,
                i as nat,
            ),
            s0.no_duplicates() ==> v@.no_duplicates(),
        decreases i,
    {
        let ghost pos_here = rng.pos();
        let ghost before = v@;
        let j = pick_index(rng, i + 1);
        let a = v[i];
        let b = v[j];
        v.set(i, b);
        v.set(j, a);
        proof {
            assert(v@ =~= swap_step(before, i as int, j as int));
            assert(shuffle_from(seed, pos_here, before, i as nat) == shuffle_from(
                seed,
                pos_here + 1,
                swap_step(before, i as int, j as int),
                (i - 1) as nat,
            ));
            if s0.no_duplicates() {
                lemma_swap_no_dup(before, i as int, j as int);
            }
        }
        i = i - 1;
    }
    proof {
        assert(shuffle_from(seed, rng.pos(), v@, 0) == v@);
    }
}

} // verus!
