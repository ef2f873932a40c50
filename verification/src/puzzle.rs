//! The puzzle generator: filters the compiled word pool against a
//! seven-letter alphabet whose first letter is the center letter, classifies
//! the pangrams among the kept words, builds the answer-checking indices and
//! validates the puzzle's size bounds.

use vstd::prelude::*;
use crate::filter::{char_vec_contains, count_unique_chars};
use crate::norm::{folded, normalize};
use crate::pool::{PoolModel, WordPool};
use crate::Error;
use vstd::string::StrSliceExecFns;

verus! {

/// The fewest words an accepted puzzle may have.
pub const MIN_WORDS: usize = 25;

/// The most words an accepted puzzle may have.
pub const MAX_WORDS: usize = 100;

/// Whether a surface form belongs in a puzzle over `letters`: every
/// character of its accent-stripped form is one of the letters, and the
/// center letter — `letters[0]` — is among them.
pub open spec fn word_fits(w: Seq<char>, letters: Seq<char>) -> bool {
    &&& forall|i: int| 0 <= i < folded(w).len() ==> letters.contains(#[trigger] folded(w)[i])
    &&& folded(w).contains(letters[0])
}

/// The pool pairs kept for a puzzle over `letters`, in pool order.
pub open spec fn kept_words(
    words: Seq<(Seq<char>, Seq<char>)>,
    letters: Seq<char>,
) -> Seq<(Seq<char>, Seq<char>)> {
    words.filter(|p: (Seq<char>, Seq<char>)| word_fits(p.0, letters))
}

/// The surface forms among the kept words whose accent-stripped form uses
/// exactly seven distinct characters.
pub open spec fn kept_pangrams(kept: Seq<(Seq<char>, Seq<char>)>) -> Seq<Seq<char>> {
    kept.filter(|p: (Seq<char>, Seq<char>)| folded(p.0).to_set().len() == 7).map_values(
        |p: (Seq<char>, Seq<char>)| p.0,
    )
}

/// The index of the first group keyed by `key`, or `-1` if there is none.
pub open spec fn group_find(groups: Seq<(Seq<char>, Seq<Seq<char>>)>, key: Seq<char>) -> int
    decreases groups.len(),
{
    if groups.len() == 0 {
        -1
    } else if groups[0].0 == key {
        0
    } else {
        let rest = group_find(groups.drop_first(), key);
        if rest == -1 {
            -1
        } else {
            rest + 1
        }
    }
}

pub proof fn lemma_group_find_props(groups: Seq<(Seq<char>, Seq<Seq<char>>)>, key: Seq<char>)
    ensures
        group_find(groups, key) == -1 ==> forall|i: int|
            0 <= i < groups.len() ==> (#[trigger] groups[i]).0 != key,
        group_find(groups, key) != -1 ==> {
            &&& 0 <= group_find(groups, key) < groups.len()
            &&& groups[group_find(groups, key)].0 == key
            &&& forall|i: int|
                0 <= i < group_find(groups, key) ==> (#[trigger] groups[i]).0 != key
        },
    decreases groups.len(),
{
    if groups.len() > 0 && groups[0].0 != key {
        let rest = groups.drop_first();
        lemma_group_find_props(rest, key);
        if group_find(groups, key) == -1 {
            assert forall|i: int| 0 <= i < groups.len() implies (#[trigger] groups[i]).0
                != key by {
                if i > 0 {
                    assert(rest[i - 1] == groups[i]);
                }
            }
        } else {
            let f = group_find(groups, key);
            assert(rest[f - 1].0 == key);
            assert forall|i: int| 0 <= i < f implies (#[trigger] groups[i]).0 != key by {
                if i > 0 {
                    assert(rest[i - 1] == groups[i]);
                }
            }
        }
    }
}

/// Adding one (key, value) pair to a grouping: the value joins the bucket of
/// its key, a fresh bucket if the key is new.
pub open spec fn group_insert(
    groups: Seq<(Seq<char>, Seq<Seq<char>>)>,
    key: Seq<char>,
    val: Seq<char>,
) -> Seq<(Seq<char>, Seq<Seq<char>>)> {
    let i = group_find(groups, key);
    if i == -1 {
        groups.push((key, seq![val]))
    } else {
        groups.update(i, (groups[i].0, groups[i].1.push(val)))
    }
}

/// Grouping a sequence of (key, value) pairs in order, first-seen keys first.
pub open spec fn group_pairs(pairs: Seq<(Seq<char>, Seq<char>)>) -> Seq<(Seq<char>, Seq<Seq<char>>)>
    decreases pairs.len(),
{
    if pairs.len() == 0 {
        Seq::empty()
    } else {
        group_insert(group_pairs(pairs.drop_last()), pairs.last().0, pairs.last().1)
    }
}

/// The number of values over all buckets of a grouping.
pub open spec fn total_forms(groups: Seq<(Seq<char>, Seq<Seq<char>>)>) -> nat
    decreases groups.len(),
{
    if groups.len() == 0 {
        0
    } else {
        total_forms(groups.drop_last()) + groups.last().1.len()
    }
}

proof fn lemma_total_forms_update(
    groups: Seq<(Seq<char>, Seq<Seq<char>>)>,
    i: int,
    val: Seq<char>,
)
    requires
        0 <= i < groups.len(),
    ensures
        total_forms(groups.update(i, (groups[i].0, groups[i].1.push(val)))) == total_forms(groups)
            + 1,
    decreases groups.len(),
{
    let updated = groups.update(i, (groups[i].0, groups[i].1.push(val)));
    if i == groups.len() - 1 {
        assert(updated.drop_last() =~= groups.drop_last());
        assert(updated.last() == (groups[i].0, groups[i].1.push(val)));
    } else {
        assert(updated.drop_last() =~= groups.drop_last().update(
            i,
            (groups.drop_last()[i].0, groups.drop_last()[i].1.push(val)),
        ));
        assert(updated.last() == groups.last());
        lemma_total_forms_update(groups.drop_last(), i, val);
    }
}

/// Grouping neither drops nor invents values: the total bucket size is the
/// number of pairs, and every bucketed value is the value of some pair.
pub proof fn lemma_group_pairs_values(pairs: Seq<(Seq<char>, Seq<char>)>)
    ensures
        total_forms(group_pairs(pairs)) == pairs.len(),
        forall|i: int, j: int|
            0 <= i < group_pairs(pairs).len() && 0 <= j < group_pairs(pairs)[i].1.len()
                ==> exists|k: int|
                0 <= k < pairs.len() && (#[trigger] group_pairs(pairs)[i].1[j]) == (
                #[trigger] pairs[k]).1,
    decreases pairs.len(),
{
    if pairs.len() > 0 {
        let rest = pairs.drop_last();
        let prev = group_pairs(rest);
        let grouped = group_pairs(pairs);
        lemma_group_pairs_values(rest);
        let key = pairs.last().0;
        let val = pairs.last().1;
        let gi = group_find(prev, key);
        lemma_group_find_props(prev, key);
        if gi == -1 {
            assert(grouped =~= prev.push((key, seq![val])));
            assert(grouped.drop_last() =~= prev);
            assert(total_forms(grouped) == total_forms(prev) + 1);
            assert forall|i: int, j: int|
                0 <= i < grouped.len() && 0 <= j < grouped[i].1.len() implies exists|k: int|
                0 <= k < pairs.len() && (#[trigger] grouped[i].1[j]) == (#[trigger] pairs[k]).1 by {
                if i < prev.len() {
                    assert(grouped[i] == prev[i]);
                    let k = choose|k: int|
                        0 <= k < rest.len() && (#[trigger] prev[i].1[j]) == (#[trigger] rest[k]).1;
                    assert(pairs[k].1 == rest[k].1);
                    assert(grouped[i].1[j] == pairs[k].1);
                } else {
                    assert(grouped[i].1 =~= seq![val]);
                    assert(grouped[i].1[j] == pairs[pairs.len() - 1].1);
                }
            }
        } else {
            let updated = (prev[gi].0, prev[gi].1.push(val));
            assert(grouped =~= prev.update(gi, updated));
            lemma_total_forms_update(prev, gi, val);
            assert forall|i: int, j: int|
                0 <= i < grouped.len() && 0 <= j < grouped[i].1.len() implies exists|k: int|
                0 <= k < pairs.len() && (#[trigger] grouped[i].1[j]) == (#[trigger] pairs[k]).1 by {
                if i != gi || j < prev[gi].1.len() {
                    let which = if i == gi { prev[gi].1[j] } else { prev[i].1[j] };
                    assert(grouped[i].1[j] == which);
                    let k = choose|k: int|
                        0 <= k < rest.len() && which == (#[trigger] rest[k]).1;
                    assert(pairs[k].1 == rest[k].1);
                } else {
                    assert(grouped[i].1[j] == val);
                    assert(pairs[pairs.len() - 1].1 == val);
                }
            }
        }
    }
}

/// A generated puzzle. `letters` holds the seven distinct letters with the
/// center letter at position 0; `word_index` maps each accent-normalized
/// form to the surface forms that share it; `lemma_index` maps each
/// governing lemma to the surface forms that share it; `pangrams` lists the
/// surface forms that use all seven letters.
#[derive(Clone, Debug, PartialEq)]
pub struct Puzzle {
    pub letters: Vec<char>,
    pub word_index: Vec<(String, Vec<String>)>,
    pub lemma_index: Vec<(String, Vec<String>)>,
    pub pangrams: Vec<String>,
}

/// The mathematical model of a `Puzzle`.
pub ghost struct PuzzleModel {
    pub letters: Seq<char>,
    pub word_index: Seq<(Seq<char>, Seq<Seq<char>>)>,
    pub lemma_index: Seq<(Seq<char>, Seq<Seq<char>>)>,
    pub pangrams: Seq<Seq<char>>,
}

impl View for Puzzle {
    type V = PuzzleModel;

    open spec fn view(&self) -> PuzzleModel {
        PuzzleModel {
            letters: self.letters@,
            word_index: self.word_index.deep_view(),
            lemma_index: self.lemma_index.deep_view(),
            pangrams: self.pangrams.deep_view(),
        }
    }
}

/// The puzzle that `letters` and the pool determine: the kept words bucketed
/// by accent-normalized form and by governing lemma, and the pangrams among
/// them.
pub open spec fn puzzle_model(letters: Seq<char>, pool: PoolModel) -> PuzzleModel {
    let kept = kept_words(pool.words, letters);
    PuzzleModel {
        letters: letters,
        word_index: group_pairs(
            kept.map_values(|p: (Seq<char>, Seq<char>)| (folded(p.0), p.0)),
        ),
        lemma_index: group_pairs(kept.map_values(|p: (Seq<char>, Seq<char>)| (p.1, p.0))),
        pangrams: kept_pangrams(kept),
    }
}

/// Whether a surface form belongs in a puzzle over `letters`.
fn word_fits_exec(form: &String, letters: &Vec<char>) -> (b: bool)
    requires
        letters@.len() > 0,
    ensures
        b == word_fits(form@, letters@),
{
    let f = normalize(form.as_str());
    let n = f.as_str().unicode_len();
    let mut contains_center = false;
    for i in 0..n
        invariant
            n == f@.len(),
            f@ == folded(form@),
            letters@.len() > 0,
            forall|k: int| 0 <= k < i ==> letters@.contains(#[trigger] f@[k]),
            contains_center == exists|k: int| 0 <= k < i && f@[k] == letters@[0],
    {
        let c = f.as_str().get_char(i);
        if c == letters[0] {
            contains_center = true;
            proof {
                assert(f@[i as int] == letters@[0]);
            }
        }
        if !char_vec_contains(letters, c) {
            proof {
                assert(!letters@.contains(f@[i as int]));
            }
            return false;
        }
    }
    if contains_center {
        proof {
            let k = choose|k: int| 0 <= k < f@.len() && f@[k] == letters@[0];
            assert(folded(form@).contains(letters@[0]));
        }
    }
    contains_center
}

/// The index of the bucket keyed by `key`, if there is one.
fn group_position(groups: &Vec<(String, Vec<String>)>, key: &String) -> (r: Option<usize>)
    ensures
        r == None::<usize> ==> forall|k: int|
            0 <= k < groups.deep_view().len() ==> (#[trigger] groups.deep_view()[k]).0 != key@,
        r matches Some(i) ==> i < groups.len() && groups.deep_view()[i as int].0 == key@
            && forall|k: int| 0 <= k < i ==> (#[trigger] groups.deep_view()[k]).0 != key@,
{
    let ghost gm = groups.deep_view();
    let n = groups.len();
    for i in 0..n
        invariant
            n == groups.len(),
            gm == groups.deep_view(),
            forall|k: int| 0 <= k < i ==> (#[trigger] gm[k]).0 != key@,
    {
        assert(gm[i as int].0 == groups@[i as int].0@);
        if groups[i].0.eq(key) {
            return Some(i);
        }
    }
    None
}

/// Finds the bucket of `key` and appends `val` to it, opening a new bucket
/// at the end when the key is new.
fn group_push(groups: &mut Vec<(String, Vec<String>)>, key: String, val: String)
    ensures
        final(groups).deep_view() == group_insert(old(groups).deep_view(), key@, val@),
{
    let ghost gm = groups.deep_view();
    let found = group_position(groups, &key);
    proof {
        lemma_group_find_props(gm, key@);
    }
    match found {
        Some(i) => {
            proof {
                assert(group_find(gm, key@) == i as int);
            }
            let ghost before = groups@;
            let (k, mut vs) = groups.remove(i);
            let ghost vs0 = vs.deep_view();
            proof {
                assert(k == before[i as int].0 && vs == before[i as int].1);
                assert(gm[i as int] == (before[i as int].0@, before[i as int].1.deep_view()));
            }
            vs.push(val);
            proof {
                assert(vs.deep_view() =~= vs0.push(val@));
            }
            groups.insert(i, (k, vs));
            proof {
                let target = gm.update(i as int, (gm[i as int].0, gm[i as int].1.push(val@)));
                assert(groups@.len() == before.len());
                assert forall|t: int| 0 <= t < groups@.len() implies groups.deep_view()[t]
                    == target[t] by {
                    if t < i as int {
                        assert(groups@[t] == before[t]);
                        assert(gm[t] == (before[t].0@, before[t].1.deep_view()));
                    } else if t == i as int {
                        assert(groups@[t] == (k, vs));
                    } else {
                        assert(groups@[t] == before[t]);
                        assert(gm[t] == (before[t].0@, before[t].1.deep_view()));
                    }
                }
                assert(groups.deep_view() =~= target);
            }
        }
        None => {
            proof {
                assert(group_find(gm, key@) == -1);
            }
            let mut vs: Vec<String> = Vec::new();
            vs.push(val);
            proof {
                assert(vs.deep_view() =~= seq![val@]);
            }
            groups.push((key, vs));
            proof {
                assert(groups.deep_view() =~= gm.push((key@, seq![val@])));
            }
        }
    }
}

/// Generates the puzzle over the given letters: keeps exactly the pool
/// words whose normalized form stays within the letters and holds the
/// center letter, rejects a too-small or too-large word count, and on
/// success returns the fully indexed puzzle.
pub fn create_puzzle_from_letters(letters: Vec<char>, pool: &WordPool) -> (r: Result<
    Puzzle,
    Error,
>)
    requires
        pool.wf(),
        letters@.len() == 7,
        letters@.no_duplicates(),
    ensures
        kept_words(pool@.words, letters@).len() < MIN_WORDS <==> r == Err::<Puzzle, Error>(
            Error::TooFewWords,
        ),
        kept_words(pool@.words, letters@).len() > MAX_WORDS <==> r == Err::<Puzzle, Error>(
            Error::TooManyWords,
        ),
        r is Ok <==> MIN_WORDS <= kept_words(pool@.words, letters@).len() <= MAX_WORDS,
        r matches Ok(p) ==> p@ == puzzle_model(letters@, pool@),
{
    let ghost pm = pool@;
    let ghost fits_pred = |p: (Seq<char>, Seq<char>)| word_fits(p.0, letters@);
    let words = pool.words();
    let n = words.len();
    let mut kept: Vec<(String, String)> = Vec::new();
    proof {
        reveal(Seq::filter);
        assert(pm.words.take(0) =~= Seq::<(Seq<char>, Seq<char>)>::empty());
        assert(kept.deep_view() =~= pm.words.take(0).filter(fits_pred));
    }
    for idx in 0..n
        invariant
            n == words.len(),
            words.deep_view() == pm.words,
            letters@.len() == 7,
            fits_pred == (|p: (Seq<char>, Seq<char>)| word_fits(p.0, letters@)),
            kept.deep_view() == pm.words.take(idx as int).filter(fits_pred),
    {
        let ghost old_kept = kept.deep_view();
        proof {
            reveal(Seq::filter);
            assert(words.deep_view()[idx as int] == (words@[idx as int].0@, words@[idx as int].1@));
            assert(pm.words.take(idx + 1).drop_last() =~= pm.words.take(idx as int));
            assert(pm.words.take(idx + 1).last() == pm.words[idx as int]);
        }
        if word_fits_exec(&words[idx].0, &letters) {
            kept.push((words[idx].0.clone(), words[idx].1.clone()));
            proof {
                assert(kept.deep_view() =~= old_kept.push(pm.words[idx as int]));
            }
        }
    }
    proof {
        assert(pm.words.take(n as int) =~= pm.words);
    }
    let ghost km = kept_words(pm.words, letters@);
    assert(kept.deep_view() == km);
    if kept.len() < MIN_WORDS {
        return Err(Error::TooFewWords);
    }
    if kept.len() > MAX_WORDS {
        return Err(Error::TooManyWords);
    }
    let kn = kept.len();

    // The pangrams among the kept words.
    let ghost pang_pred = |p: (Seq<char>, Seq<char>)| folded(p.0).to_set().len() == 7;
    let mut pangrams: Vec<String> = Vec::new();
    proof {
        reveal(Seq::filter);
        assert(km.take(0) =~= Seq::<(Seq<char>, Seq<char>)>::empty());
        assert(pangrams.deep_view() =~= km.take(0).filter(pang_pred).map_values(
            |p: (Seq<char>, Seq<char>)| p.0,
        ));
    }
    for idx in 0..kn
        invariant
            kn == kept.len(),
            kept.deep_view() == km,
            pang_pred == (|p: (Seq<char>, Seq<char>)| folded(p.0).to_set().len() == 7),
            pangrams.deep_view() == km.take(idx as int).filter(pang_pred).map_values(
                |p: (Seq<char>, Seq<char>)| p.0,
            ),
    {
        let ghost old_pm = pangrams.deep_view();
        proof {
            reveal(Seq::filter);
            assert(kept.deep_view()[idx as int] == (kept@[idx as int].0@, kept@[idx as int].1@));
            assert(km.take(idx + 1).drop_last() =~= km.take(idx as int));
            assert(km.take(idx + 1).last() == km[idx as int]);
        }
        if count_unique_chars(kept[idx].0.as_str()) == 7 {
            pangrams.push(kept[idx].0.clone());
            proof {
                assert(pangrams.deep_view() =~= old_pm.push(km[idx as int].0));
                assert(km.take(idx + 1).filter(pang_pred).map_values(
                    |p: (Seq<char>, Seq<char>)| p.0,
                ) =~= old_pm.push(km[idx as int].0));
            }
        } else {
            proof {
                assert(km.take(idx + 1).filter(pang_pred) == km.take(idx as int).filter(
                    pang_pred,
                ));
            }
        }
    }
    proof {
        assert(km.take(kn as int) =~= km);
    }

    // The answer-checking indices: normalized form to surface forms, and
    // governing lemma to surface forms.
    let ghost wkey = |p: (Seq<char>, Seq<char>)| (folded(p.0), p.0);
    let ghost lkey = |p: (Seq<char>, Seq<char>)| (p.1, p.0);
    let mut word_index: Vec<(String, Vec<String>)> = Vec::new();
    let mut lemma_index: Vec<(String, Vec<String>)> = Vec::new();
    proof {
        assert(km.take(0) =~= Seq::<(Seq<char>, Seq<char>)>::empty());
        assert(km.take(0).map_values(wkey) =~= Seq::<(Seq<char>, Seq<char>)>::empty());
        assert(km.take(0).map_values(lkey) =~= Seq::<(Seq<char>, Seq<char>)>::empty());
        assert(word_index.deep_view() =~= group_pairs(km.take(0).map_values(wkey)));
        assert(lemma_index.deep_view() =~= group_pairs(km.take(0).map_values(lkey)));
    }
    for idx in 0..kn
        invariant
            kn == kept.len(),
            kept.deep_view() == km,
            wkey == (|p: (Seq<char>, Seq<char>)| (folded(p.0), p.0)),
            lkey == (|p: (Seq<char>, Seq<char>)| (p.1, p.0)),
            word_index.deep_view() == group_pairs(km.take(idx as int).map_values(wkey)),
            lemma_index.deep_view() == group_pairs(km.take(idx as int).map_values(lkey)),
    {
        proof {
            assert(kept.deep_view()[idx as int] == (kept@[idx as int].0@, kept@[idx as int].1@));
            assert(km.take(idx + 1).drop_last() =~= km.take(idx as int));
            assert(km.take(idx + 1).map_values(wkey).drop_last() =~= km.take(idx as int).map_values(
                wkey,
            ));
            assert(km.take(idx + 1).map_values(lkey).drop_last() =~= km.take(idx as int).map_values(
                lkey,
            ));
            assert(km.take(idx + 1).map_values(wkey).last() == wkey(km[idx as int]));
            assert(km.take(idx + 1).map_values(lkey).last() == lkey(km[idx as int]));
        }
        let stripped = normalize(kept[idx].0.as_str());
        group_push(&mut word_index, stripped, kept[idx].0.clone());
        group_push(&mut lemma_index, kept[idx].1.clone(), kept[idx].0.clone());
    }
    proof {
        assert(km.take(kn as int) =~= km);
    }

    Ok(Puzzle { letters, word_index, lemma_index, pangrams })
}

/// A grouping is a mapping: no key opens two buckets.
pub proof fn lemma_group_pairs_keys_unique(pairs: Seq<(Seq<char>, Seq<char>)>)
    ensures
        group_pairs(pairs).map_values(
            |g: (Seq<char>, Seq<Seq<char>>)| g.0,
        ).no_duplicates(),
    decreases pairs.len(),
{
    let keys = |g: (Seq<char>, Seq<Seq<char>>)| g.0;
    if pairs.len() > 0 {
        let rest = pairs.drop_last();
        let prev = group_pairs(rest);
        let grouped = group_pairs(pairs);
        lemma_group_pairs_keys_unique(rest);
        let key = pairs.last().0;
        let gi = group_find(prev, key);
        lemma_group_find_props(prev, key);
        if gi == -1 {
            assert(grouped =~= prev.push((key, seq![pairs.last().1])));
            assert forall|p: int, q: int|
                0 <= p < q < grouped.map_values(keys).len() implies grouped.map_values(keys)[p]
                != grouped.map_values(keys)[q] by {
                assert(grouped.map_values(keys)[p] == grouped[p].0);
                assert(grouped.map_values(keys)[q] == grouped[q].0);
                if q < prev.len() {
                    assert(grouped[p] == prev[p]);
                    assert(grouped[q] == prev[q]);
                    assert(prev.map_values(keys)[p] == prev[p].0);
                    assert(prev.map_values(keys)[q] == prev[q].0);
                } else {
                    assert(grouped[q].0 == key);
                    assert(grouped[p] == prev[p]);
                }
            }
        } else {
            assert(grouped =~= prev.update(gi, (prev[gi].0, prev[gi].1.push(pairs.last().1))));
            assert(grouped.map_values(keys) =~= prev.map_values(keys));
        }
    }
}

proof fn lemma_filter_members<A>(s: Seq<A>, pred: spec_fn(A) -> bool)
    ensures
        forall|i: int|
            0 <= i < s.filter(pred).len() ==> s.contains(#[trigger] s.filter(pred)[i]),
    decreases s.len(),
{
    reveal(Seq::filter);
    if s.len() > 0 {
        lemma_filter_members(s.drop_last(), pred);
        assert forall|i: int| 0 <= i < s.filter(pred).len() implies s.contains(
            #[trigger] s.filter(pred)[i],
        ) by {
            let f = s.drop_last().filter(pred);
            if i < f.len() {
                assert(s.filter(pred)[i] == f[i]);
                let j = choose|j: int|
                    0 <= j < s.drop_last().len() && (#[trigger] s.drop_last()[j]) == f[i];
                assert(s[j] == f[i]);
            } else {
                assert(s[s.len() - 1] == s.filter(pred)[i]);
            }
        }
    }
}

/// Every pangram of a puzzle uses the full letter set: its accent-stripped
/// characters, seven distinct ones drawn from seven distinct letters, are
/// exactly the puzzle's letters.
pub proof fn lemma_puzzle_pangrams_cover_letters(
    letters: Seq<char>,
    pool: PoolModel,
    p: PuzzleModel,
)
    requires
        p == puzzle_model(letters, pool),
        letters.len() == 7,
        letters.no_duplicates(),
    ensures
        forall|i: int|
            0 <= i < p.pangrams.len() ==> folded(#[trigger] p.pangrams[i]).to_set()
                == letters.to_set(),
{
    broadcast use vstd::seq_lib::seq_to_set_is_finite;

    let kept = kept_words(pool.words, letters);
    let fits_pred = |q: (Seq<char>, Seq<char>)| word_fits(q.0, letters);
    let pang_pred = |q: (Seq<char>, Seq<char>)| folded(q.0).to_set().len() == 7;
    letters.unique_seq_to_set();
    assert forall|i: int| 0 <= i < p.pangrams.len() implies folded(
        #[trigger] p.pangrams[i],
    ).to_set() == letters.to_set() by {
        kept.lemma_filter_pred(pang_pred, i);
        let e = kept.filter(pang_pred)[i];
        assert(p.pangrams[i] == e.0);
        lemma_filter_members(kept, pang_pred);
        let j = choose|j: int| 0 <= j < kept.len() && (#[trigger] kept[j]) == e;
        pool.words.lemma_filter_pred(fits_pred, j);
        assert(word_fits(e.0, letters));
        let fs = folded(e.0).to_set();
        let ls = letters.to_set();
        assert forall|x: char| fs.contains(x) implies ls.contains(x) by {
            let k = choose|k: int| 0 <= k < folded(e.0).len() && (#[trigger] folded(e.0)[k]) == x;
        }
        assert(fs.subset_of(ls));
        assert forall|x: char| ls.contains(x) implies fs.contains(x) by {
            if !fs.contains(x) {
                fs.lemma_subset_not_in_lt(ls, x);
            }
        }
        assert(fs =~= ls);
    }
}

/// Every surface form of an accepted puzzle's word index fits the puzzle:
/// it contains the center letter and uses only the puzzle's letters,
/// accent-insensitively; and the total number of surface forms over all
/// buckets is the kept-word count, which an accepted puzzle keeps within
/// the size bounds.
pub proof fn lemma_accepted_puzzle_constrained(
    letters: Seq<char>,
    pool: PoolModel,
    p: PuzzleModel,
)
    requires
        p == puzzle_model(letters, pool),
        MIN_WORDS <= kept_words(pool.words, letters).len() <= MAX_WORDS,
    ensures
        forall|i: int, j: int|
            0 <= i < p.word_index.len() && 0 <= j < p.word_index[i].1.len() ==> word_fits(
                #[trigger] p.word_index[i].1[j],
                letters,
            ),
        total_forms(p.word_index) == kept_words(pool.words, letters).len(),
        MIN_WORDS <= total_forms(p.word_index) <= MAX_WORDS,
{
    let kept = kept_words(pool.words, letters);
    let fits_pred = |q: (Seq<char>, Seq<char>)| word_fits(q.0, letters);
    let wkey = |q: (Seq<char>, Seq<char>)| (folded(q.0), q.0);
    let mapped = kept.map_values(wkey);
    lemma_group_pairs_values(mapped);
    assert(mapped.len() == kept.len());
    assert forall|i: int, j: int|
        0 <= i < p.word_index.len() && 0 <= j < p.word_index[i].1.len() implies word_fits(
        #[trigger] p.word_index[i].1[j],
        letters,
    ) by {
        assert(p.word_index == group_pairs(mapped));
        let k = choose|k: int|
            0 <= k < mapped.len() && (#[trigger] group_pairs(mapped)[i].1[j]) == (
            #[trigger] mapped[k]).1;
        assert(mapped[k] == wkey(kept[k]));
        assert(p.word_index[i].1[j] == kept[k].0);
        pool.words.lemma_filter_pred(fits_pred, k);
        assert(fits_pred(kept[k]));
    }
}

} // verus!
