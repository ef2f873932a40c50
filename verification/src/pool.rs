//! The word pool builder: applies the admissibility filter across the whole
//! lexicon record store, with a lemma-derived fallback for inflected forms of
//! an admissible headword, and collects the common pangrams.

use vstd::prelude::*;
use crate::filter::{all_lower_alpha, filter, spec_admissible, spec_pangram_candidate};
use crate::lexicon::{find_word, words_of, EntryModel, Lexicon};
use crate::norm::{folded, normalize, seq_is_lower_alpha};
use vstd::string::StringExecFns;

verus! {

/// Whether a lemma may anchor a fallback: the corpus sentinel for an unknown
/// lemma cannot, nor can a lemma whose accent-stripped form holds anything
/// but lowercase ASCII letters.
pub open spec fn can_anchor(l: Seq<char>) -> bool {
    l != "??"@ && seq_is_lower_alpha(folded(l))
}

/// Whether an entry enters the pool: it passes the admissibility rules
/// directly, or its lemma can anchor a fallback, is itself on record, and
/// the rules pass with the lemma's frequency in place of the word's own.
pub open spec fn included(lex: Seq<EntryModel>, e: EntryModel) -> bool {
    ||| spec_admissible(e.word, Some(e.category), e.raw_frequency)
    ||| {
        &&& can_anchor(e.lemma)
        &&& find_word(lex, e.lemma) != -1
        &&& spec_admissible(e.word, Some(e.category), lex[find_word(lex, e.lemma)].raw_frequency)
    }
}

/// The pool's words: every included entry as a (word, governing lemma) pair,
/// in store order.
pub open spec fn pool_words(lex: Seq<EntryModel>) -> Seq<(Seq<char>, Seq<char>)> {
    lex.filter(|e: EntryModel| included(lex, e)).map_values(|e: EntryModel| (e.word, e.lemma))
}

/// The first-occurrence deduplication of a sequence.
pub open spec fn dedup_first(s: Seq<Seq<char>>) -> Seq<Seq<char>>
    decreases s.len(),
{
    if s.len() == 0 {
        Seq::empty()
    } else {
        let d = dedup_first(s.drop_last());
        if d.contains(s.last()) {
            d
        } else {
            d.push(s.last())
        }
    }
}

pub proof fn lemma_dedup_first_props(s: Seq<Seq<char>>)
    ensures
        dedup_first(s).no_duplicates(),
        forall|x: Seq<char>| #[trigger] dedup_first(s).contains(x) <==> s.contains(x),
    decreases s.len(),
{
    if s.len() > 0 {
        let d = dedup_first(s.drop_last());
        lemma_dedup_first_props(s.drop_last());
        assert forall|x: Seq<char>| #[trigger] s.contains(x) implies (s.drop_last().contains(x)
            || x == s.last()) by {
            let j = choose|j: int| 0 <= j < s.len() && (#[trigger] s[j]) == x;
            if j < s.len() - 1 {
                assert(s.drop_last()[j] == x);
            }
        }
        assert forall|x: Seq<char>| s.drop_last().contains(x) implies #[trigger] s.contains(
            x,
        ) by {
            let j = choose|j: int| 0 <= j < s.drop_last().len() && (#[trigger] s.drop_last()[j]) == x;
            assert(s[j] == x);
        }
        if !d.contains(s.last()) {
            assert forall|x: Seq<char>| #[trigger] d.push(s.last()).contains(x) implies (
            d.contains(x) || x == s.last()) by {
                let j = choose|j: int|
                    0 <= j < d.push(s.last()).len() && (#[trigger] d.push(s.last())[j]) == x;
                if j < d.len() {
                    assert(d[j] == x);
                }
            }
            assert forall|x: Seq<char>| (d.contains(x) || x == s.last()) implies #[trigger] d.push(
                s.last(),
            ).contains(x) by {
                if x == s.last() {
                    assert(d.push(s.last())[d.len() as int] == x);
                } else {
                    let j = choose|j: int| 0 <= j < d.len() && (#[trigger] d[j]) == x;
                    assert(d.push(s.last())[j] == x);
                }
            }
            assert forall|p: int, q: int|
                0 <= p < q < d.push(s.last()).len() implies d.push(s.last())[p] != d.push(
                s.last(),
            )[q] by {
                if q == d.len() {
                    assert(d.push(s.last())[p] == d[p]);
                    assert(d.contains(d[p]));
                }
            }
        }
    }
}

/// The pool's pangram set: the accent-stripped forms of the entries that are
/// directly admissible and flagged as common pangram candidates, first
/// occurrences kept.
pub open spec fn pool_pangrams(lex: Seq<EntryModel>) -> Seq<Seq<char>> {
    dedup_first(
        lex.filter(
            |e: EntryModel|
                spec_admissible(e.word, Some(e.category), e.raw_frequency)
                    && spec_pangram_candidate(e.word, e.raw_frequency),
        ).map_values(|e: EntryModel| folded(e.word)),
    )
}

/// The first components — the words — of a sequence of pool pairs.
pub open spec fn first_words(ws: Seq<(Seq<char>, Seq<char>)>) -> Seq<Seq<char>> {
    ws.map_values(|p: (Seq<char>, Seq<char>)| p.0)
}

proof fn lemma_words_of_drop_last(s: Seq<EntryModel>)
    requires
        s.len() > 0,
        words_of(s).no_duplicates(),
    ensures
        words_of(s.drop_last()).no_duplicates(),
{
    assert(words_of(s.drop_last()) =~= words_of(s).drop_last());
    assert forall|p: int, q: int|
        0 <= p < q < words_of(s).drop_last().len() implies words_of(s).drop_last()[p] != words_of(
        s,
    ).drop_last()[q] by {
        assert(words_of(s)[p] != words_of(s)[q]);
    }
}

proof fn lemma_filter_elems_contained(s: Seq<EntryModel>, pred: spec_fn(EntryModel) -> bool)
    ensures
        forall|i: int|
            0 <= i < s.filter(pred).len() ==> s.contains(#[trigger] s.filter(pred)[i]),
    decreases s.len(),
{
    reveal(Seq::filter);
    if s.len() > 0 {
        lemma_filter_elems_contained(s.drop_last(), pred);
        assert forall|i: int| 0 <= i < s.filter(pred).len() implies s.contains(
            #[trigger] s.filter(pred)[i],
        ) by {
            let f = s.drop_last().filter(pred);
            if i < f.len() {
                assert(s.filter(pred)[i] == f[i]);
                let j = choose|j: int|
                    0 <= j < s.drop_last().len() && (#[trigger] s.drop_last()[j]) == f[i];
                assert(s[j] == f[i]);
            } else {
                assert(s[s.len() - 1] == s.filter(pred)[i]);
            }
        }
    }
}

/// A filtered selection out of a store with unique words again has unique
/// words.
proof fn lemma_filtered_words_unique(s: Seq<EntryModel>, pred: spec_fn(EntryModel) -> bool)
    requires
        words_of(s).no_duplicates(),
    ensures
        words_of(s.filter(pred)).no_duplicates(),
    decreases s.len(),
{
    reveal(Seq::filter);
    if s.len() > 0 {
        let rest = s.drop_last();
        lemma_words_of_drop_last(s);
        lemma_filtered_words_unique(rest, pred);
        let f = rest.filter(pred);
        if pred(s.last()) {
            assert(s.filter(pred) == f.push(s.last()));
            assert forall|p: int, q: int|
                0 <= p < q < words_of(f.push(s.last())).len() implies words_of(f.push(s.last()))[p]
                != words_of(f.push(s.last()))[q] by {
                if q < f.len() {
                    assert(words_of(f)[p] == words_of(f.push(s.last()))[p]);
                    assert(words_of(f)[q] == words_of(f.push(s.last()))[q]);
                } else {
                    // The pushed entry's word cannot be among the earlier
                    // filtered words: those all sit before the last index.
                    assert(f.push(s.last())[p] == f[p]);
                    lemma_filter_elems_contained(rest, pred);
                    assert(rest.contains(f[p]));
                    let j = choose|j: int| 0 <= j < rest.len() && (#[trigger] rest[j]) == f[p];
                    assert(s[j] == f[p]);
                    assert(words_of(s)[j] == f[p].word);
                    assert(words_of(s)[s.len() - 1] == s.last().word);
                    assert(words_of(f.push(s.last()))[p] == f[p].word);
                    assert(words_of(f.push(s.last()))[q] == s.last().word);
                }
            }
        }
    }
}

/// The model of a word pool.
pub ghost struct PoolModel {
    pub words: Seq<(Seq<char>, Seq<char>)>,
    pub pangrams: Seq<Seq<char>>,
}

/// The compiled word pool: the (word, governing lemma) pairs that passed
/// curation, and the normalized common pangrams among them. Built once and
/// read-only afterwards.
pub struct WordPool {
    words: Vec<(String, String)>,
    pangrams: Vec<String>,
}

impl View for WordPool {
    type V = PoolModel;

    closed spec fn view(&self) -> PoolModel {
        PoolModel { words: self.words.deep_view(), pangrams: self.pangrams.deep_view() }
    }
}

impl WordPool {
    /// Distinct words, and pangrams that are normalized forms of exactly
    /// seven distinct letters, each listed once.
    pub open spec fn wf(&self) -> bool {
        &&& self@.words.map_values(|p: (Seq<char>, Seq<char>)| p.0).no_duplicates()
        &&& self@.pangrams.no_duplicates()
        &&& forall|i: int|
            0 <= i < self@.pangrams.len() ==> {
                &&& folded(#[trigger] self@.pangrams[i]) == self@.pangrams[i]
                &&& self@.pangrams[i].to_set().len() == 7
            }
    }

    /// Builds a pool directly from its parts, as when a compiled artifact is
    /// loaded back, validating the invariant: the words must be pairwise
    /// distinct, and every pangram must be its own normalized form, have
    /// exactly seven distinct letters, and be listed once.
    pub fn new(words: Vec<(String, String)>, pangrams: Vec<String>) -> (r: Option<WordPool>)
        ensures
            r is Some <==> {
                &&& first_words(words.deep_view()).no_duplicates()
                &&& pangrams.deep_view().no_duplicates()
                &&& forall|i: int|
                    0 <= i < pangrams.deep_view().len() ==> {
                        &&& folded(#[trigger] pangrams.deep_view()[i]) == pangrams.deep_view()[i]
                        &&& pangrams.deep_view()[i].to_set().len() == 7
                    }
            },
            r is Some ==> {
                &&& r->0@.words == words.deep_view()
                &&& r->0@.pangrams == pangrams.deep_view()
                &&& r->0.wf()
            },
    {
        let ghost wm = words.deep_view();
        let ghost pm = pangrams.deep_view();
        let n = words.len();
        for i in 0..n
            invariant
                n == words.len(),
                wm == words.deep_view(),
                forall|p: int, q: int| 0 <= p < q < i ==> wm[p].0 != wm[q].0,
        {
            for j in 0..i
                invariant
                    i < n == words.len(),
                    wm == words.deep_view(),
                    forall|p: int, q: int| 0 <= p < q < i ==> wm[p].0 != wm[q].0,
                    forall|p: int| 0 <= p < j ==> wm[p].0 != wm[i as int].0,
            {
                if words[j].0.eq(&words[i].0) {
                    proof {
                        assert(wm[j as int].0 == wm[i as int].0);
                        assert(first_words(wm)[j as int] == wm[j as int].0);
                        assert(first_words(wm)[i as int] == wm[i as int].0);
                    }
                    return None;
                }
                assert(wm[j as int].0 == words@[j as int].0@);
                assert(wm[i as int].0 == words@[i as int].0@);
            }
        }
        proof {
            assert forall|p: int, q: int|
                0 <= p < q < first_words(wm).len() implies first_words(wm)[p] != first_words(
                wm,
            )[q] by {
                assert(first_words(wm)[p] == wm[p].0);
                assert(first_words(wm)[q] == wm[q].0);
            }
        }
        let m = pangrams.len();
        for i in 0..m
            invariant
                m == pangrams.len(),
                pm == pangrams.deep_view(),
                forall|p: int, q: int| 0 <= p < q < i ==> pm[p] != pm[q],
                forall|p: int|
                    0 <= p < i ==> {
                        &&& folded(#[trigger] pm[p]) == pm[p]
                        &&& pm[p].to_set().len() == 7
                    },
        {
            let p = &pangrams[i];
            proof {
                assert(pm[i as int] == p@);
            }
            let stripped = normalize(p.as_str());
            if !stripped.eq(p) {
                return None;
            }
            if crate::filter::count_unique_chars(p.as_str()) != 7 {
                return None;
            }
            for j in 0..i
                invariant
                    i < m == pangrams.len(),
                    pm == pangrams.deep_view(),
                    p@ == pm[i as int],
                    forall|p2: int, q: int| 0 <= p2 < q < i ==> pm[p2] != pm[q],
                    forall|p2: int| 0 <= p2 < j ==> pm[p2] != pm[i as int],
            {
                assert(pm[j as int] == pangrams@[j as int]@);
                if pangrams[j].eq(p) {
                    proof {
                        assert(pm[j as int] == pm[i as int]);
                    }
                    return None;
                }
            }
        }
        proof {
            assert(pm.no_duplicates());
        }
        Some(WordPool { words, pangrams })
    }

    /// The pool's (word, governing lemma) pairs.
    pub fn words(&self) -> (r: &Vec<(String, String)>)
        ensures
            r.deep_view() == self@.words,
    {
        &self.words
    }

    /// The pool's normalized common pangrams.
    pub fn pangrams(&self) -> (r: &Vec<String>)
        ensures
            r.deep_view() == self@.pangrams,
    {
        &self.pangrams
    }
}

/// Whether `s` is one of the strings of `v`.
fn string_vec_contains(v: &Vec<String>, s: &String) -> (b: bool)
    ensures
        b == v.deep_view().contains(s@),
{
    let n = v.len();
    for i in 0..n
        invariant
            n == v.len(),
            forall|k: int| 0 <= k < i ==> v.deep_view()[k] != s@,
    {
        if v[i].eq(s) {
            assert(v.deep_view()[i as int] == s@);
            return true;
        }
        assert(v.deep_view()[i as int] == v@[i as int]@);
    }
    proof {
        if v.deep_view().contains(s@) {
            let j = choose|j: int| 0 <= j < v.deep_view().len() && (#[trigger] v.deep_view()[j]) == s@;
        }
    }
    false
}

/// Whether a lemma may anchor a fallback check.
fn lemma_anchors(l: &String) -> (b: bool)
    ensures
        b == can_anchor(l@),
{
    let sentinel = String::from_str("??");
    if l.eq(&sentinel) {
        return false;
    }
    let f = normalize(l.as_str());
    all_lower_alpha(&f)
}

/// Builds the compiled word pool from the lexicon record store.
///
/// Each entry is checked directly first; an entry that fails is still
/// included when its lemma can anchor a fallback, is on record, and the
/// rules pass with the lemma's frequency in place of the word's own. The
/// accent-stripped forms of the entries flagged as common pangram candidates
/// make up the pangram list, each form once, in first-seen order.
pub fn generate_words_and_pangrams(lex: &Lexicon) -> (r: WordPool)
    requires
        lex.wf(),
    ensures
        r@.words == pool_words(lex@),
        r@.pangrams == pool_pangrams(lex@),
        r.wf(),
{
    let ghost lm = lex@;
    let ghost inc_pred = |e: EntryModel| included(lm, e);
    let ghost pang_pred = |e: EntryModel|
        spec_admissible(e.word, Some(e.category), e.raw_frequency) && spec_pangram_candidate(
            e.word,
            e.raw_frequency,
        );
    let entries = lex.entries();
    let n = entries.len();
    let mut words: Vec<(String, String)> = Vec::new();
    let mut pangrams: Vec<String> = Vec::new();
    proof {
        reveal(Seq::filter);
        assert(lm.take(0) =~= Seq::<EntryModel>::empty());
        assert(words.deep_view() =~= lm.take(0).filter(inc_pred).map_values(
            |e: EntryModel| (e.word, e.lemma),
        ));
        assert(pangrams.deep_view() =~= dedup_first(
            lm.take(0).filter(pang_pred).map_values(|e: EntryModel| folded(e.word)),
        ));
    }
    for idx in 0..n
        invariant
            n == entries.len(),
            lm == lex@,
            lex.wf(),
            entries.deep_view() == lm,
            inc_pred == (|e: EntryModel| included(lm, e)),
            pang_pred == (|e: EntryModel|
                spec_admissible(e.word, Some(e.category), e.raw_frequency)
                    && spec_pangram_candidate(e.word, e.raw_frequency)),
            words.deep_view() == lm.take(idx as int).filter(inc_pred).map_values(
                |e: EntryModel| (e.word, e.lemma),
            ),
            pangrams.deep_view() == dedup_first(
                lm.take(idx as int).filter(pang_pred).map_values(|e: EntryModel| folded(e.word)),
            ),
            forall|i: int|
                0 <= i < pangrams.deep_view().len() ==> {
                    &&& folded(#[trigger] pangrams.deep_view()[i]) == pangrams.deep_view()[i]
                    &&& pangrams.deep_view()[i].to_set().len() == 7
                },
    {
        let e = &entries[idx];
        proof {
            assert(e@ == lm[idx as int]);
        }
        let (valid, common_pangram) = filter(
            &e.word,
            Some(&e.lemma),
            Some(e.category),
            e.raw_frequency,
            true,
        );
        let keep_entry = if valid {
            true
        } else if lemma_anchors(&e.lemma) {
            match lex.lookup(&e.lemma) {
                Some(le) => {
                    let (valid_by_lemma, _) = filter(
                        &e.word,
                        Some(&e.lemma),
                        Some(e.category),
                        le.raw_frequency,
                        true,
                    );
                    valid_by_lemma
                }
                None => false,
            }
        } else {
            false
        };
        proof {
            assert(keep_entry == included(lm, e@));
            assert(common_pangram == pang_pred(e@));
            reveal(Seq::filter);
            assert(lm.take(idx + 1).drop_last() =~= lm.take(idx as int));
            assert(lm.take(idx + 1).last() == lm[idx as int]);
        }
        if common_pangram {
            let stripped = normalize(e.word.as_str());
            let ghost old_pm = pangrams.deep_view();
            let ghost mapped = lm.take(idx as int).filter(pang_pred).map_values(
                |em: EntryModel| folded(em.word),
            );
            proof {
                assert(lm.take(idx + 1).filter(pang_pred) == lm.take(idx as int).filter(
                    pang_pred,
                ).push(lm[idx as int]));
                assert(lm.take(idx + 1).filter(pang_pred).map_values(
                    |em: EntryModel| folded(em.word),
                ) =~= mapped.push(folded(e@.word)));
                assert(mapped.push(stripped@).drop_last() =~= mapped);
            }
            if !string_vec_contains(&pangrams, &stripped) {
                pangrams.push(stripped);
                proof {
                    assert(pangrams.deep_view() =~= old_pm.push(folded(e@.word)));
                    assert(pangrams.deep_view() =~= dedup_first(mapped.push(folded(e@.word))));
                }
            } else {
                proof {
                    assert(old_pm =~= dedup_first(mapped.push(folded(e@.word))));
                }
            }
        } else {
            proof {
                reveal(Seq::filter);
                if pang_pred(lm[idx as int]) {
                    assert(false);
                }
                assert(lm.take(idx + 1).filter(pang_pred) == lm.take(idx as int).filter(
                    pang_pred,
                ));
            }
        }
        let ghost old_wm = words.deep_view();
        if keep_entry {
            words.push((e.word.clone(), e.lemma.clone()));
            proof {
                reveal(Seq::filter);
                assert(lm.take(idx + 1).filter(inc_pred) == lm.take(idx as int).filter(
                    inc_pred,
                ).push(lm[idx as int]));
                assert(words.deep_view() =~= old_wm.push((e@.word, e@.lemma)));
                assert(lm.take(idx + 1).filter(inc_pred).map_values(
                    |em: EntryModel| (em.word, em.lemma),
                ) =~= old_wm.push((e@.word, e@.lemma)));
            }
        } else {
            proof {
                reveal(Seq::filter);
                assert(lm.take(idx + 1).filter(inc_pred) == lm.take(idx as int).filter(inc_pred));
            }
        }
    }
    proof {
        assert(lm.take(n as int) =~= lm);
        lemma_filtered_words_unique(lm, inc_pred);
        assert(first_words(pool_words(lm)) =~= words_of(lm.filter(inc_pred)));
        lemma_dedup_first_props(
            lm.filter(pang_pred).map_values(|em: EntryModel| folded(em.word)),
        );
    }
    WordPool { words, pangrams }
}

} // verus!
