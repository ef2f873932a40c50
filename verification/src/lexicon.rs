//! The lexicon record store: corpus-derived entries keyed by word, with
//! duplicate rows merged by summing their raw frequencies while the
//! categorical fields of the first-seen row are kept.

use vstd::prelude::*;

verus! {

/// The grammatical category tag of a corpus entry.
#[derive(Clone, Copy, Debug, PartialEq, Eq, Structural)]
pub enum Categoria {
    /// Adjetivo
    A,
    /// Adverbio
    R,
    /// Afijo
    J,
    /// Articulo
    T,
    /// Conjuncion
    C,
    /// Contraccion
    E,
    /// Cuantificador
    Q,
    /// Demostrativo
    D,
    /// Desconocido
    U,
    /// Extranjerismo
    F,
    /// Interjeccion
    I,
    /// Interrogativo
    W,
    /// Numeral
    M,
    /// Posesivo
    X,
    /// Preposicion
    P,
    /// Pronombre personal
    L,
    /// Puntuacion
    Y,
    /// Relativo
    H,
    /// Sustantivo
    N,
    /// Verbo
    V,
}

/// One corpus record: a word, the headword it inflects from, its grammatical
/// category, and its raw corpus frequency. The same shape serves both for a
/// raw corpus row and for a merged lexicon entry.
#[derive(Clone, Debug)]
pub struct LexiconEntry {
    pub word: String,
    pub lemma: String,
    pub category: Categoria,
    pub raw_frequency: usize,
}

/// The mathematical model of a `LexiconEntry`.
pub ghost struct EntryModel {
    pub word: Seq<char>,
    pub lemma: Seq<char>,
    pub category: Categoria,
    pub raw_frequency: nat,
}

impl View for LexiconEntry {
    type V = EntryModel;

    open spec fn view(&self) -> EntryModel {
        EntryModel {
            word: self.word@,
            lemma: self.lemma@,
            category: self.category,
            raw_frequency: self.raw_frequency as nat,
        }
    }
}

impl DeepView for LexiconEntry {
    type V = EntryModel;

    open spec fn deep_view(&self) -> EntryModel {
        self.view()
    }
}

/// The words of a sequence of entries, in order.
pub open spec fn words_of(entries: Seq<EntryModel>) -> Seq<Seq<char>> {
    entries.map_values(|e: EntryModel| e.word)
}

/// The index of the first entry whose word is `w`, or `-1` if there is none.
pub open spec fn find_word(entries: Seq<EntryModel>, w: Seq<char>) -> int
    decreases entries.len(),
{
    if entries.len() == 0 {
        -1
    } else if entries[0].word == w {
        0
    } else {
        let rest = find_word(entries.drop_first(), w);
        if rest == -1 {
            -1
        } else {
            rest + 1
        }
    }
}

pub proof fn lemma_find_word_props(entries: Seq<EntryModel>, w: Seq<char>)
    ensures
        find_word(entries, w) == -1 ==> forall|i: int|
            0 <= i < entries.len() ==> (#[trigger] entries[i]).word != w,
        find_word(entries, w) != -1 ==> {
            &&& 0 <= find_word(entries, w) < entries.len()
            &&& entries[find_word(entries, w)].word == w
            &&& forall|i: int|
                0 <= i < find_word(entries, w) ==> (#[trigger] entries[i]).word != w
        },
    decreases entries.len(),
{
    if entries.len() > 0 && entries[0].word != w {
        let rest = entries.drop_first();
        lemma_find_word_props(rest, w);
        if find_word(entries, w) == -1 {
            assert forall|i: int| 0 <= i < entries.len() implies (#[trigger] entries[i]).word
                != w by {
                if i > 0 {
                    assert(rest[i - 1] == entries[i]);
                }
            }
        } else {
            let f = find_word(entries, w);
            assert(rest[f - 1].word == w);
            assert forall|i: int| 0 <= i < f implies (#[trigger] entries[i]).word != w by {
                if i > 0 {
                    assert(rest[i - 1] == entries[i]);
                }
            }
        }
    }
}

/// The sum of the raw frequencies of all rows whose word is `w`.
pub open spec fn sum_freq(rows: Seq<EntryModel>, w: Seq<char>) -> nat
    decreases rows.len(),
{
    if rows.len() == 0 {
        0
    } else {
        sum_freq(rows.drop_last(), w) + if rows.last().word == w {
            rows.last().raw_frequency
        } else {
            0
        }
    }
}

/// The sum of the raw frequencies of all rows.
pub open spec fn total_freq(rows: Seq<EntryModel>) -> nat
    decreases rows.len(),
{
    if rows.len() == 0 {
        0
    } else {
        total_freq(rows.drop_last()) + rows.last().raw_frequency
    }
}

/// Merging corpus rows in order: the first row of a word starts its entry;
/// every later row of the same word only adds its raw frequency, while the
/// first-seen lemma and category are kept.
pub open spec fn merge_rows(rows: Seq<EntryModel>) -> Seq<EntryModel>
    decreases rows.len(),
{
    if rows.len() == 0 {
        Seq::empty()
    } else {
        let prev = merge_rows(rows.drop_last());
        let row = rows.last();
        let i = find_word(prev, row.word);
        if i == -1 {
            prev.push(row)
        } else {
            prev.update(
                i,
                EntryModel {
                    raw_frequency: prev[i].raw_frequency + row.raw_frequency,
                    ..prev[i]
                },
            )
        }
    }
}

proof fn lemma_find_word_push(s: Seq<EntryModel>, x: EntryModel, w: Seq<char>)
    ensures
        find_word(s.push(x), w) == if find_word(s, w) != -1 {
            find_word(s, w)
        } else if x.word == w {
            s.len() as int
        } else {
            -1
        },
    decreases s.len(),
{
    if s.len() == 0 {
        assert(s.push(x)[0] == x);
        assert(s.push(x).drop_first() =~= Seq::<EntryModel>::empty());
        assert(find_word(Seq::<EntryModel>::empty(), w) == -1);
        assert(find_word(s, w) == -1);
        if x.word == w {
            assert(find_word(s.push(x), w) == 0);
        }
    } else {
        assert(s.push(x)[0] == s[0]);
        assert(s.push(x).drop_first() =~= s.drop_first().push(x));
        lemma_find_word_push(s.drop_first(), x, w);
        lemma_find_word_props(s.drop_first(), w);
        lemma_find_word_props(s, w);
        let rest = find_word(s.drop_first().push(x), w);
        assert(find_word(s.push(x), w) == if s[0].word == w {
            0
        } else if rest == -1 {
            -1
        } else {
            rest + 1
        });
        let fd = find_word(s.drop_first(), w);
        assert(find_word(s, w) == if s[0].word == w {
            0
        } else if fd == -1 {
            -1
        } else {
            fd + 1
        });
    }
}

proof fn lemma_find_word_same_words(a: Seq<EntryModel>, b: Seq<EntryModel>, w: Seq<char>)
    requires
        a.len() == b.len(),
        forall|k: int| 0 <= k < a.len() ==> (#[trigger] a[k]).word == b[k].word,
    ensures
        find_word(a, w) == find_word(b, w),
    decreases a.len(),
{
    if a.len() > 0 {
        assert(a[0].word == b[0].word);
        lemma_find_word_same_words(a.drop_first(), b.drop_first(), w);
    }
}

proof fn lemma_sum_freq_absent(rows: Seq<EntryModel>, w: Seq<char>)
    requires
        forall|i: int| 0 <= i < rows.len() ==> (#[trigger] rows[i]).word != w,
    ensures
        sum_freq(rows, w) == 0,
    decreases rows.len(),
{
    if rows.len() > 0 {
        assert(forall|i: int|
            0 <= i < rows.drop_last().len() ==> #[trigger] rows.drop_last()[i] == rows[i]);
        lemma_sum_freq_absent(rows.drop_last(), w);
    }
}

pub proof fn lemma_sum_freq_le_total(rows: Seq<EntryModel>, w: Seq<char>)
    ensures
        sum_freq(rows, w) <= total_freq(rows),
    decreases rows.len(),
{
    if rows.len() > 0 {
        lemma_sum_freq_le_total(rows.drop_last(), w);
    }
}

pub proof fn lemma_total_freq_take(rows: Seq<EntryModel>, k: int)
    requires
        0 <= k <= rows.len(),
    ensures
        total_freq(rows.take(k)) <= total_freq(rows),
    decreases rows.len(),
{
    if k == rows.len() {
        assert(rows.take(k) =~= rows);
    } else {
        assert(rows.take(k) =~= rows.drop_last().take(k));
        lemma_total_freq_take(rows.drop_last(), k);
    }
}

/// The properties of the merged store: words are unique; each entry's raw
/// frequency is the sum of the raw frequencies of the source rows sharing its
/// word; each entry's lemma and category are those of the first such row; and
/// every source row's word has an entry.
pub proof fn lemma_merge_rows_props(rows: Seq<EntryModel>)
    ensures
        words_of(merge_rows(rows)).no_duplicates(),
        forall|j: int|
            0 <= j < merge_rows(rows).len() ==> (#[trigger] merge_rows(rows)[j]).raw_frequency
                == sum_freq(rows, merge_rows(rows)[j].word),
        forall|j: int|
            0 <= j < merge_rows(rows).len() ==> {
                let fi = find_word(rows, (#[trigger] merge_rows(rows)[j]).word);
                &&& 0 <= fi < rows.len()
                &&& rows[fi].word == merge_rows(rows)[j].word
                &&& merge_rows(rows)[j].lemma == rows[fi].lemma
                &&& merge_rows(rows)[j].category == rows[fi].category
            },
        forall|i: int|
            0 <= i < rows.len() ==> find_word(merge_rows(rows), (#[trigger] rows[i]).word) != -1,
    decreases rows.len(),
{
    if rows.len() == 0 {
        return;
    }
    let rs = rows.drop_last();
    let prev = merge_rows(rs);
    let row = rows.last();
    let merged = merge_rows(rows);
    lemma_merge_rows_props(rs);
    lemma_find_word_props(prev, row.word);
    assert(rows =~= rs.push(row));
    let i0 = find_word(prev, row.word);
    if i0 == -1 {
        assert(merged =~= prev.push(row));
        // The new word is on no earlier row, else it would already have an entry.
        assert forall|i: int| 0 <= i < rs.len() implies (#[trigger] rs[i]).word != row.word by {
            if rs[i].word == row.word {
                assert(find_word(prev, rs[i].word) != -1);
            }
        }
        lemma_sum_freq_absent(rs, row.word);
        // Uniqueness of the extended word list.
        assert forall|p: int, q: int|
            0 <= p < q < words_of(merged).len() implies words_of(merged)[p] != words_of(
            merged,
        )[q] by {
            assert(words_of(merged)[p] == merged[p].word);
            assert(words_of(merged)[q] == merged[q].word);
            if q < prev.len() {
                assert(merged[p] == prev[p]);
                assert(merged[q] == prev[q]);
                assert(words_of(prev)[p] == prev[p].word);
                assert(words_of(prev)[q] == prev[q].word);
            } else {
                assert(merged[q] == row);
                assert(merged[p] == prev[p]);
                assert(prev[p].word != row.word);
            }
        }
        // Frequencies.
        assert forall|j: int| 0 <= j < merged.len() implies (#[trigger] merged[j]).raw_frequency
            == sum_freq(rows, merged[j].word) by {
            if j < prev.len() {
                assert(merged[j] == prev[j]);
                assert(prev[j].word != row.word);
            } else {
                assert(merged[j] == row);
            }
        }
        // First-seen fields.
        assert forall|j: int| 0 <= j < merged.len() implies {
            let fi = find_word(rows, (#[trigger] merged[j]).word);
            &&& 0 <= fi < rows.len()
            &&& rows[fi].word == merged[j].word
            &&& merged[j].lemma == rows[fi].lemma
            &&& merged[j].category == rows[fi].category
        } by {
            lemma_find_word_push(rs, row, merged[j].word);
            if j < prev.len() {
                let fi = find_word(rs, merged[j].word);
                assert(rows[fi] == rs[fi]);
            } else {
                lemma_find_word_props(rs, row.word);
                assert(rows[rs.len() as int] == row);
            }
        }
        // Coverage.
        assert forall|i: int| 0 <= i < rows.len() implies find_word(
            merged,
            (#[trigger] rows[i]).word,
        ) != -1 by {
            lemma_find_word_push(prev, row, rows[i].word);
            if i < rs.len() {
                assert(find_word(prev, rs[i].word) != -1);
            } else {
                assert(rows[i] == row);
            }
        }
    } else {
        lemma_find_word_props(prev, row.word);
        let updated = EntryModel { raw_frequency: prev[i0].raw_frequency + row.raw_frequency, ..prev[i0] };
        assert(merged =~= prev.update(i0, updated));
        assert(forall|k: int| 0 <= k < merged.len() ==> (#[trigger] merged[k]).word == prev[k].word);
        // The word list is unchanged.
        assert(words_of(merged) =~= words_of(prev));
        // Only the entry of the repeated word is touched, and only its frequency.
        assert forall|j: int| 0 <= j < merged.len() implies (#[trigger] merged[j]).raw_frequency
            == sum_freq(rows, merged[j].word) by {
            if j != i0 {
                assert(merged[j] == prev[j]);
                // Unique words: no other entry shares the repeated word.
                assert(words_of(prev)[j] == prev[j].word);
                assert(words_of(prev)[i0] == prev[i0].word);
                assert(prev[j].word != row.word);
            }
        }
        assert forall|j: int| 0 <= j < merged.len() implies {
            let fi = find_word(rows, (#[trigger] merged[j]).word);
            &&& 0 <= fi < rows.len()
            &&& rows[fi].word == merged[j].word
            &&& merged[j].lemma == rows[fi].lemma
            &&& merged[j].category == rows[fi].category
        } by {
            lemma_find_word_push(rs, row, merged[j].word);
            let fi = find_word(rs, merged[j].word);
            assert(0 <= fi < rs.len());
            assert(rows[fi] == rs[fi]);
            if j == i0 {
                assert(merged[j].word == prev[i0].word);
                assert(merged[j].lemma == prev[i0].lemma);
                assert(merged[j].category == prev[i0].category);
            } else {
                assert(merged[j] == prev[j]);
            }
        }
        assert forall|i: int| 0 <= i < rows.len() implies find_word(
            merged,
            (#[trigger] rows[i]).word,
        ) != -1 by {
            lemma_find_word_same_words(merged, prev, rows[i].word);
            if i < rs.len() {
                assert(find_word(prev, rs[i].word) != -1);
            } else {
                assert(rows[i] == row);
            }
        }
    }
}

impl LexiconEntry {
    /// A copy of the entry whose model is provably the same.
    pub fn duplicate(&self) -> (r: LexiconEntry)
        ensures
            r@ == self@,
    {
        LexiconEntry {
            word: self.word.clone(),
            lemma: self.lemma.clone(),
            category: self.category,
            raw_frequency: self.raw_frequency,
        }
    }
}

/// The in-memory lexicon record store: one entry per distinct word, rows of
/// the same word merged as `merge_rows` describes.
pub struct Lexicon {
    entries: Vec<LexiconEntry>,
}

impl View for Lexicon {
    type V = Seq<EntryModel>;

    closed spec fn view(&self) -> Seq<EntryModel> {
        self.entries.deep_view()
    }
}

impl Lexicon {
    /// Every word keys at most one entry.
    pub open spec fn wf(&self) -> bool {
        words_of(self@).no_duplicates()
    }

    /// Builds the store from corpus rows, in order: the first row of each
    /// word opens its entry; every later row of the same word adds its raw
    /// frequency to it, and nothing else.
    pub fn from_rows(rows: &Vec<LexiconEntry>) -> (r: Lexicon)
        requires
            total_freq(rows.deep_view()) <= usize::MAX,
        ensures
            r@ == merge_rows(rows.deep_view()),
            r.wf(),
    {
        let ghost rm = rows.deep_view();
        let mut entries: Vec<LexiconEntry> = Vec::new();
        let n = rows.len();
        assert(rm.take(0) =~= Seq::<EntryModel>::empty());
        for idx in 0..n
            invariant
                n == rows.len(),
                rm == rows.deep_view(),
                total_freq(rm) <= usize::MAX,
                entries.deep_view() == merge_rows(rm.take(idx as int)),
        {
            let row = &rows[idx];
            proof {
                assert(rm.take(idx + 1).drop_last() =~= rm.take(idx as int));
                assert(rm.take(idx + 1).last() == rm[idx as int]);
                assert(rm[idx as int] == row@);
                lemma_merge_rows_props(rm.take(idx as int));
            }
            let pos = Self::position_of(&entries, &row.word);
            match pos {
                Some(i) => {
                    proof {
                        lemma_sum_freq_le_total(rm.take(idx + 1), row@.word);
                        lemma_total_freq_take(rm, idx + 1);
                    }
                    let mut e = entries.remove(i);
                    assert(e@.raw_frequency + row@.raw_frequency == sum_freq(
                        rm.take(idx + 1),
                        row@.word,
                    ));
                    e.raw_frequency = e.raw_frequency + row.raw_frequency;
                    entries.insert(i, e);
                    proof {
                        let prev = merge_rows(rm.take(idx as int));
                        let updated = EntryModel {
                            raw_frequency: prev[i as int].raw_frequency + row@.raw_frequency,
                            ..prev[i as int]
                        };
                        assert(entries.deep_view() =~= prev.update(i as int, updated));
                    }
                }
                None => {
                    entries.push(row.duplicate());
                    proof {
                        assert(entries.deep_view() =~= merge_rows(rm.take(idx as int)).push(row@));
                    }
                }
            }
        }
        proof {
            assert(rm.take(n as int) =~= rm);
            lemma_merge_rows_props(rm);
        }
        Lexicon { entries }
    }

    /// The index of the entry whose word is `w`, if there is one.
    fn position_of(entries: &Vec<LexiconEntry>, w: &String) -> (r: Option<usize>)
        ensures
            r == None::<usize> ==> find_word(entries.deep_view(), w@) == -1,
            r is Some ==> {
                &&& r->0 < entries.len()
                &&& find_word(entries.deep_view(), w@) == r->0 as int
                &&& entries.deep_view()[r->0 as int].word == w@
            },
    {
        let ghost em = entries.deep_view();
        let n = entries.len();
        for i in 0..n
            invariant
                n == entries.len(),
                em == entries.deep_view(),
                forall|k: int| 0 <= k < i ==> (#[trigger] em[k]).word != w@,
        {
            if entries[i].word == *w {
                proof {
                    lemma_find_word_props(em, w@);
                }
                return Some(i);
            }
        }
        proof {
            lemma_find_word_props(em, w@);
        }
        None
    }

    /// The number of entries.
    pub fn len(&self) -> (n: usize)
        ensures
            n == self@.len(),
    {
        self.entries.len()
    }

    /// The entries themselves, for scanning.
    pub fn entries(&self) -> (r: &Vec<LexiconEntry>)
        ensures
            r.deep_view() == self@,
    {
        &self.entries
    }

    /// Looks a word up, returning its entry if the store has one.
    pub fn lookup(&self, w: &String) -> (r: Option<&LexiconEntry>)
        ensures
            r == None::<&LexiconEntry> ==> find_word(self@, w@) == -1,
            r is Some ==> {
                &&& find_word(self@, w@) != -1
                &&& r->0@ == self@[find_word(self@, w@)]
                &&& r->0@.word == w@
            },
    {
        match Self::position_of(&self.entries, w) {
            Some(i) => Some(&self.entries[i]),
            None => None,
        }
    }
}

} // verus!
