//! The dictionary store: dictionaries, their entries, and the word-frequency
//! table, held in memory with the same relational shape and invariants the
//! persisted schema has, and mutated only through transactional operations.

use crate::deinflect::{cands_of, deinflect_post, CandModel, DeinflectResult, Deinflector};
use crate::strutil::{str_eq, views_of};
use vstd::prelude::*;
use vstd::string::*;

verus! {

/// Why a store operation was refused.
#[derive(Clone, Copy, Debug, PartialEq, Eq, Structural)]
pub enum DictError {
    /// Malformed source data; nothing was written.
    DataFormat,
    /// A storage-layer constraint failed; nothing was written.
    Storage,
    /// The named dictionary does not exist.
    NotFound,
}

/// One dictionary row.
pub struct DbDictionary {
    pub id: i64,
    pub title: String,
    pub priority: i64,
    pub fallback: bool,
    pub enabled: bool,
}

/// The mathematical value of a [`DbDictionary`].
pub struct DictModel {
    pub id: int,
    pub title: Seq<char>,
    pub priority: int,
    pub fallback: bool,
    pub enabled: bool,
}

impl View for DbDictionary {
    type V = DictModel;

    open spec fn view(&self) -> DictModel {
        DictModel {
            id: self.id as int,
            title: self.title@,
            priority: self.priority as int,
            fallback: self.fallback,
            enabled: self.enabled,
        }
    }
}

/// One dictionary entry row: one meaning of one imported term.
pub struct DbDictEntry {
    pub id: i64,
    pub expression: String,
    pub reading: String,
    pub meaning: String,
    pub dict_id: i64,
}

/// The mathematical value of a [`DbDictEntry`].
pub struct EntryModel {
    pub id: int,
    pub expression: Seq<char>,
    pub reading: Seq<char>,
    pub meaning: Seq<char>,
    pub dict_id: int,
}

impl View for DbDictEntry {
    type V = EntryModel;

    open spec fn view(&self) -> EntryModel {
        EntryModel {
            id: self.id as int,
            expression: self.expression@,
            reading: self.reading@,
            meaning: self.meaning@,
            dict_id: self.dict_id as int,
        }
    }
}

/// One frequency row: a surface word and its merged frequency value.
pub struct FreqRecord {
    pub word: String,
    pub freq: i64,
}

/// The mathematical value of a [`FreqRecord`].
pub struct FreqModel {
    pub word: Seq<char>,
    pub freq: int,
}

impl View for FreqRecord {
    type V = FreqModel;

    open spec fn view(&self) -> FreqModel {
        FreqModel { word: self.word@, freq: self.freq as int }
    }
}

/// One term-bank record as it comes out of a term-bank file: one source term
/// with all its meanings.
pub struct YomichanEntryV1 {
    pub expression: String,
    pub reading: String,
    pub definition_tags: String,
    pub rule_identifiers: String,
    pub popularity: i32,
    pub meanings: Vec<String>,
    pub sequence: usize,
    pub term_tags: String,
}

/// The part of a term-bank record the store keeps.
pub struct RecordModel {
    pub expression: Seq<char>,
    pub reading: Seq<char>,
    pub meanings: Seq<Seq<char>>,
}

impl View for YomichanEntryV1 {
    type V = RecordModel;

    open spec fn view(&self) -> RecordModel {
        RecordModel {
            expression: self.expression@,
            reading: self.reading@,
            meanings: views_of(self.meanings@),
        }
    }
}

/// One meta-bank record: a surface word with a frequency value.
pub struct YomichanFrequencyEntry {
    pub expression: String,
    pub tag: String,
    pub frequency: i64,
}

/// The mathematical value of a [`YomichanFrequencyEntry`].
pub struct FreqEntryModel {
    pub expression: Seq<char>,
    pub tag: Seq<char>,
    pub frequency: int,
}

impl View for YomichanFrequencyEntry {
    type V = FreqEntryModel;

    open spec fn view(&self) -> FreqEntryModel {
        FreqEntryModel {
            expression: self.expression@,
            tag: self.tag@,
            frequency: self.frequency as int,
        }
    }
}

/// The whole store as a mathematical value.
pub struct StoreModel {
    pub dicts: Seq<DictModel>,
    pub entries: Seq<EntryModel>,
    pub freqs: Seq<FreqModel>,
    pub next_dict_id: int,
    pub next_entry_id: int,
}

/// `id` is the id of some dictionary row.
pub open spec fn has_dict_id(dicts: Seq<DictModel>, id: int) -> bool {
    exists|i: int| 0 <= i < dicts.len() && dicts[i].id == id
}

/// `title` is the title of some dictionary row.
pub open spec fn has_title(m: StoreModel, title: Seq<char>) -> bool {
    exists|i: int| 0 <= i < m.dicts.len() && m.dicts[i].title == title
}

/// The store's well-formedness: titles and ids of dictionaries are unique
/// and below the id counter, entry ids are unique and below their counter,
/// every entry belongs to an existing dictionary, and frequency words are
/// unique.
pub open spec fn store_inv(m: StoreModel) -> bool {
    &&& forall|i: int, j: int|
        #![trigger m.dicts[i], m.dicts[j]]
        0 <= i < j < m.dicts.len() ==> m.dicts[i].title != m.dicts[j].title && m.dicts[i].id
            != m.dicts[j].id
    &&& forall|i: int| 0 <= i < m.dicts.len() ==> 1 <= (#[trigger] m.dicts[i]).id < m.next_dict_id
    &&& forall|k: int|
        0 <= k < m.entries.len() ==> 1 <= (#[trigger] m.entries[k]).id < m.next_entry_id
    &&& forall|k: int, l: int|
        #![trigger m.entries[k], m.entries[l]]
        0 <= k < l < m.entries.len() ==> m.entries[k].id != m.entries[l].id
    &&& forall|k: int|
        0 <= k < m.entries.len() ==> has_dict_id(m.dicts, (#[trigger] m.entries[k]).dict_id)
    &&& forall|i: int, j: int|
        #![trigger m.freqs[i], m.freqs[j]]
        0 <= i < j < m.freqs.len() ==> m.freqs[i].word != m.freqs[j].word
    &&& 1 <= m.next_dict_id
    &&& 1 <= m.next_entry_id
}

/// The store a fresh database holds: nothing, with both id counters at one.
pub open spec fn empty_store() -> StoreModel {
    StoreModel {
        dicts: Seq::empty(),
        entries: Seq::empty(),
        freqs: Seq::empty(),
        next_dict_id: 1,
        next_entry_id: 1,
    }
}

/// A dictionary row with its three mutable policy fields replaced.
pub open spec fn dict_with_policy(
    d: DictModel,
    priority: int,
    fallback: bool,
    enabled: bool,
) -> DictModel {
    DictModel { id: d.id, title: d.title, priority, fallback, enabled }
}

/// A dictionary row with its title replaced.
pub open spec fn dict_with_title(d: DictModel, title: Seq<char>) -> DictModel {
    DictModel { id: d.id, title, priority: d.priority, fallback: d.fallback, enabled: d.enabled }
}

/// The record views of a sequence of term-bank records.
pub open spec fn recs_of(s: Seq<YomichanEntryV1>) -> Seq<RecordModel> {
    s.map_values(|r: YomichanEntryV1| r@)
}

/// The views of a sequence of term banks; a bank that failed to parse is
/// `None`.
pub open spec fn banks_view(s: Seq<Option<Vec<YomichanEntryV1>>>) -> Seq<
    Option<Seq<RecordModel>>,
> {
    s.map_values(
        |ob: Option<Vec<YomichanEntryV1>>|
            match ob {
                Option::Some(v) => Option::Some(recs_of(v@)),
                Option::None => Option::None,
            },
    )
}

/// Every bank parsed.
pub open spec fn banks_parsed<T>(banks: Seq<Option<Seq<T>>>) -> bool {
    forall|b: int| 0 <= b < banks.len() ==> (#[trigger] banks[b]) is Some
}

/// All items of all banks, in order; an unparsed bank contributes nothing.
pub open spec fn flatten_banks<T>(banks: Seq<Option<Seq<T>>>) -> Seq<T>
    decreases banks.len(),
{
    if banks.len() == 0 {
        Seq::empty()
    } else {
        (match banks[0] {
            Option::Some(rs) => rs,
            Option::None => Seq::empty(),
        }) + flatten_banks(banks.drop_first())
    }
}

/// How many entry rows a record sequence expands to: one per meaning.
pub open spec fn total_meanings(rs: Seq<RecordModel>) -> int
    decreases rs.len(),
{
    if rs.len() == 0 {
        0
    } else {
        rs[0].meanings.len() + total_meanings(rs.drop_first())
    }
}

/// The entry rows one record expands to: one per meaning, sharing the
/// record's expression and reading, with sequential ids from `first_id`.
pub open spec fn expand_record(r: RecordModel, dict_id: int, first_id: int) -> Seq<EntryModel> {
    Seq::new(
        r.meanings.len(),
        |k: int|
            EntryModel {
                id: first_id + k,
                expression: r.expression,
                reading: r.reading,
                meaning: r.meanings[k],
                dict_id,
            },
    )
}

/// The entry rows a record sequence expands to, ids assigned in order from
/// `first_id`.
pub open spec fn expand_records(rs: Seq<RecordModel>, dict_id: int, first_id: int) -> Seq<
    EntryModel,
>
    decreases rs.len(),
{
    if rs.len() == 0 {
        Seq::empty()
    } else {
        expand_record(rs[0], dict_id, first_id) + expand_records(
            rs.drop_first(),
            dict_id,
            first_id + rs[0].meanings.len(),
        )
    }
}

pub proof fn lemma_flatten_banks_singleton<T>(x: Option<Seq<T>>)
    ensures
        flatten_banks(seq![x]) == (match x {
            Option::Some(rs) => rs,
            Option::None => Seq::<T>::empty(),
        }),
{
    assert(seq![x].drop_first() =~= Seq::<Option<Seq<T>>>::empty());
    assert(flatten_banks(Seq::<Option<Seq<T>>>::empty()) =~= Seq::<T>::empty());
    assert(flatten_banks(seq![x]) =~= (match x {
        Option::Some(rs) => rs,
        Option::None => Seq::<T>::empty(),
    }));
}

pub proof fn lemma_total_meanings_singleton(r: RecordModel)
    ensures
        total_meanings(seq![r]) == r.meanings.len(),
{
    assert(seq![r].drop_first() =~= Seq::<RecordModel>::empty());
    assert(total_meanings(Seq::<RecordModel>::empty()) == 0);
}

pub proof fn lemma_expand_records_singleton(r: RecordModel, dict_id: int, first_id: int)
    ensures
        expand_records(seq![r], dict_id, first_id) == expand_record(r, dict_id, first_id),
{
    assert(seq![r].drop_first() =~= Seq::<RecordModel>::empty());
    assert(expand_records(Seq::<RecordModel>::empty(), dict_id, first_id + r.meanings.len())
        =~= Seq::<EntryModel>::empty());
    assert(expand_records(seq![r], dict_id, first_id) =~= expand_record(r, dict_id, first_id));
}

pub proof fn lemma_flatten_banks_append<T>(
    a: Seq<Option<Seq<T>>>,
    b: Seq<Option<Seq<T>>>,
)
    ensures
        flatten_banks(a + b) == flatten_banks(a) + flatten_banks(b),
    decreases a.len(),
{
    if a.len() == 0 {
        assert(a + b =~= b);
        assert(flatten_banks(a) + flatten_banks(b) =~= flatten_banks(b));
    } else {
        assert((a + b).drop_first() =~= a.drop_first() + b);
        lemma_flatten_banks_append(a.drop_first(), b);
        assert((a + b)[0] == a[0]);
        assert(flatten_banks(a + b) =~= flatten_banks(a) + flatten_banks(b));
    }
}

pub proof fn lemma_total_meanings_append(a: Seq<RecordModel>, b: Seq<RecordModel>)
    ensures
        total_meanings(a + b) == total_meanings(a) + total_meanings(b),
    decreases a.len(),
{
    if a.len() == 0 {
        assert(a + b =~= b);
    } else {
        assert((a + b).drop_first() =~= a.drop_first() + b);
        lemma_total_meanings_append(a.drop_first(), b);
        assert((a + b)[0] == a[0]);
    }
}

pub proof fn lemma_total_meanings_nonneg(rs: Seq<RecordModel>)
    ensures
        total_meanings(rs) >= 0,
    decreases rs.len(),
{
    if rs.len() > 0 {
        lemma_total_meanings_nonneg(rs.drop_first());
    }
}

pub proof fn lemma_expand_records_append(
    a: Seq<RecordModel>,
    b: Seq<RecordModel>,
    dict_id: int,
    first_id: int,
)
    ensures
        expand_records(a + b, dict_id, first_id) == expand_records(a, dict_id, first_id)
            + expand_records(b, dict_id, first_id + total_meanings(a)),
    decreases a.len(),
{
    if a.len() == 0 {
        assert(a + b =~= b);
        assert(expand_records(a, dict_id, first_id) + expand_records(b, dict_id, first_id)
            =~= expand_records(b, dict_id, first_id));
    } else {
        assert((a + b).drop_first() =~= a.drop_first() + b);
        lemma_expand_records_append(a.drop_first(), b, dict_id, first_id + a[0].meanings.len());
        assert((a + b)[0] == a[0]);
        assert(expand_records(a + b, dict_id, first_id) =~= expand_records(a, dict_id, first_id)
            + expand_records(b, dict_id, first_id + total_meanings(a)));
    }
}

/// Entry rows from expansion carry sequential ids from `first_id` and all
/// point at `dict_id`; there are exactly as many as meanings.
pub proof fn lemma_expand_records_index(rs: Seq<RecordModel>, dict_id: int, first_id: int)
    ensures
        expand_records(rs, dict_id, first_id).len() == total_meanings(rs),
        forall|x: int|
            0 <= x < expand_records(rs, dict_id, first_id).len() ==> (#[trigger] expand_records(
                rs,
                dict_id,
                first_id,
            )[x]).id == first_id + x && expand_records(rs, dict_id, first_id)[x].dict_id == dict_id,
    decreases rs.len(),
{
    if rs.len() > 0 {
        lemma_expand_records_index(rs.drop_first(), dict_id, first_id + rs[0].meanings.len());
    }
}

/// The views of a sequence of meta banks; a bank that failed to parse is
/// `None`.
pub open spec fn freq_banks_view(s: Seq<Option<Vec<YomichanFrequencyEntry>>>) -> Seq<
    Option<Seq<FreqEntryModel>>,
> {
    s.map_values(
        |ob: Option<Vec<YomichanFrequencyEntry>>|
            match ob {
                Option::Some(v) => Option::Some(v@.map_values(|e: YomichanFrequencyEntry| e@)),
                Option::None => Option::None,
            },
    )
}

/// The frequency stored for `word`, if any.
pub open spec fn freq_of(freqs: Seq<FreqModel>, word: Seq<char>) -> Option<int>
    decreases freqs.len(),
{
    if freqs.len() == 0 {
        Option::None
    } else if freqs[0].word == word {
        Option::Some(freqs[0].freq)
    } else {
        freq_of(freqs.drop_first(), word)
    }
}

/// The frequency table with `word` set to `value`: updated in place when
/// present, appended otherwise.
pub open spec fn upsert_freq(freqs: Seq<FreqModel>, word: Seq<char>, value: int) -> Seq<FreqModel>
    decreases freqs.len(),
{
    if freqs.len() == 0 {
        seq![FreqModel { word, freq: value }]
    } else if freqs[0].word == word {
        seq![FreqModel { word, freq: value }] + freqs.drop_first()
    } else {
        seq![freqs[0]] + upsert_freq(freqs.drop_first(), word, value)
    }
}

/// Halving that truncates toward zero, as 64-bit signed division computes
/// it.
pub open spec fn trunc_half(s: int) -> int {
    if s >= 0 {
        s / 2
    } else {
        -((-s) / 2)
    }
}

/// The value one merge step stores: under the running-average policy, the
/// truncating mean of the old and the new value when an old one exists;
/// otherwise the new value replaces or creates the row.
pub open spec fn merged_freq(old_freq: Option<int>, new_freq: int, avg: bool) -> int {
    match old_freq {
        Option::Some(of) => if avg {
            trunc_half(of + new_freq)
        } else {
            new_freq
        },
        Option::None => new_freq,
    }
}

/// One frequency merge step on the table.
pub open spec fn merge_step(
    freqs: Seq<FreqModel>,
    word: Seq<char>,
    value: int,
    avg: bool,
) -> Seq<FreqModel> {
    upsert_freq(freqs, word, merged_freq(freq_of(freqs, word), value, avg))
}

/// A whole batch of merge steps, one per meta-bank record in order. `rank`
/// is the record's ordinal position across the batch, starting at one; with
/// `corpus` set it replaces the record's own frequency value.
pub open spec fn merge_batch(
    freqs: Seq<FreqModel>,
    entries: Seq<FreqEntryModel>,
    avg: bool,
    corpus: bool,
    rank: int,
) -> Seq<FreqModel>
    decreases entries.len(),
{
    if entries.len() == 0 {
        freqs
    } else {
        let v = if corpus {
            rank
        } else {
            entries[0].frequency
        };
        merge_batch(
            merge_step(freqs, entries[0].expression, v, avg),
            entries.drop_first(),
            avg,
            corpus,
            rank + 1,
        )
    }
}

pub proof fn lemma_merge_batch_append(
    freqs: Seq<FreqModel>,
    a: Seq<FreqEntryModel>,
    b: Seq<FreqEntryModel>,
    avg: bool,
    corpus: bool,
    rank: int,
)
    ensures
        merge_batch(freqs, a + b, avg, corpus, rank) == merge_batch(
            merge_batch(freqs, a, avg, corpus, rank),
            b,
            avg,
            corpus,
            rank + a.len(),
        ),
    decreases a.len(),
{
    if a.len() == 0 {
        assert(a + b =~= b);
    } else {
        assert((a + b).drop_first() =~= a.drop_first() + b);
        assert((a + b)[0] == a[0]);
        let v = if corpus {
            rank
        } else {
            a[0].frequency
        };
        lemma_merge_batch_append(
            merge_step(freqs, a[0].expression, v, avg),
            a.drop_first(),
            b,
            avg,
            corpus,
            rank + 1,
        );
    }
}

pub proof fn lemma_merge_batch_singleton(
    freqs: Seq<FreqModel>,
    e: FreqEntryModel,
    avg: bool,
    corpus: bool,
    rank: int,
)
    ensures
        merge_batch(freqs, seq![e], avg, corpus, rank) == merge_step(
            freqs,
            e.expression,
            if corpus {
                rank
            } else {
                e.frequency
            },
            avg,
        ),
{
    assert(seq![e].drop_first() =~= Seq::<FreqEntryModel>::empty());
    let stepped = merge_step(
        freqs,
        e.expression,
        if corpus {
            rank
        } else {
            e.frequency
        },
        avg,
    );
    assert(merge_batch(stepped, Seq::<FreqEntryModel>::empty(), avg, corpus, rank + 1) == stepped);
}

/// Looking a word up in the table finds the row the uniqueness invariant
/// makes unique.
pub proof fn lemma_freq_of_at_index(freqs: Seq<FreqModel>, word: Seq<char>, i: int)
    requires
        0 <= i < freqs.len(),
        freqs[i].word == word,
        forall|j: int| 0 <= j < i ==> (#[trigger] freqs[j]).word != word,
    ensures
        freq_of(freqs, word) == Option::Some(freqs[i].freq),
    decreases i,
{
    if i > 0 {
        assert(freqs.drop_first()[i - 1] == freqs[i]);
        assert forall|j: int| 0 <= j < i - 1 implies (#[trigger] freqs.drop_first()[j]).word
            != word by {
            assert(freqs.drop_first()[j] == freqs[j + 1]);
        }
        lemma_freq_of_at_index(freqs.drop_first(), word, i - 1);
    }
}

pub proof fn lemma_freq_of_absent(freqs: Seq<FreqModel>, word: Seq<char>)
    requires
        forall|j: int| 0 <= j < freqs.len() ==> (#[trigger] freqs[j]).word != word,
    ensures
        freq_of(freqs, word) == Option::<int>::None,
    decreases freqs.len(),
{
    if freqs.len() > 0 {
        assert forall|j: int|
            0 <= j < freqs.drop_first().len() implies (#[trigger] freqs.drop_first()[j]).word
            != word by {
            assert(freqs.drop_first()[j] == freqs[j + 1]);
        }
        lemma_freq_of_absent(freqs.drop_first(), word);
    }
}

/// Upserting a present word updates its row in place.
pub proof fn lemma_upsert_at_index(freqs: Seq<FreqModel>, word: Seq<char>, v: int, i: int)
    requires
        0 <= i < freqs.len(),
        freqs[i].word == word,
        forall|j: int| 0 <= j < i ==> (#[trigger] freqs[j]).word != word,
    ensures
        upsert_freq(freqs, word, v) == freqs.update(i, FreqModel { word, freq: v }),
    decreases i,
{
    if i == 0 {
        assert(upsert_freq(freqs, word, v) =~= freqs.update(0, FreqModel { word, freq: v }));
    } else {
        assert(freqs.drop_first()[i - 1] == freqs[i]);
        assert forall|j: int| 0 <= j < i - 1 implies (#[trigger] freqs.drop_first()[j]).word
            != word by {
            assert(freqs.drop_first()[j] == freqs[j + 1]);
        }
        lemma_upsert_at_index(freqs.drop_first(), word, v, i - 1);
        assert(upsert_freq(freqs, word, v) =~= freqs.update(i, FreqModel { word, freq: v }));
    }
}

/// Upserting an absent word appends its row.
pub proof fn lemma_upsert_absent(freqs: Seq<FreqModel>, word: Seq<char>, v: int)
    requires
        forall|j: int| 0 <= j < freqs.len() ==> (#[trigger] freqs[j]).word != word,
    ensures
        upsert_freq(freqs, word, v) == freqs.push(FreqModel { word, freq: v }),
    decreases freqs.len(),
{
    if freqs.len() == 0 {
        assert(upsert_freq(freqs, word, v) =~= freqs.push(FreqModel { word, freq: v }));
    } else {
        assert forall|j: int|
            0 <= j < freqs.drop_first().len() implies (#[trigger] freqs.drop_first()[j]).word
            != word by {
            assert(freqs.drop_first()[j] == freqs[j + 1]);
        }
        lemma_upsert_absent(freqs.drop_first(), word, v);
        assert(upsert_freq(freqs, word, v) =~= freqs.push(FreqModel { word, freq: v }));
    }
}

/// Truncating halving of a sum of two 64-bit values stays in 64-bit range.
pub proof fn lemma_trunc_half_bounds(a: int, b: int)
    requires
        i64::MIN <= a <= i64::MAX,
        i64::MIN <= b <= i64::MAX,
    ensures
        i64::MIN <= trunc_half(a + b) <= i64::MAX,
{
    let s = a + b;
    if s >= 0 {
        vstd::arithmetic::div_mod::lemma_div_pos_is_pos(s, 2);
        vstd::arithmetic::div_mod::lemma_div_is_ordered(s, 2 * (i64::MAX as int), 2);
        vstd::arithmetic::div_mod::lemma_div_multiples_vanish(i64::MAX as int, 2);
    } else {
        let t = -s;
        vstd::arithmetic::div_mod::lemma_div_pos_is_pos(t, 2);
        vstd::arithmetic::div_mod::lemma_div_is_ordered(t, 2 * (-(i64::MIN as int)), 2);
        vstd::arithmetic::div_mod::lemma_div_multiples_vanish(-(i64::MIN as int), 2);
    }
}

/// The transaction one frequency import performs. If any meta bank failed
/// to parse, or the batch is too large for the rank counter, nothing
/// changes and the import reports the error; otherwise every record is
/// merged into the frequency table in order.
pub open spec fn import_frequency_spec(
    m: StoreModel,
    banks: Seq<Option<Seq<FreqEntryModel>>>,
    avg: bool,
    corpus: bool,
) -> (StoreModel, Result<(), DictError>) {
    if !banks_parsed(banks) {
        (m, Result::Err(DictError::DataFormat))
    } else if flatten_banks(banks).len() < i64::MAX {
        (
            StoreModel {
                dicts: m.dicts,
                entries: m.entries,
                freqs: merge_batch(m.freqs, flatten_banks(banks), avg, corpus, 1),
                next_dict_id: m.next_dict_id,
                next_entry_id: m.next_entry_id,
            },
            Result::Ok(()),
        )
    } else {
        (m, Result::Err(DictError::Storage))
    }
}

/// The transaction one dictionary import performs. If the title is already
/// present, nothing changes and the import reports success (idempotence).
/// If any term bank failed to parse, or the id space is exhausted, nothing
/// changes and the import reports the error (atomicity). Otherwise one
/// dictionary row is created, initially with priority zero, not a fallback,
/// and disabled, and every record's meanings become entry rows.
pub open spec fn import_spec(
    m: StoreModel,
    banks: Seq<Option<Seq<RecordModel>>>,
    title: Seq<char>,
) -> (StoreModel, Result<(), DictError>) {
    if has_title(m, title) {
        (m, Result::Ok(()))
    } else if !banks_parsed(banks) {
        (m, Result::Err(DictError::DataFormat))
    } else if m.next_dict_id < i64::MAX && m.next_entry_id + total_meanings(flatten_banks(banks))
        <= i64::MAX {
        (
            StoreModel {
                dicts: m.dicts.push(
                    DictModel {
                        id: m.next_dict_id,
                        title,
                        priority: 0,
                        fallback: false,
                        enabled: false,
                    },
                ),
                entries: m.entries + expand_records(
                    flatten_banks(banks),
                    m.next_dict_id,
                    m.next_entry_id,
                ),
                freqs: m.freqs,
                next_dict_id: m.next_dict_id + 1,
                next_entry_id: m.next_entry_id + total_meanings(flatten_banks(banks)),
            },
            Result::Ok(()),
        )
    } else {
        (m, Result::Err(DictError::Storage))
    }
}

/// The views of a sequence of entry rows.
pub open spec fn entry_views(s: Seq<DbDictEntry>) -> Seq<EntryModel> {
    s.map_values(|e: DbDictEntry| e@)
}

/// A phonetic-script character: hiragana, katakana, or halfwidth katakana.
pub open spec fn is_kana_char(c: char) -> bool {
    (0x3040 <= c as u32 && c as u32 <= 0x30FF) || (0xFF66 <= c as u32 && c as u32 <= 0xFF9F)
}

/// The word consists entirely of phonetic-script characters.
pub open spec fn spec_all_kana(s: Seq<char>) -> bool {
    forall|i: int| 0 <= i < s.len() ==> is_kana_char(#[trigger] s[i])
}

/// Whether a word is written in phonetic script only.
pub fn all_kana(word: &str) -> (r: bool)
    ensures
        r == spec_all_kana(word@),
{
    let n = word.unicode_len();
    for i in 0..n
        invariant
            n == word@.len(),
            forall|j: int| 0 <= j < i ==> is_kana_char(#[trigger] word@[j]),
    {
        let u = word.get_char(i) as u32;
        if !((0x3040 <= u && u <= 0x30FF) || (0xFF66 <= u && u <= 0xFF9F)) {
            return false;
        }
    }
    true
}

/// The first dictionary row carrying `id`; under the store invariant it is
/// the only one.
pub open spec fn find_dict(dicts: Seq<DictModel>, id: int) -> Option<DictModel>
    decreases dicts.len(),
{
    if dicts.len() == 0 {
        Option::None
    } else if dicts[0].id == id {
        Option::Some(dicts[0])
    } else {
        find_dict(dicts.drop_first(), id)
    }
}

pub proof fn lemma_find_dict_at_index(dicts: Seq<DictModel>, id: int, i: int)
    requires
        0 <= i < dicts.len(),
        dicts[i].id == id,
        forall|j: int| 0 <= j < i ==> (#[trigger] dicts[j]).id != id,
    ensures
        find_dict(dicts, id) == Option::Some(dicts[i]),
    decreases i,
{
    if i > 0 {
        assert(dicts.drop_first()[i - 1] == dicts[i]);
        assert forall|j: int| 0 <= j < i - 1 implies (#[trigger] dicts.drop_first()[j]).id != id by {
            assert(dicts.drop_first()[j] == dicts[j + 1]);
        }
        lemma_find_dict_at_index(dicts.drop_first(), id, i - 1);
    }
}

pub proof fn lemma_find_dict_absent(dicts: Seq<DictModel>, id: int)
    requires
        forall|j: int| 0 <= j < dicts.len() ==> (#[trigger] dicts[j]).id != id,
    ensures
        find_dict(dicts, id) == Option::<DictModel>::None,
    decreases dicts.len(),
{
    if dicts.len() > 0 {
        assert forall|j: int|
            0 <= j < dicts.drop_first().len() implies (#[trigger] dicts.drop_first()[j]).id
            != id by {
            assert(dicts.drop_first()[j] == dicts[j + 1]);
        }
        lemma_find_dict_absent(dicts.drop_first(), id);
    }
}

/// The priority of the dictionary carrying `id`; zero when no such
/// dictionary exists (the store invariant rules that out for stored
/// entries).
pub open spec fn dict_priority(m: StoreModel, id: int) -> int {
    match find_dict(m.dicts, id) {
        Option::Some(d) => d.priority,
        Option::None => 0,
    }
}

/// An entry answers a word lookup in one tier: its dictionary is enabled
/// and in that tier, and the queried column equals the word.
pub open spec fn entry_matches(
    m: StoreModel,
    e: EntryModel,
    word: Seq<char>,
    fallback: bool,
    use_reading: bool,
) -> bool {
    match find_dict(m.dicts, e.dict_id) {
        Option::Some(d) => d.enabled && d.fallback == fallback && (if use_reading {
            e.reading == word
        } else {
            e.expression == word
        }),
        Option::None => false,
    }
}

/// The entries answering a word lookup in one tier, in store order.
pub open spec fn tier_matches(
    m: StoreModel,
    word: Seq<char>,
    fallback: bool,
    use_reading: bool,
) -> Seq<EntryModel> {
    m.entries.filter(|e: EntryModel| entry_matches(m, e, word, fallback, use_reading))
}

/// Frequency order: known values ascending, entries without a frequency
/// last.
pub open spec fn freq_le(a: Option<int>, b: Option<int>) -> bool {
    match a {
        Option::Some(x) => match b {
            Option::Some(y) => x <= y,
            Option::None => true,
        },
        Option::None => b is None,
    }
}

/// The lookup result order: dictionary priority descending, then, when
/// sorting by frequency, the frequency of the entry's expression ascending
/// with unknown frequencies last. A total preorder.
pub open spec fn entry_le(m: StoreModel, sort_freq: bool, a: EntryModel, b: EntryModel) -> bool {
    let pa = dict_priority(m, a.dict_id);
    let pb = dict_priority(m, b.dict_id);
    ||| pa > pb
    ||| (pa == pb && (!sort_freq || freq_le(
        freq_of(m.freqs, a.expression),
        freq_of(m.freqs, b.expression),
    )))
}

/// `x` inserted behind every element ordered no later than it; equal keys
/// keep their earlier elements first, which makes sorting stable.
pub open spec fn insert_sorted(
    m: StoreModel,
    sort_freq: bool,
    s: Seq<EntryModel>,
    x: EntryModel,
) -> Seq<EntryModel>
    decreases s.len(),
{
    if s.len() == 0 {
        seq![x]
    } else if entry_le(m, sort_freq, s[0], x) {
        seq![s[0]] + insert_sorted(m, sort_freq, s.drop_first(), x)
    } else {
        seq![x] + s
    }
}

/// Stable insertion sort under [`entry_le`], as a function: the unique
/// stable ordering of `s`.
pub open spec fn sort_entries(m: StoreModel, sort_freq: bool, s: Seq<EntryModel>) -> Seq<EntryModel>
    decreases s.len(),
{
    if s.len() == 0 {
        Seq::empty()
    } else {
        insert_sorted(m, sort_freq, sort_entries(m, sort_freq, s.drop_last()), s.last())
    }
}

/// What one tier of a word lookup returns: the matching entries, stably
/// sorted by [`entry_le`].
pub open spec fn tier_results(
    m: StoreModel,
    word: Seq<char>,
    fallback: bool,
    sort_freq: bool,
    use_reading: bool,
) -> Seq<EntryModel> {
    sort_entries(m, sort_freq, tier_matches(m, word, fallback, use_reading))
}

/// What a whole word lookup returns: the primary tier, or, only when the
/// primary tier is empty, the fallback tier.
pub open spec fn lookup_word_spec(
    m: StoreModel,
    word: Seq<char>,
    sort_freq: bool,
    is_japanese: bool,
) -> Seq<EntryModel> {
    let use_reading = is_japanese && spec_all_kana(word);
    let prim = tier_results(m, word, false, sort_freq, use_reading);
    if prim.len() > 0 {
        prim
    } else {
        tier_results(m, word, true, sort_freq, use_reading)
    }
}

/// Inserting at the first position whose element is ordered after `x`
/// realizes [`insert_sorted`].
pub proof fn lemma_insert_sorted_at(
    m: StoreModel,
    sort_freq: bool,
    s: Seq<EntryModel>,
    x: EntryModel,
    j: int,
)
    requires
        0 <= j <= s.len(),
        forall|k: int| 0 <= k < j ==> entry_le(m, sort_freq, #[trigger] s[k], x),
        j < s.len() ==> !entry_le(m, sort_freq, s[j], x),
    ensures
        insert_sorted(m, sort_freq, s, x) == s.take(j) + seq![x] + s.skip(j),
    decreases j,
{
    if j == 0 {
        assert(insert_sorted(m, sort_freq, s, x) =~= s.take(0) + seq![x] + s.skip(0));
    } else {
        assert(entry_le(m, sort_freq, s[0], x));
        assert forall|k: int|
            0 <= k < j - 1 implies entry_le(m, sort_freq, #[trigger] s.drop_first()[k], x) by {
            assert(s.drop_first()[k] == s[k + 1]);
        }
        assert(j - 1 < s.drop_first().len() ==> s.drop_first()[j - 1] == s[j]);
        lemma_insert_sorted_at(m, sort_freq, s.drop_first(), x, j - 1);
        assert(insert_sorted(m, sort_freq, s, x) =~= s.take(j) + seq![x] + s.skip(j));
    }
}

/// Insertion grows the length by one and keeps any pointwise property.
pub proof fn lemma_insert_sorted_all(
    m: StoreModel,
    sort_freq: bool,
    s: Seq<EntryModel>,
    x: EntryModel,
    pred: spec_fn(EntryModel) -> bool,
)
    requires
        forall|k: int| 0 <= k < s.len() ==> pred(#[trigger] s[k]),
        pred(x),
    ensures
        insert_sorted(m, sort_freq, s, x).len() == s.len() + 1,
        forall|k: int|
            0 <= k < s.len() + 1 ==> pred(#[trigger] insert_sorted(m, sort_freq, s, x)[k]),
    decreases s.len(),
{
    if s.len() > 0 && entry_le(m, sort_freq, s[0], x) {
        assert forall|k: int|
            0 <= k < s.drop_first().len() implies pred(#[trigger] s.drop_first()[k]) by {
            assert(s.drop_first()[k] == s[k + 1]);
        }
        lemma_insert_sorted_all(m, sort_freq, s.drop_first(), x, pred);
    }
}

/// Sorting keeps the length and any pointwise property.
pub proof fn lemma_sort_entries_all(
    m: StoreModel,
    sort_freq: bool,
    s: Seq<EntryModel>,
    pred: spec_fn(EntryModel) -> bool,
)
    requires
        forall|k: int| 0 <= k < s.len() ==> pred(#[trigger] s[k]),
    ensures
        sort_entries(m, sort_freq, s).len() == s.len(),
        forall|k: int| 0 <= k < s.len() ==> pred(#[trigger] sort_entries(m, sort_freq, s)[k]),
    decreases s.len(),
{
    if s.len() > 0 {
        assert forall|k: int|
            0 <= k < s.drop_last().len() implies pred(#[trigger] s.drop_last()[k]) by {
            assert(s.drop_last()[k] == s[k]);
        }
        lemma_sort_entries_all(m, sort_freq, s.drop_last(), pred);
        lemma_insert_sorted_all(m, sort_freq, sort_entries(m, sort_freq, s.drop_last()), s.last(), pred);
    }
}

/// The entries `s` are in lookup order: none is strictly ordered after a
/// later one.
pub open spec fn entries_ordered(m: StoreModel, sort_freq: bool, s: Seq<EntryModel>) -> bool {
    forall|a: int, b: int|
        #![trigger s[a], s[b]]
        0 <= a < b < s.len() ==> entry_le(m, sort_freq, s[a], s[b])
}

/// The lookup order is total: of any two entries, one comes no later than
/// the other.
pub proof fn lemma_entry_le_total(m: StoreModel, sort_freq: bool, a: EntryModel, b: EntryModel)
    ensures
        entry_le(m, sort_freq, a, b) || entry_le(m, sort_freq, b, a),
{
}

/// Inserting into an ordered sequence keeps it ordered.
pub proof fn lemma_insert_sorted_sorted(
    m: StoreModel,
    sort_freq: bool,
    s: Seq<EntryModel>,
    x: EntryModel,
)
    requires
        entries_ordered(m, sort_freq, s),
    ensures
        entries_ordered(m, sort_freq, insert_sorted(m, sort_freq, s, x)),
    decreases s.len(),
{
    let out = insert_sorted(m, sort_freq, s, x);
    if s.len() == 0 {
    } else if entry_le(m, sort_freq, s[0], x) {
        assert forall|a: int, b: int|
            #![trigger s.drop_first()[a], s.drop_first()[b]]
            0 <= a < b < s.drop_first().len() implies entry_le(
            m,
            sort_freq,
            s.drop_first()[a],
            s.drop_first()[b],
        ) by {
            assert(s.drop_first()[a] == s[a + 1]);
            assert(s.drop_first()[b] == s[b + 1]);
        }
        lemma_insert_sorted_sorted(m, sort_freq, s.drop_first(), x);
        // the head is ordered no later than everything inserted behind it
        let pred = |y: EntryModel| entry_le(m, sort_freq, s[0], y);
        assert forall|k: int|
            0 <= k < s.drop_first().len() implies pred(#[trigger] s.drop_first()[k]) by {
            assert(s.drop_first()[k] == s[k + 1]);
        }
        lemma_insert_sorted_all(m, sort_freq, s.drop_first(), x, pred);
        let tail = insert_sorted(m, sort_freq, s.drop_first(), x);
        assert forall|a: int, b: int|
            #![trigger out[a], out[b]]
            0 <= a < b < out.len() implies entry_le(m, sort_freq, out[a], out[b]) by {
            if a == 0 {
                assert(out[b] == tail[b - 1]);
                assert(pred(tail[b - 1]));
            } else {
                assert(out[a] == tail[a - 1]);
                assert(out[b] == tail[b - 1]);
            }
        }
    } else {
        lemma_entry_le_total(m, sort_freq, s[0], x);
        assert forall|a: int, b: int|
            #![trigger out[a], out[b]]
            0 <= a < b < out.len() implies entry_le(m, sort_freq, out[a], out[b]) by {
            if a == 0 {
                // x comes no later than the old head, and through it, by
                // the order's transitivity, no later than every element
                assert(entry_le(m, sort_freq, x, s[0]));
                assert(out[b] == s[b - 1]);
                if b > 1 {
                    assert(entry_le(m, sort_freq, s[0], s[b - 1]));
                }
            } else {
                assert(out[a] == s[a - 1]);
                assert(out[b] == s[b - 1]);
            }
        }
    }
}

/// What a lookup tier returns is in lookup order: dictionary priority
/// descending, then, when sorting by frequency, frequency ascending with
/// unknown frequencies last.
pub proof fn lemma_tier_results_ordered(
    m: StoreModel,
    word: Seq<char>,
    fallback: bool,
    sort_freq: bool,
    use_reading: bool,
)
    ensures
        entries_ordered(m, sort_freq, tier_results(m, word, fallback, sort_freq, use_reading)),
{
    lemma_sort_entries_sorted(m, sort_freq, tier_matches(m, word, fallback, use_reading));
}

/// Sorting leaves the sequence in lookup order.
pub proof fn lemma_sort_entries_sorted(m: StoreModel, sort_freq: bool, s: Seq<EntryModel>)
    ensures
        entries_ordered(m, sort_freq, sort_entries(m, sort_freq, s)),
    decreases s.len(),
{
    if s.len() > 0 {
        lemma_sort_entries_sorted(m, sort_freq, s.drop_last());
        lemma_insert_sorted_sorted(m, sort_freq, sort_entries(m, sort_freq, s.drop_last()), s.last());
    }
}

/// A lookup never mixes tiers: every entry a word lookup returns matches
/// in the one tier the lookup settled on — the primary tier when it has
/// any match, the fallback tier otherwise.
pub proof fn lemma_lookup_word_single_tier(
    m: StoreModel,
    word: Seq<char>,
    sort_freq: bool,
    is_japanese: bool,
)
    ensures
        ({
            let use_reading = is_japanese && spec_all_kana(word);
            let res = lookup_word_spec(m, word, sort_freq, is_japanese);
            let tier = !(tier_matches(m, word, false, use_reading).len() > 0);
            forall|k: int|
                0 <= k < res.len() ==> entry_matches(m, #[trigger] res[k], word, tier, use_reading)
        }),
{
    let use_reading = is_japanese && spec_all_kana(word);
    let pred_p = |e: EntryModel| entry_matches(m, e, word, false, use_reading);
    let pred_f = |e: EntryModel| entry_matches(m, e, word, true, use_reading);
    let mp = tier_matches(m, word, false, use_reading);
    let mf = tier_matches(m, word, true, use_reading);
    assert forall|k: int| 0 <= k < mp.len() implies pred_p(#[trigger] mp[k]) by {
        m.entries.lemma_filter_pred(pred_p, k);
    }
    assert forall|k: int| 0 <= k < mf.len() implies pred_f(#[trigger] mf[k]) by {
        m.entries.lemma_filter_pred(pred_f, k);
    }
    lemma_sort_entries_all(m, sort_freq, mp, pred_p);
    lemma_sort_entries_all(m, sort_freq, mf, pred_f);
}

/// Importing the same term banks under the same title twice leaves the
/// store exactly as one import leaves it: the second import is a no-op.
pub proof fn lemma_import_idempotent(
    m: StoreModel,
    banks: Seq<Option<Seq<RecordModel>>>,
    title: Seq<char>,
)
    ensures
        import_spec(import_spec(m, banks, title).0, banks, title).0 == import_spec(
            m,
            banks,
            title,
        ).0,
{
    let m1 = import_spec(m, banks, title).0;
    if !has_title(m, title) && banks_parsed(banks) && m.next_dict_id < i64::MAX
        && m.next_entry_id + total_meanings(flatten_banks(banks)) <= i64::MAX {
        assert(m1.dicts[m.dicts.len() as int].title == title);
        assert(has_title(m1, title));
    }
}

/// The dictionary store.
pub struct DictDb {
    dicts: Vec<DbDictionary>,
    entries: Vec<DbDictEntry>,
    freqs: Vec<FreqRecord>,
    next_dict_id: i64,
    next_entry_id: i64,
}

impl View for DictDb {
    type V = StoreModel;

    closed spec fn view(&self) -> StoreModel {
        StoreModel {
            dicts: self.dicts@.map_values(|d: DbDictionary| d@),
            entries: self.entries@.map_values(|e: DbDictEntry| e@),
            freqs: self.freqs@.map_values(|f: FreqRecord| f@),
            next_dict_id: self.next_dict_id as int,
            next_entry_id: self.next_entry_id as int,
        }
    }
}

impl DictDb {
    /// Whether the store is well formed. Every public operation preserves
    /// this.
    pub open spec fn wf(&self) -> bool {
        store_inv(self@)
    }

    /// An empty store.
    pub fn new() -> (db: DictDb)
        ensures
            db.wf(),
            db@ == empty_store(),
    {
        let db = DictDb {
            dicts: Vec::new(),
            entries: Vec::new(),
            freqs: Vec::new(),
            next_dict_id: 1,
            next_entry_id: 1,
        };
        proof {
            assert(db@.dicts =~= empty_store().dicts);
            assert(db@.entries =~= empty_store().entries);
            assert(db@.freqs =~= empty_store().freqs);
            assert(db@ == empty_store());
        }
        db
    }

    /// Imports one dictionary: its parsed term banks under `title`. The
    /// whole import is one transaction — see [`import_spec`] for the exact
    /// contract, including idempotence on an already-present title and
    /// atomicity when a bank failed to parse.
    pub fn load_yomichan_dict(
        &mut self,
        banks: &Vec<Option<Vec<YomichanEntryV1>>>,
        title: &str,
    ) -> (r: Result<(), DictError>)
        requires
            old(self).wf(),
        ensures
            final(self).wf(),
            final(self)@ == import_spec(old(self)@, banks_view(banks@), title@).0,
            r == import_spec(old(self)@, banks_view(banks@), title@).1,
    {
        let ghost m0 = self@;
        let ghost bv = banks_view(banks@);
        if self.find_dict_index(title).is_some() {
            return Ok(());
        }
        for b in 0..banks.len()
            invariant
                self == old(self),
                old(self).wf(),
                !has_title(old(self)@, title@),
                bv == banks_view(banks@),
                forall|j: int| 0 <= j < b ==> (#[trigger] bv[j]) is Some,
        {
            if banks[b].is_none() {
                proof {
                    assert(bv.len() == banks@.len());
                    assert(bv[b as int] is None);
                    assert(!banks_parsed(bv));
                }
                return Err(DictError::DataFormat);
            }
        }
        proof {
            assert(banks_parsed(bv));
        }
        if self.next_dict_id == i64::MAX {
            return Err(DictError::Storage);
        }
        let dict_id = self.next_dict_id;
        let ghost d = dict_id as int;
        let ghost f0 = self.next_entry_id as int;
        let mut staged: Vec<DbDictEntry> = Vec::new();
        let mut next_id: i64 = self.next_entry_id;
        let nbanks = banks.len();
        for b in 0..nbanks
            invariant
                self == old(self),
                old(self).wf(),
                !has_title(old(self)@, title@),
                dict_id < i64::MAX,
                dict_id as int == self@.next_dict_id,
                nbanks == banks@.len(),
                bv == banks_view(banks@),
                banks_parsed(bv),
                d == dict_id as int,
                f0 == self@.next_entry_id,
                staged@.map_values(|e: DbDictEntry| e@) == expand_records(
                    flatten_banks(bv.take(b as int)),
                    d,
                    f0,
                ),
                next_id as int == f0 + total_meanings(flatten_banks(bv.take(b as int))),
        {
            proof {
                assert(bv[b as int] is Some);
                assert(banks@[b as int] is Some);
            }
            let bank = banks[b].as_ref().unwrap();
            let ghost brecs = recs_of(bank@);
            let ghost fb = f0 + total_meanings(flatten_banks(bv.take(b as int)));
            let nrec = bank.len();
            for ri in 0..nrec
                invariant
                    self == old(self),
                    old(self).wf(),
                    !has_title(old(self)@, title@),
                    dict_id < i64::MAX,
                    dict_id as int == self@.next_dict_id,
                    nbanks == banks@.len(),
                    b < nbanks,
                    bv == banks_view(banks@),
                    banks_parsed(bv),
                    d == dict_id as int,
                    f0 == self@.next_entry_id,
                    bv[b as int] == Option::Some(recs_of(bank@)),
                    brecs == recs_of(bank@),
                    nrec == bank@.len(),
                    fb == f0 + total_meanings(flatten_banks(bv.take(b as int))),
                    staged@.map_values(|e: DbDictEntry| e@) == expand_records(
                        flatten_banks(bv.take(b as int)),
                        d,
                        f0,
                    ) + expand_records(brecs.take(ri as int), d, fb),
                    next_id as int == fb + total_meanings(brecs.take(ri as int)),
            {
                let rec = &bank[ri];
                let ghost fr = fb + total_meanings(brecs.take(ri as int));
                let nm = rec.meanings.len();
                for mi in 0..nm
                    invariant
                        self == old(self),
                        old(self).wf(),
                        !has_title(old(self)@, title@),
                        dict_id < i64::MAX,
                        dict_id as int == self@.next_dict_id,
                        nbanks == banks@.len(),
                        b < nbanks,
                        ri < nrec,
                        bv == banks_view(banks@),
                        banks_parsed(bv),
                        d == dict_id as int,
                        f0 == self@.next_entry_id,
                        bv[b as int] == Option::Some(recs_of(bank@)),
                        brecs == recs_of(bank@),
                        nrec == bank@.len(),
                        rec == &bank@[ri as int],
                        nm == rec@.meanings.len(),
                        fb == f0 + total_meanings(flatten_banks(bv.take(b as int))),
                        fr == fb + total_meanings(brecs.take(ri as int)),
                        staged@.map_values(|e: DbDictEntry| e@) == expand_records(
                            flatten_banks(bv.take(b as int)),
                            d,
                            f0,
                        ) + expand_records(brecs.take(ri as int), d, fb) + expand_record(
                            rec@,
                            d,
                            fr,
                        ).take(mi as int),
                        next_id as int == fr + mi,
                {
                    if next_id == i64::MAX {
                        // the entry id counter would be exhausted: the whole
                        // import does not fit, so nothing is written
                        proof {
                            let flat = flatten_banks(bv);
                            assert(bv =~= bv.take(b as int) + seq![bv[b as int]] + bv.skip(
                                b + 1,
                            ));
                            lemma_flatten_banks_append(
                                bv.take(b as int) + seq![bv[b as int]],
                                bv.skip(b + 1),
                            );
                            lemma_flatten_banks_append(bv.take(b as int), seq![bv[b as int]]);
                            lemma_flatten_banks_singleton(bv[b as int]);
                            assert(flatten_banks(seq![bv[b as int]]) =~= brecs);
                            lemma_total_meanings_append(
                                flatten_banks(bv.take(b as int) + seq![bv[b as int]]),
                                flatten_banks(bv.skip(b + 1)),
                            );
                            lemma_total_meanings_append(flatten_banks(bv.take(b as int)), brecs);
                            lemma_total_meanings_nonneg(flatten_banks(bv.skip(b + 1)));
                            assert(brecs =~= brecs.take(ri as int) + seq![brecs[ri as int]]
                                + brecs.skip(ri + 1));
                            lemma_total_meanings_append(
                                brecs.take(ri as int) + seq![brecs[ri as int]],
                                brecs.skip(ri + 1),
                            );
                            lemma_total_meanings_append(
                                brecs.take(ri as int),
                                seq![brecs[ri as int]],
                            );
                            lemma_total_meanings_nonneg(brecs.skip(ri + 1));
                            lemma_total_meanings_singleton(brecs[ri as int]);
                            assert(total_meanings(seq![brecs[ri as int]]) == rec@.meanings.len());
                            assert(f0 + total_meanings(flat) > i64::MAX);
                        }
                        return Err(DictError::Storage);
                    }
                    let ghost staged0 = staged@;
                    staged.push(
                        DbDictEntry {
                            id: next_id,
                            expression: rec.expression.clone(),
                            reading: rec.reading.clone(),
                            meaning: rec.meanings[mi].clone(),
                            dict_id,
                        },
                    );
                    next_id = next_id + 1;
                    proof {
                        let em = expand_record(rec@, d, fr)[mi as int];
                        assert(staged@.last()@ == em);
                        let lhs = staged@.map_values(|e: DbDictEntry| e@);
                        let rhs = expand_records(flatten_banks(bv.take(b as int)), d, f0)
                            + expand_records(brecs.take(ri as int), d, fb) + expand_record(
                            rec@,
                            d,
                            fr,
                        ).take(mi + 1);
                        let prev = expand_records(flatten_banks(bv.take(b as int)), d, f0)
                            + expand_records(brecs.take(ri as int), d, fb) + expand_record(
                            rec@,
                            d,
                            fr,
                        ).take(mi as int);
                        assert(staged0.map_values(|e: DbDictEntry| e@) == prev);
                        assert(prev.len() == staged0.len());
                        assert(staged@ == staged0.push(staged@.last()));
                        assert forall|j: int| 0 <= j < lhs.len() implies lhs[j] == rhs[j] by {
                            assert(lhs[j] == staged@[j]@);
                            if j < staged0.len() {
                                assert(staged@[j] == staged0[j]);
                                assert(staged0.map_values(|e: DbDictEntry| e@)[j] == staged0[j]@);
                                assert(prev[j] == rhs[j]);
                            } else {
                                assert(staged@[j] == staged@.last());
                                assert(rhs[j] == expand_record(rec@, d, fr).take(mi + 1)[mi as int]);
                                assert(rhs[j] == em);
                            }
                        }
                        assert(lhs =~= rhs);
                    }
                }
                proof {
                    assert(expand_record(rec@, d, fr).take(nm as int) =~= expand_record(
                        rec@,
                        d,
                        fr,
                    ));
                    assert(brecs.take(ri + 1) =~= brecs.take(ri as int) + seq![brecs[ri as int]]);
                    lemma_expand_records_append(
                        brecs.take(ri as int),
                        seq![brecs[ri as int]],
                        d,
                        fb,
                    );
                    lemma_total_meanings_append(brecs.take(ri as int), seq![brecs[ri as int]]);
                    lemma_expand_records_singleton(brecs[ri as int], d, fr);
                    lemma_total_meanings_singleton(brecs[ri as int]);
                    assert(expand_records(seq![brecs[ri as int]], d, fr) =~= expand_record(
                        rec@,
                        d,
                        fr,
                    ));
                    assert(total_meanings(seq![brecs[ri as int]]) == rec@.meanings.len());
                    assert(staged@.map_values(|e: DbDictEntry| e@) =~= expand_records(
                        flatten_banks(bv.take(b as int)),
                        d,
                        f0,
                    ) + expand_records(brecs.take(ri + 1), d, fb));
                }
            }
            proof {
                assert(brecs.take(nrec as int) =~= brecs);
                assert(bv.take(b + 1) =~= bv.take(b as int) + seq![bv[b as int]]);
                lemma_flatten_banks_append(bv.take(b as int), seq![bv[b as int]]);
                lemma_flatten_banks_singleton(bv[b as int]);
                assert(flatten_banks(seq![bv[b as int]]) =~= brecs);
                lemma_expand_records_append(flatten_banks(bv.take(b as int)), brecs, d, f0);
                lemma_total_meanings_append(flatten_banks(bv.take(b as int)), brecs);
                assert(staged@.map_values(|e: DbDictEntry| e@) =~= expand_records(
                    flatten_banks(bv.take(b + 1)),
                    d,
                    f0,
                ));
            }
        }
        proof {
            assert(bv.take(nbanks as int) =~= bv);
        }
        // commit: the dictionary row, then all staged entry rows
        let ghost staged_final = staged@.map_values(|e: DbDictEntry| e@);
        let new_dict = DbDictionary {
            id: dict_id,
            title: title.to_owned(),
            priority: 0,
            fallback: false,
            enabled: false,
        };
        self.dicts.push(new_dict);
        self.entries.append(&mut staged);
        self.next_dict_id = dict_id + 1;
        self.next_entry_id = next_id;
        proof {
            let flat = flatten_banks(bv);
            let target = import_spec(m0, bv, title@).0;
            lemma_expand_records_index(flat, d, f0);
            assert(self@.dicts =~= m0.dicts.push(
                DictModel { id: d, title: title@, priority: 0, fallback: false, enabled: false },
            ));
            assert(self@.entries =~= m0.entries + expand_records(flat, d, f0));
            assert(self@.freqs =~= m0.freqs);
            assert(self@ == target);
            // well-formedness of the new store
            let nd = m0.dicts.len() as int;
            let ne = m0.entries.len() as int;
            assert forall|i: int, j: int|
                #![trigger self@.dicts[i], self@.dicts[j]]
                0 <= i < j < self@.dicts.len() implies self@.dicts[i].title != self@.dicts[j].title
                && self@.dicts[i].id != self@.dicts[j].id by {
                if j < nd {
                } else {
                    assert(self@.dicts[j] == target.dicts[nd]);
                    assert(!has_title(m0, title@));
                    assert(m0.dicts[i].title != title@);
                }
            }
            assert forall|k: int, l: int|
                #![trigger self@.entries[k], self@.entries[l]]
                0 <= k < l < self@.entries.len() implies self@.entries[k].id != self@.entries[l].id
                by {
                if k < ne && l >= ne {
                    assert(self@.entries[l].id == f0 + (l - ne));
                } else if k >= ne {
                    assert(self@.entries[k].id == f0 + (k - ne));
                    assert(self@.entries[l].id == f0 + (l - ne));
                }
            }
            assert forall|k: int|
                0 <= k < self@.entries.len() implies has_dict_id(
                self@.dicts,
                (#[trigger] self@.entries[k]).dict_id,
            ) by {
                if k < ne {
                    assert(has_dict_id(m0.dicts, m0.entries[k].dict_id));
                    let w = choose|w: int|
                        0 <= w < m0.dicts.len() && m0.dicts[w].id == m0.entries[k].dict_id;
                    assert(self@.dicts[w].id == self@.entries[k].dict_id);
                } else {
                    assert(self@.entries[k].dict_id == d);
                    assert(self@.dicts[nd].id == d);
                }
            }
            assert forall|k: int|
                0 <= k < self@.entries.len() implies 1 <= (#[trigger] self@.entries[k]).id < self@
                .next_entry_id by {
                if k >= ne {
                    assert(self@.entries[k].id == f0 + (k - ne));
                    assert(self@.entries.len() - ne == total_meanings(flat));
                }
            }
        }
        Ok(())
    }

    /// The index of the frequency row carrying `word`, if any; the first
    /// match is the only one by the uniqueness invariant.
    fn find_freq_index(&self, word: &str) -> (r: Option<usize>)
        ensures
            match r {
                Some(i) => i < self@.freqs.len() && self@.freqs[i as int].word == word@ && forall|
                    j: int,
                |
                    0 <= j < i ==> (#[trigger] self@.freqs[j]).word != word@,
                None => forall|j: int|
                    0 <= j < self@.freqs.len() ==> (#[trigger] self@.freqs[j]).word != word@,
            },
    {
        for i in 0..self.freqs.len()
            invariant
                forall|j: int| 0 <= j < i ==> (#[trigger] self@.freqs[j]).word != word@,
        {
            if str_eq(self.freqs[i].word.as_str(), word) {
                return Some(i);
            }
        }
        None
    }

    /// The truncating mean of two stored frequency values.
    fn merge_value(old_freq: i64, new_freq: i64) -> (r: i64)
        ensures
            r as int == trunc_half(old_freq + new_freq),
    {
        let s: i128 = old_freq as i128 + new_freq as i128;
        proof {
            lemma_trunc_half_bounds(old_freq as int, new_freq as int);
        }
        let q = s.checked_div(2).unwrap();
        q as i64
    }

    /// Merges one meta-bank record into the frequency table: an upsert on
    /// the word, averaging with the stored value when `avg` is set.
    pub fn update_frequency_entry(&mut self, entry: &YomichanFrequencyEntry, avg: bool)
        requires
            old(self).wf(),
        ensures
            final(self).wf(),
            final(self)@.freqs == merge_step(
                old(self)@.freqs,
                entry.expression@,
                entry.frequency as int,
                avg,
            ),
            final(self)@.dicts == old(self)@.dicts,
            final(self)@.entries == old(self)@.entries,
            final(self)@.next_dict_id == old(self)@.next_dict_id,
            final(self)@.next_entry_id == old(self)@.next_entry_id,
    {
        let ghost w = entry.expression@;
        match self.find_freq_index(entry.expression.as_str()) {
            Some(i) => {
                proof {
                    lemma_freq_of_at_index(self@.freqs, w, i as int);
                }
                let stored = self.freqs[i].freq;
                let value = if avg {
                    Self::merge_value(stored, entry.frequency)
                } else {
                    entry.frequency
                };
                let updated = FreqRecord { word: entry.expression.clone(), freq: value };
                proof {
                    lemma_upsert_at_index(
                        old(self)@.freqs,
                        w,
                        merged_freq(
                            freq_of(old(self)@.freqs, w),
                            entry.frequency as int,
                            avg,
                        ),
                        i as int,
                    );
                }
                self.freqs[i] = updated;
                proof {
                    assert(self@.freqs =~= merge_step(
                        old(self)@.freqs,
                        w,
                        entry.frequency as int,
                        avg,
                    ));
                    assert(self@.dicts =~= old(self)@.dicts);
                    assert(self@.entries =~= old(self)@.entries);
                    // word uniqueness is kept: the row keeps its word
                    assert forall|a: int, b: int|
                        #![trigger self@.freqs[a], self@.freqs[b]]
                        0 <= a < b < self@.freqs.len() implies self@.freqs[a].word != self@
                        .freqs[b].word by {
                        assert(old(self)@.freqs[a].word != old(self)@.freqs[b].word);
                    }
                }
            },
            None => {
                proof {
                    lemma_freq_of_absent(self@.freqs, w);
                    lemma_upsert_absent(
                        old(self)@.freqs,
                        w,
                        merged_freq(
                            freq_of(old(self)@.freqs, w),
                            entry.frequency as int,
                            avg,
                        ),
                    );
                }
                self.freqs.push(FreqRecord { word: entry.expression.clone(), freq: entry.frequency });
                proof {
                    assert(self@.freqs =~= merge_step(
                        old(self)@.freqs,
                        w,
                        entry.frequency as int,
                        avg,
                    ));
                    assert(self@.dicts =~= old(self)@.dicts);
                    assert(self@.entries =~= old(self)@.entries);
                    assert forall|a: int, b: int|
                        #![trigger self@.freqs[a], self@.freqs[b]]
                        0 <= a < b < self@.freqs.len() implies self@.freqs[a].word != self@
                        .freqs[b].word by {
                        if b < old(self)@.freqs.len() {
                            assert(old(self)@.freqs[a].word != old(self)@.freqs[b].word);
                        } else {
                            assert(self@.freqs[b].word == w);
                            assert(old(self)@.freqs[a].word != w);
                        }
                    }
                }
            },
        }
    }

    /// Imports frequency data: parsed meta banks, in order. `avg` selects
    /// the running-average merge policy; `corpus` replaces each record's
    /// value with its ordinal position across the whole batch, synthesizing
    /// a ranking from an unranked corpus. The whole import is one
    /// transaction — see [`import_frequency_spec`] for the exact contract.
    pub fn update_frequency(
        &mut self,
        banks: &Vec<Option<Vec<YomichanFrequencyEntry>>>,
        avg: bool,
        corpus: bool,
    ) -> (r: Result<(), DictError>)
        requires
            old(self).wf(),
        ensures
            final(self).wf(),
            final(self)@ == import_frequency_spec(old(self)@, freq_banks_view(banks@), avg, corpus).0,
            r == import_frequency_spec(old(self)@, freq_banks_view(banks@), avg, corpus).1,
    {
        let ghost fbv = freq_banks_view(banks@);
        let nbanks = banks.len();
        // every bank must have parsed, and the whole batch must fit the
        // rank counter, before anything is written
        let mut count: u128 = 0;
        for b in 0..nbanks
            invariant
                self == old(self),
                old(self).wf(),
                nbanks == banks@.len(),
                fbv == freq_banks_view(banks@),
                forall|j: int| 0 <= j < b ==> (#[trigger] fbv[j]) is Some,
                count as int == flatten_banks(fbv.take(b as int)).len(),
                count as int <= (b as int) * (usize::MAX as int),
        {
            if banks[b].is_none() {
                proof {
                    assert(fbv[b as int] is None);
                    assert(!banks_parsed(fbv));
                }
                return Err(DictError::DataFormat);
            }
            proof {
                assert(fbv[b as int] is Some);
                assert(banks@[b as int] is Some);
            }
            let bank = banks[b].as_ref().unwrap();
            count = count + bank.len() as u128;
            proof {
                assert(fbv.take(b + 1) =~= fbv.take(b as int) + seq![fbv[b as int]]);
                lemma_flatten_banks_append(fbv.take(b as int), seq![fbv[b as int]]);
                lemma_flatten_banks_singleton(fbv[b as int]);
            }
        }
        proof {
            assert(fbv.take(nbanks as int) =~= fbv);
            assert(banks_parsed(fbv));
        }
        if count >= i64::MAX as u128 {
            return Err(DictError::Storage);
        }
        let ghost m0 = self@;
        let ghost flat = flatten_banks(fbv);
        let mut rank: i64 = 1;
        for b in 0..nbanks
            invariant
                old(self).wf(),
                self.wf(),
                nbanks == banks@.len(),
                fbv == freq_banks_view(banks@),
                banks_parsed(fbv),
                m0 == old(self)@,
                flat == flatten_banks(fbv),
                flat.len() < i64::MAX,
                self@.dicts == m0.dicts,
                self@.entries == m0.entries,
                self@.next_dict_id == m0.next_dict_id,
                self@.next_entry_id == m0.next_entry_id,
                self@.freqs == merge_batch(m0.freqs, flatten_banks(fbv.take(b as int)), avg, corpus, 1),
                rank as int == 1 + flatten_banks(fbv.take(b as int)).len(),
                flatten_banks(fbv.take(b as int)).len() <= flat.len(),
        {
            proof {
                assert(fbv[b as int] is Some);
                assert(banks@[b as int] is Some);
            }
            let bank = banks[b].as_ref().unwrap();
            let ghost brecs = flatten_banks(seq![fbv[b as int]]);
            proof {
                lemma_flatten_banks_singleton(fbv[b as int]);
                assert(brecs == bank@.map_values(|e: YomichanFrequencyEntry| e@));
                assert(fbv =~= fbv.take(b as int) + seq![fbv[b as int]] + fbv.skip(b + 1));
                lemma_flatten_banks_append(
                    fbv.take(b as int) + seq![fbv[b as int]],
                    fbv.skip(b + 1),
                );
                lemma_flatten_banks_append(fbv.take(b as int), seq![fbv[b as int]]);
            }
            let nrec = bank.len();
            let ghost prefix = flatten_banks(fbv.take(b as int));
            for k in 0..nrec
                invariant
                    old(self).wf(),
                    self.wf(),
                    nbanks == banks@.len(),
                    b < nbanks,
                    fbv == freq_banks_view(banks@),
                    banks_parsed(fbv),
                    m0 == old(self)@,
                    flat == flatten_banks(fbv),
                    flat.len() < i64::MAX,
                    nrec == bank@.len(),
                    brecs == bank@.map_values(|e: YomichanFrequencyEntry| e@),
                    prefix == flatten_banks(fbv.take(b as int)),
                    prefix.len() + brecs.len() <= flat.len(),
                    self@.dicts == m0.dicts,
                    self@.entries == m0.entries,
                    self@.next_dict_id == m0.next_dict_id,
                    self@.next_entry_id == m0.next_entry_id,
                    self@.freqs == merge_batch(m0.freqs, prefix + brecs.take(k as int), avg, corpus, 1),
                    rank as int == 1 + prefix.len() + k,
            {
                let e = &bank[k];
                let value = if corpus {
                    rank
                } else {
                    e.frequency
                };
                let eff = YomichanFrequencyEntry {
                    expression: e.expression.clone(),
                    tag: e.tag.clone(),
                    frequency: value,
                };
                let ghost before = self@.freqs;
                self.update_frequency_entry(&eff, avg);
                rank = rank + 1;
                proof {
                    assert(brecs.take(k + 1) =~= brecs.take(k as int) + seq![brecs[k as int]]);
                    assert(prefix + brecs.take(k + 1) =~= (prefix + brecs.take(k as int))
                        + seq![brecs[k as int]]);
                    lemma_merge_batch_append(
                        m0.freqs,
                        prefix + brecs.take(k as int),
                        seq![brecs[k as int]],
                        avg,
                        corpus,
                        1,
                    );
                    lemma_merge_batch_singleton(
                        before,
                        brecs[k as int],
                        avg,
                        corpus,
                        1 + (prefix + brecs.take(k as int)).len() as int,
                    );
                    assert(brecs[k as int] == bank@[k as int]@);
                    assert(self@.freqs == merge_batch(
                        m0.freqs,
                        prefix + brecs.take(k + 1),
                        avg,
                        corpus,
                        1,
                    ));
                }
            }
            proof {
                assert(brecs.take(nrec as int) =~= brecs);
                assert(fbv.take(b + 1) =~= fbv.take(b as int) + seq![fbv[b as int]]);
                lemma_flatten_banks_append(fbv.take(b as int), seq![fbv[b as int]]);
                assert(flatten_banks(fbv.take(b + 1)) =~= prefix + brecs);
            }
        }
        proof {
            assert(fbv.take(nbanks as int) =~= fbv);
        }
        Ok(())
    }

    /// The index of the dictionary row carrying `title`, if any.
    fn find_dict_index(&self, title: &str) -> (r: Option<usize>)
        ensures
            match r {
                Some(i) => i < self@.dicts.len() && self@.dicts[i as int].title == title@,
                None => !has_title(self@, title@),
            },
    {
        for i in 0..self.dicts.len()
            invariant
                forall|j: int| 0 <= j < i ==> (#[trigger] self@.dicts[j]).title != title@,
        {
            if str_eq(self.dicts[i].title.as_str(), title) {
                return Some(i);
            }
        }
        None
    }

    /// Updates the three mutable policy fields of the dictionary titled
    /// `title`; refuses an unknown title.
    pub fn update_dict(
        &mut self,
        title: &str,
        new_priority: i64,
        new_fallback: bool,
        enabled: bool,
    ) -> (r: Result<(), DictError>)
        requires
            old(self).wf(),
        ensures
            final(self).wf(),
            r == if has_title(old(self)@, title@) {
                Result::<(), DictError>::Ok(())
            } else {
                Result::<(), DictError>::Err(DictError::NotFound)
            },
            final(self)@.entries == old(self)@.entries,
            final(self)@.freqs == old(self)@.freqs,
            final(self)@.next_dict_id == old(self)@.next_dict_id,
            final(self)@.next_entry_id == old(self)@.next_entry_id,
            final(self)@.dicts.len() == old(self)@.dicts.len(),
            forall|i: int|
                0 <= i < old(self)@.dicts.len() ==> #[trigger] final(self)@.dicts[i] == (
                if old(self)@.dicts[i].title == title@ {
                    dict_with_policy(
                        old(self)@.dicts[i],
                        new_priority as int,
                        new_fallback,
                        enabled,
                    )
                } else {
                    old(self)@.dicts[i]
                }),
    {
        match self.find_dict_index(title) {
            Some(i) => {
                let d = &self.dicts[i];
                let updated = DbDictionary {
                    id: d.id,
                    title: d.title.clone(),
                    priority: new_priority,
                    fallback: new_fallback,
                    enabled,
                };
                self.dicts[i] = updated;
                proof {
                    assert(has_title(old(self)@, title@)) by {
                        assert(old(self)@.dicts[i as int].title == title@);
                    }
                    assert forall|k: int| 0 <= k < old(self)@.dicts.len() implies #[trigger] self@
                        .dicts[k] == (if old(self)@.dicts[k].title == title@ {
                        dict_with_policy(
                            old(self)@.dicts[k],
                            new_priority as int,
                            new_fallback,
                            enabled,
                        )
                    } else {
                        old(self)@.dicts[k]
                    }) by {
                        if k != i {
                            assert(self@.dicts[k] == old(self)@.dicts[k]);
                            // title uniqueness: row k does not carry `title`
                            if k < i {
                                assert(old(self)@.dicts[k].title != old(self)@.dicts[i as int].title);
                            } else {
                                assert(old(self)@.dicts[i as int].title != old(self)@.dicts[k].title);
                            }
                        }
                    }
                    assert(self@.entries =~= old(self)@.entries);
                    assert(self@.freqs =~= old(self)@.freqs);
                    // ids and titles are untouched, so the invariant is kept
                    assert forall|k: int|
                        0 <= k < self@.dicts.len() implies (#[trigger] self@.dicts[k]).id == old(
                        self,
                    )@.dicts[k].id && self@.dicts[k].title == old(self)@.dicts[k].title by {}
                    assert forall|k: int|
                        0 <= k < self@.entries.len() implies has_dict_id(
                        self@.dicts,
                        (#[trigger] self@.entries[k]).dict_id,
                    ) by {
                        assert(has_dict_id(old(self)@.dicts, old(self)@.entries[k].dict_id));
                        let w = choose|w: int|
                            0 <= w < old(self)@.dicts.len() && old(self)@.dicts[w].id == old(
                                self,
                            )@.entries[k].dict_id;
                        assert(self@.dicts[w].id == self@.entries[k].dict_id);
                    }
                }
                Ok(())
            },
            None => {
                proof {
                    assert(self@.entries =~= old(self)@.entries);
                    assert(self@.freqs =~= old(self)@.freqs);
                }
                Err(DictError::NotFound)
            },
        }
    }

    /// Renames the dictionary titled `old_title` to `new_title`; refuses an
    /// unknown old title, and refuses a new title already in use.
    pub fn rename_dict(&mut self, old_title: &str, new_title: &str) -> (r: Result<(), DictError>)
        requires
            old(self).wf(),
        ensures
            final(self).wf(),
            final(self)@.entries == old(self)@.entries,
            final(self)@.freqs == old(self)@.freqs,
            final(self)@.next_dict_id == old(self)@.next_dict_id,
            final(self)@.next_entry_id == old(self)@.next_entry_id,
            final(self)@.dicts.len() == old(self)@.dicts.len(),
            !has_title(old(self)@, old_title@) ==> r == Result::<(), DictError>::Err(
                DictError::NotFound,
            ) && final(self)@.dicts == old(self)@.dicts,
            has_title(old(self)@, old_title@) && has_title(old(self)@, new_title@) && old_title@
                != new_title@ ==> r == Result::<(), DictError>::Err(DictError::Storage)
                && final(self)@.dicts == old(self)@.dicts,
            has_title(old(self)@, old_title@) && (!has_title(old(self)@, new_title@) || old_title@
                == new_title@) ==> r == Result::<(), DictError>::Ok(()) && forall|i: int|
                0 <= i < old(self)@.dicts.len() ==> #[trigger] final(self)@.dicts[i] == (
                if old(self)@.dicts[i].title == old_title@ {
                    dict_with_title(old(self)@.dicts[i], new_title@)
                } else {
                    old(self)@.dicts[i]
                }),
    {
        match self.find_dict_index(old_title) {
            Some(i) => {
                if !str_eq(old_title, new_title) {
                    match self.find_dict_index(new_title) {
                        Some(_) => {
                            proof {
                                assert(self@.dicts =~= old(self)@.dicts);
                            }
                            return Err(DictError::Storage);
                        },
                        None => {},
                    }
                } else {
                    // renaming to the same title: nothing changes
                    proof {
                        assert(has_title(old(self)@, old_title@)) by {
                            assert(old(self)@.dicts[i as int].title == old_title@);
                        }
                        assert(self@.dicts =~= old(self)@.dicts);
                        assert forall|k: int| 0 <= k < old(self)@.dicts.len() implies #[trigger] self@
                            .dicts[k] == (if old(self)@.dicts[k].title == old_title@ {
                            dict_with_title(old(self)@.dicts[k], new_title@)
                        } else {
                            old(self)@.dicts[k]
                        }) by {}
                    }
                    return Ok(());
                }
                let d = &self.dicts[i];
                let updated = DbDictionary {
                    id: d.id,
                    title: new_title.to_owned(),
                    priority: d.priority,
                    fallback: d.fallback,
                    enabled: d.enabled,
                };
                self.dicts[i] = updated;
                proof {
                    assert(has_title(old(self)@, old_title@)) by {
                        assert(old(self)@.dicts[i as int].title == old_title@);
                    }
                    assert forall|k: int| 0 <= k < old(self)@.dicts.len() implies #[trigger] self@
                        .dicts[k] == (if old(self)@.dicts[k].title == old_title@ {
                        dict_with_title(old(self)@.dicts[k], new_title@)
                    } else {
                        old(self)@.dicts[k]
                    }) by {
                        if k != i {
                            assert(self@.dicts[k] == old(self)@.dicts[k]);
                            if k < i {
                                assert(old(self)@.dicts[k].title != old(self)@.dicts[i as int].title);
                            } else {
                                assert(old(self)@.dicts[i as int].title != old(self)@.dicts[k].title);
                            }
                        }
                    }
                    assert(self@.entries =~= old(self)@.entries);
                    assert(self@.freqs =~= old(self)@.freqs);
                    // the new title is fresh, so title uniqueness is kept
                    assert forall|a: int, b: int|
                        #![trigger self@.dicts[a], self@.dicts[b]]
                        0 <= a < b < self@.dicts.len() implies self@.dicts[a].title != self@
                        .dicts[b].title && self@.dicts[a].id != self@.dicts[b].id by {
                        assert(old(self)@.dicts[a].title != old(self)@.dicts[b].title);
                        assert(old(self)@.dicts[a].id != old(self)@.dicts[b].id);
                        if a == i {
                            assert(!has_title(old(self)@, new_title@));
                            assert(old(self)@.dicts[b].title != new_title@);
                        }
                        if b == i {
                            assert(!has_title(old(self)@, new_title@));
                            assert(old(self)@.dicts[a].title != new_title@);
                        }
                    }
                    assert forall|k: int|
                        0 <= k < self@.entries.len() implies has_dict_id(
                        self@.dicts,
                        (#[trigger] self@.entries[k]).dict_id,
                    ) by {
                        assert(has_dict_id(old(self)@.dicts, old(self)@.entries[k].dict_id));
                        let w = choose|w: int|
                            0 <= w < old(self)@.dicts.len() && old(self)@.dicts[w].id == old(
                                self,
                            )@.entries[k].dict_id;
                        assert(self@.dicts[w].id == self@.entries[k].dict_id);
                    }
                }
                Ok(())
            },
            None => {
                proof {
                    assert(self@.dicts =~= old(self)@.dicts);
                    assert(self@.entries =~= old(self)@.entries);
                    assert(self@.freqs =~= old(self)@.freqs);
                }
                Err(DictError::NotFound)
            },
        }
    }

    /// A copy of one entry row.
    fn clone_entry(e: &DbDictEntry) -> (r: DbDictEntry)
        ensures
            r@ == e@,
    {
        DbDictEntry {
            id: e.id,
            expression: e.expression.clone(),
            reading: e.reading.clone(),
            meaning: e.meaning.clone(),
            dict_id: e.dict_id,
        }
    }

    /// A copy of the dictionary row carrying `id`, if any.
    fn find_dict_clone(&self, id: i64) -> (r: Option<DbDictionary>)
        ensures
            match r {
                Some(d) => find_dict(self@.dicts, id as int) == Option::Some(d@),
                None => find_dict(self@.dicts, id as int) is None,
            },
    {
        for i in 0..self.dicts.len()
            invariant
                forall|j: int| 0 <= j < i ==> (#[trigger] self@.dicts[j]).id != id as int,
        {
            if self.dicts[i].id == id {
                proof {
                    lemma_find_dict_at_index(self@.dicts, id as int, i as int);
                }
                let d = &self.dicts[i];
                return Some(
                    DbDictionary {
                        id: d.id,
                        title: d.title.clone(),
                        priority: d.priority,
                        fallback: d.fallback,
                        enabled: d.enabled,
                    },
                );
            }
        }
        proof {
            lemma_find_dict_absent(self@.dicts, id as int);
        }
        None
    }

    /// The stored frequency of `word`, if any.
    pub fn get_frequency(&self, word: &str) -> (r: Option<i64>)
        ensures
            match r {
                Some(v) => freq_of(self@.freqs, word@) == Option::Some(v as int),
                None => freq_of(self@.freqs, word@) is None,
            },
    {
        match self.find_freq_index(word) {
            Some(i) => {
                proof {
                    lemma_freq_of_at_index(self@.freqs, word@, i as int);
                }
                Some(self.freqs[i].freq)
            },
            None => {
                proof {
                    lemma_freq_of_absent(self@.freqs, word@);
                }
                None
            },
        }
    }

    /// Whether one entry answers the lookup in the given tier.
    fn entry_matches_exec(
        &self,
        e: &DbDictEntry,
        word: &str,
        fallback: bool,
        use_reading: bool,
    ) -> (r: bool)
        ensures
            r == entry_matches(self@, e@, word@, fallback, use_reading),
    {
        match self.find_dict_clone(e.dict_id) {
            Some(d) => {
                if !d.enabled || d.fallback != fallback {
                    false
                } else if use_reading {
                    str_eq(e.reading.as_str(), word)
                } else {
                    str_eq(e.expression.as_str(), word)
                }
            },
            None => false,
        }
    }

    /// The lookup result order between two entries.
    fn le_entries(&self, a: &DbDictEntry, b: &DbDictEntry, sort_freq: bool) -> (r: bool)
        ensures
            r == entry_le(self@, sort_freq, a@, b@),
    {
        let pa = match self.find_dict_clone(a.dict_id) {
            Some(d) => d.priority,
            None => 0,
        };
        let pb = match self.find_dict_clone(b.dict_id) {
            Some(d) => d.priority,
            None => 0,
        };
        if pa > pb {
            true
        } else if pa < pb {
            false
        } else if !sort_freq {
            true
        } else {
            let fa = self.get_frequency(a.expression.as_str());
            let fb = self.get_frequency(b.expression.as_str());
            match fa {
                Some(x) => match fb {
                    Some(y) => x <= y,
                    None => true,
                },
                None => fb.is_none(),
            }
        }
    }

    /// The first position in `out` whose element is ordered after `x`.
    fn insert_position(&self, out: &Vec<DbDictEntry>, x: &DbDictEntry, sort_freq: bool) -> (j:
        usize)
        ensures
            j <= out@.len(),
            forall|k: int| 0 <= k < j ==> entry_le(self@, sort_freq, (#[trigger] out@[k])@, x@),
            j < out@.len() ==> !entry_le(self@, sort_freq, out@[j as int]@, x@),
    {
        for j in 0..out.len()
            invariant
                forall|k: int| 0 <= k < j ==> entry_le(self@, sort_freq, (#[trigger] out@[k])@, x@),
        {
            if !self.le_entries(&out[j], x, sort_freq) {
                return j;
            }
        }
        out.len()
    }

    /// Looks a word up in one tier: the entries of enabled dictionaries of
    /// that tier whose queried column equals the word, ordered by
    /// dictionary priority descending and, when `sort_freq` is set, by
    /// frequency ascending with unknown frequencies last. The queried
    /// column is the reading when the language is Japanese and the word is
    /// phonetic script only, else the expression.
    pub fn lookup_word_tier(
        &self,
        word: &str,
        fallback: bool,
        sort_freq: bool,
        is_japanese: bool,
    ) -> (r: Vec<DbDictEntry>)
        requires
            self.wf(),
        ensures
            entry_views(r@) == tier_results(
                self@,
                word@,
                fallback,
                sort_freq,
                is_japanese && spec_all_kana(word@),
            ),
    {
        let use_reading = is_japanese && all_kana(word);
        let ghost ur = is_japanese && spec_all_kana(word@);
        let ghost m = self@;
        let mut matched: Vec<DbDictEntry> = Vec::new();
        let n = self.entries.len();
        for i in 0..n
            invariant
                self.wf(),
                m == self@,
                n == self@.entries.len(),
                use_reading == ur,
                ur == (is_japanese && spec_all_kana(word@)),
                entry_views(matched@) == self@.entries.take(i as int).filter(
                    |e: EntryModel| entry_matches(m, e, word@, fallback, ur),
                ),
        {
            let ghost pred = |e: EntryModel| entry_matches(m, e, word@, fallback, ur);
            let ghost matched0 = matched@;
            let e = &self.entries[i];
            if self.entry_matches_exec(e, word, fallback, use_reading) {
                matched.push(Self::clone_entry(e));
            }
            proof {
                reveal(Seq::filter);
                let t1 = self@.entries.take(i + 1);
                assert(t1.drop_last() =~= self@.entries.take(i as int));
                assert(t1.last() == self@.entries[i as int]);
                if pred(self@.entries[i as int]) {
                    assert(entry_views(matched@) =~= entry_views(matched0).push(e@));
                } else {
                    assert(entry_views(matched@) =~= entry_views(matched0));
                }
            }
        }
        proof {
            assert(self@.entries.take(n as int) =~= self@.entries);
        }
        // stable insertion sort by the lookup order
        let mut out: Vec<DbDictEntry> = Vec::new();
        let fl = matched.len();
        let ghost mviews = entry_views(matched@);
        for t in 0..fl
            invariant
                self.wf(),
                m == self@,
                fl == matched@.len(),
                mviews == entry_views(matched@),
                mviews == tier_matches(m, word@, fallback, ur),
                ur == (is_japanese && spec_all_kana(word@)),
                entry_views(out@) == sort_entries(m, sort_freq, mviews.take(t as int)),
        {
            let x = Self::clone_entry(&matched[t]);
            let j = self.insert_position(&out, &x, sort_freq);
            let ghost out0 = entry_views(out@);
            out.insert(j, x);
            proof {
                lemma_insert_sorted_at(m, sort_freq, out0, matched@[t as int]@, j as int);
                assert(entry_views(out@) =~= out0.take(j as int) + seq![matched@[t as int]@]
                    + out0.skip(j as int));
                let t1 = mviews.take(t + 1);
                assert(t1.drop_last() =~= mviews.take(t as int));
                assert(t1.last() == mviews[t as int]);
                assert(mviews[t as int] == matched@[t as int]@);
                assert(entry_views(out@) == sort_entries(m, sort_freq, mviews.take(t + 1)));
            }
        }
        proof {
            assert(mviews.take(fl as int) =~= mviews);
        }
        out
    }

    /// Looks a word up: the primary tier, and, only when the primary tier
    /// returned nothing, the fallback tier.
    pub fn lookup_word(&self, word: &str, sort_freq: bool, is_japanese: bool) -> (r: Vec<
        DbDictEntry,
    >)
        requires
            self.wf(),
        ensures
            entry_views(r@) == lookup_word_spec(self@, word@, sort_freq, is_japanese),
    {
        let entries = self.lookup_word_tier(word, false, sort_freq, is_japanese);
        if entries.is_empty() {
            self.lookup_word_tier(word, true, sort_freq, is_japanese)
        } else {
            entries
        }
    }

    /// All dictionary rows, in store order, with no filtering.
    pub fn get_all_dicts(&self) -> (r: Vec<DbDictionary>)
        ensures
            r@.map_values(|d: DbDictionary| d@) == self@.dicts,
    {
        let mut r: Vec<DbDictionary> = Vec::new();
        for i in 0..self.dicts.len()
            invariant
                r@.len() == i,
                forall|j: int| 0 <= j < i ==> (#[trigger] r@[j])@ == self@.dicts[j],
        {
            let d = &self.dicts[i];
            r.push(
                DbDictionary {
                    id: d.id,
                    title: d.title.clone(),
                    priority: d.priority,
                    fallback: d.fallback,
                    enabled: d.enabled,
                },
            );
        }
        proof {
            assert(r@.map_values(|d: DbDictionary| d@) =~= self@.dicts);
        }
        r
    }
}


/// One tier of lookups over a whole candidate sequence: the per-candidate
/// tier results concatenated in candidate order. Duplicates that several
/// candidates resolve to are kept, by design. The language here is the
/// inflecting one, so the queried column follows each candidate's script.
pub open spec fn concat_tiers(
    m: StoreModel,
    cs: Seq<CandModel>,
    fallback: bool,
    sort_freq: bool,
) -> Seq<EntryModel>
    decreases cs.len(),
{
    if cs.len() == 0 {
        Seq::empty()
    } else {
        tier_results(m, cs[0].term, fallback, sort_freq, spec_all_kana(cs[0].term)) + concat_tiers(
            m,
            cs.drop_first(),
            fallback,
            sort_freq,
        )
    }
}

pub proof fn lemma_concat_tiers_append(
    m: StoreModel,
    a: Seq<CandModel>,
    b: Seq<CandModel>,
    fallback: bool,
    sort_freq: bool,
)
    ensures
        concat_tiers(m, a + b, fallback, sort_freq) == concat_tiers(m, a, fallback, sort_freq)
            + concat_tiers(m, b, fallback, sort_freq),
    decreases a.len(),
{
    if a.len() == 0 {
        assert(a + b =~= b);
        assert(concat_tiers(m, a, fallback, sort_freq) + concat_tiers(m, b, fallback, sort_freq)
            =~= concat_tiers(m, b, fallback, sort_freq));
    } else {
        assert((a + b).drop_first() =~= a.drop_first() + b);
        lemma_concat_tiers_append(m, a.drop_first(), b, fallback, sort_freq);
        assert((a + b)[0] == a[0]);
        assert(concat_tiers(m, a + b, fallback, sort_freq) =~= concat_tiers(
            m,
            a,
            fallback,
            sort_freq,
        ) + concat_tiers(m, b, fallback, sort_freq));
    }
}

pub proof fn lemma_concat_tiers_singleton(
    m: StoreModel,
    c: CandModel,
    fallback: bool,
    sort_freq: bool,
)
    ensures
        concat_tiers(m, seq![c], fallback, sort_freq) == tier_results(
            m,
            c.term,
            fallback,
            sort_freq,
            spec_all_kana(c.term),
        ),
{
    assert(seq![c].drop_first() =~= Seq::<CandModel>::empty());
    assert(concat_tiers(m, Seq::<CandModel>::empty(), fallback, sort_freq)
        =~= Seq::<EntryModel>::empty());
    assert(concat_tiers(m, seq![c], fallback, sort_freq) =~= tier_results(
        m,
        c.term,
        fallback,
        sort_freq,
        spec_all_kana(c.term),
    ));
}

/// What looking up a whole candidate sequence returns: the primary tier
/// over all candidates, or, only when that whole set is empty, the
/// fallback tier over all candidates.
pub open spec fn lookup_candidates_spec(
    m: StoreModel,
    cs: Seq<CandModel>,
    sort_freq: bool,
) -> Seq<EntryModel> {
    let prim = concat_tiers(m, cs, false, sort_freq);
    if prim.len() > 0 {
        prim
    } else {
        concat_tiers(m, cs, true, sort_freq)
    }
}

/// Looks every deinflection candidate up, primary tier first across the
/// whole candidate set, falling back to the fallback tier only when the
/// primary tier matched nothing for any candidate.
pub fn lookup_candidates(dict_db: &DictDb, cands: &Vec<DeinflectResult>, sort_freq: bool) -> (r:
    Vec<DbDictEntry>)
    requires
        dict_db.wf(),
    ensures
        entry_views(r@) == lookup_candidates_spec(dict_db@, cands_of(cands@), sort_freq),
{
    let ghost cs = cands_of(cands@);
    let primary = lookup_tier_concat(dict_db, cands, false, sort_freq);
    if primary.is_empty() {
        lookup_tier_concat(dict_db, cands, true, sort_freq)
    } else {
        primary
    }
}

/// One tier of lookups over every candidate, concatenated in candidate
/// order.
fn lookup_tier_concat(
    dict_db: &DictDb,
    cands: &Vec<DeinflectResult>,
    fallback: bool,
    sort_freq: bool,
) -> (r: Vec<DbDictEntry>)
    requires
        dict_db.wf(),
    ensures
        entry_views(r@) == concat_tiers(dict_db@, cands_of(cands@), fallback, sort_freq),
{
    let ghost cs = cands_of(cands@);
    let mut r: Vec<DbDictEntry> = Vec::new();
    let n = cands.len();
    for i in 0..n
        invariant
            dict_db.wf(),
            n == cands@.len(),
            cs == cands_of(cands@),
            entry_views(r@) == concat_tiers(dict_db@, cs.take(i as int), fallback, sort_freq),
    {
        let mut part = dict_db.lookup_word_tier(
            cands[i].term.as_str(),
            fallback,
            sort_freq,
            true,
        );
        let ghost r0 = entry_views(r@);
        let ghost pviews = entry_views(part@);
        r.append(&mut part);
        proof {
            assert(entry_views(r@) =~= r0 + pviews);
            assert(cs[i as int].term == cands@[i as int]@.term);
            assert(cs.take(i + 1) =~= cs.take(i as int) + seq![cs[i as int]]);
            lemma_concat_tiers_append(dict_db@, cs.take(i as int), seq![cs[i as int]], fallback, sort_freq);
            lemma_concat_tiers_singleton(dict_db@, cs[i as int], fallback, sort_freq);
            assert(entry_views(r@) == concat_tiers(dict_db@, cs.take(i + 1), fallback, sort_freq));
        }
    }
    proof {
        assert(cs.take(n as int) =~= cs);
    }
    r
}

/// Resolves a raw surface word to dictionary entries. For an inflecting
/// language the word is deinflected and every candidate is looked up,
/// original word first; for a non-inflecting language the raw word is
/// looked up directly. Either way the fallback tier is consulted only when
/// the primary tier returned nothing.
pub fn lookup(
    dict_db: &DictDb,
    deinflector: &Deinflector,
    word: String,
    is_japanese: bool,
    sort_freq: bool,
) -> (r: Vec<DbDictEntry>)
    requires
        dict_db.wf(),
    ensures
        !is_japanese ==> entry_views(r@) == lookup_word_spec(dict_db@, word@, sort_freq, false),
        is_japanese ==> exists|cs: Seq<CandModel>|
            #[trigger] deinflect_post(deinflector@, word@, cs) && entry_views(r@)
                == lookup_candidates_spec(dict_db@, cs, sort_freq),
{
    if is_japanese {
        let ghost w = word@;
        let forms = deinflector.deinflect(word);
        let r = lookup_candidates(dict_db, &forms, sort_freq);
        proof {
            assert(deinflect_post(deinflector@, w, cands_of(forms@)) && entry_views(r@)
                == lookup_candidates_spec(dict_db@, cands_of(forms@), sort_freq));
        }
        r
    } else {
        dict_db.lookup_word(word.as_str(), sort_freq, false)
    }
}


} // verus!
