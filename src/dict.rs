use vstd::prelude::*;

use crate::encode::{
    le_value, low_i16, low_u16, truncate_i16, truncate_u16, bincode_strings, encode_strings, entry_bytes, entry_record, framed_strings, le_bytes, le_u32,
    u32_le_bytes,
};
use crate::lexicon::{
    build_double_array, bytes_equal, double_array_bytes, entries_view, group_entries,
    keys_size, keyset_of, lexicon_groups, run_of_prefix, sort_entries, sorted_entries, bytes_lt,
    keys_increasing, keys_without_nul, entry_le, runs_of_prefix, lemma_groups_last,
};
use crate::row::{copy_bytes, detail_fields, CsvRow};
use crate::text::views_of;

verus! {

/// The stored detail record of a row: its nine linguistic fields in
/// bincode's encoding.
pub open spec fn detail_bytes(row: CsvRow) -> Seq<u8> {
    bincode_strings(detail_fields(row))
}

/// The length of a row's detail record.
pub open spec fn detail_size(row: CsvRow) -> nat {
    80 + row.pos_level1@.len() + row.pos_level2@.len() + row.pos_level3@.len()
        + row.pos_level4@.len() + row.conjugation_type@.len() + row.conjugate_form@.len()
        + row.base_form@.len() + row.reading@.len() + row.pronunciation@.len()
}

/// The detail records of all rows, in row order.
pub open spec fn words_of(rows: Seq<CsvRow>) -> Seq<u8>
    decreases rows.len(),
{
    if rows.len() == 0 {
        Seq::empty()
    } else {
        words_of(rows.drop_last()) + detail_bytes(rows.last())
    }
}

/// For each row, in row order, the offset of its detail record as a
/// little-endian `u32`.
pub open spec fn words_index_of(rows: Seq<CsvRow>) -> Seq<u8>
    decreases rows.len(),
{
    if rows.len() == 0 {
        Seq::empty()
    } else {
        words_index_of(rows.drop_last()) + le_u32(words_of(rows.drop_last()).len() as u32)
    }
}

pub open spec fn words_size(rows: Seq<CsvRow>) -> nat
    decreases rows.len(),
{
    if rows.len() == 0 {
        0
    } else {
        words_size(rows.drop_last()) + detail_size(rows.last())
    }
}

pub proof fn lemma_le_bytes_len(n: nat, k: nat)
    ensures
        le_bytes(n, k).len() == k,
    decreases k,
{
    if k > 0 {
        lemma_le_bytes_len(n / 256, (k - 1) as nat);
    }
}

pub open spec fn strings_size(fields: Seq<Seq<u8>>) -> nat
    decreases fields.len(),
{
    if fields.len() == 0 {
        0
    } else {
        strings_size(fields.drop_last()) + 8 + fields.last().len()
    }
}

pub proof fn lemma_framed_len(fields: Seq<Seq<u8>>)
    ensures
        framed_strings(fields).len() == strings_size(fields),
    decreases fields.len(),
{
    if fields.len() > 0 {
        lemma_framed_len(fields.drop_last());
        lemma_le_bytes_len(fields.last().len(), 8);
    }
}

pub proof fn lemma_detail_len(row: CsvRow)
    ensures
        detail_bytes(row).len() == detail_size(row),
{
    let f = detail_fields(row);
    lemma_framed_len(f);
    lemma_le_bytes_len(9, 8);
    reveal_with_fuel(strings_size, 10);
    assert(f.drop_last().drop_last().drop_last().drop_last().drop_last().drop_last().drop_last().drop_last().drop_last() =~= Seq::<Seq<u8>>::empty());
}

pub proof fn lemma_words_len(rows: Seq<CsvRow>)
    ensures
        words_of(rows).len() == words_size(rows),
    decreases rows.len(),
{
    if rows.len() > 0 {
        lemma_words_len(rows.drop_last());
        lemma_detail_len(rows.last());
    }
}

pub proof fn lemma_words_size_prefix(rows: Seq<CsvRow>, i: int)
    requires
        0 <= i <= rows.len(),
    ensures
        words_size(rows.subrange(0, i)) <= words_size(rows),
    decreases rows.len(),
{
    if i < rows.len() {
        lemma_words_size_prefix(rows.drop_last(), i);
        assert(rows.drop_last().subrange(0, i) =~= rows.subrange(0, i));
    } else {
        assert(rows.subrange(0, i) =~= rows);
    }
}

/// The detail record of one row.
fn detail_record(row: &CsvRow) -> (r: Vec<u8>)
    ensures
        r@ == detail_bytes(*row),
{
    let mut fields: Vec<Vec<u8>> = Vec::with_capacity(9);
    fields.push(copy_bytes(&row.pos_level1));
    fields.push(copy_bytes(&row.pos_level2));
    fields.push(copy_bytes(&row.pos_level3));
    fields.push(copy_bytes(&row.pos_level4));
    fields.push(copy_bytes(&row.conjugation_type));
    fields.push(copy_bytes(&row.conjugate_form));
    fields.push(copy_bytes(&row.base_form));
    fields.push(copy_bytes(&row.reading));
    fields.push(copy_bytes(&row.pronunciation));
    assert(views_of(fields@) =~= detail_fields(*row));
    encode_strings(&fields)
}

/// The size of a row's detail record, or `None` where it exceeds `u32::MAX`.
fn detail_size_capped(row: &CsvRow) -> (r: Option<u64>)
    ensures
        match r {
            Some(v) => v == detail_size(*row) && v <= u32::MAX,
            None => detail_size(*row) > u32::MAX,
        },
{
    let lens: [usize; 9] = [
        row.pos_level1.len(),
        row.pos_level2.len(),
        row.pos_level3.len(),
        row.pos_level4.len(),
        row.conjugation_type.len(),
        row.conjugate_form.len(),
        row.base_form.len(),
        row.reading.len(),
        row.pronunciation.len(),
    ];
    let mut k: usize = 0;
    while k < 9
        invariant
            k <= 9,
            lens@.len() == 9,
            forall|m: int| 0 <= m < k ==> lens@[m] <= u32::MAX,
            lens@[0] == row.pos_level1@.len(),
            lens@[1] == row.pos_level2@.len(),
            lens@[2] == row.pos_level3@.len(),
            lens@[3] == row.pos_level4@.len(),
            lens@[4] == row.conjugation_type@.len(),
            lens@[5] == row.conjugate_form@.len(),
            lens@[6] == row.base_form@.len(),
            lens@[7] == row.reading@.len(),
            lens@[8] == row.pronunciation@.len(),
        decreases 9 - k,
    {
        if lens[k] > 0xFFFF_FFFF {
            return None;
        }
        k = k + 1;
    }
    let total: u64 = 80 + lens[0] as u64 + lens[1] as u64 + lens[2] as u64 + lens[3] as u64
        + lens[4] as u64 + lens[5] as u64 + lens[6] as u64 + lens[7] as u64 + lens[8] as u64;
    if total > 0xFFFF_FFFF {
        None
    } else {
        Some(total)
    }
}

/// Whether the detail records of all rows fit in `u32::MAX` bytes, so that
/// every offset into them is a `u32`.
pub fn words_fit(rows: &Vec<CsvRow>) -> (r: bool)
    ensures
        r == (words_size(rows@) <= u32::MAX),
{
    let n = rows.len();
    let mut total: u64 = 0;
    let mut i: usize = 0;
    while i < n
        invariant
            n == rows@.len(),
            i <= n,
            total == words_size(rows@.subrange(0, i as int)),
            total <= u32::MAX,
        decreases n - i,
    {
        proof {
            assert(rows@.subrange(0, i + 1).drop_last() =~= rows@.subrange(0, i as int));
            lemma_words_size_prefix(rows@, i + 1);
        }
        match detail_size_capped(&rows[i]) {
            None => {
                return false;
            },
            Some(v) => {
                if total + v > 0xFFFF_FFFF {
                    return false;
                }
                total = total + v;
            },
        }
        i = i + 1;
    }
    assert(rows@.subrange(0, n as int) =~= rows@);
    true
}

/// The detail records of all rows and the offset index into them.
fn build_words(rows: &Vec<CsvRow>) -> (r: (Vec<u8>, Vec<u8>))
    requires
        words_size(rows@) <= u32::MAX,
    ensures
        r.0@ == words_of(rows@),
        r.1@ == words_index_of(rows@),
{
    let n = rows.len();
    let mut words: Vec<u8> = Vec::new();
    let mut index: Vec<u8> = Vec::new();
    let mut i: usize = 0;
    while i < n
        invariant
            n == rows@.len(),
            i <= n,
            words_size(rows@) <= u32::MAX,
            words@ == words_of(rows@.subrange(0, i as int)),
            index@ == words_index_of(rows@.subrange(0, i as int)),
        decreases n - i,
    {
        let ghost pre = rows@.subrange(0, i as int);
        proof {
            assert(rows@.subrange(0, i + 1).drop_last() =~= pre);
            lemma_words_len(pre);
            lemma_words_size_prefix(rows@, i as int);
        }
        let offset = words.len() as u32;
        let mut off_bytes = u32_le_bytes(offset);
        index.append(&mut off_bytes);
        let mut rec = detail_record(&rows[i]);
        words.append(&mut rec);
        i = i + 1;
    }
    assert(rows@.subrange(0, n as int) =~= rows@);
    (words, index)
}

/// Why a dictionary could not be compiled.
#[derive(Clone, Copy, Debug, PartialEq, Eq, Structural)]
pub enum DictError {
    /// A source line could not be read; `line` counts from zero over all
    /// sources.
    Row { line: usize, error: crate::row::RowError },
    /// There are no entries to index.
    Empty,
    /// A surface form has 32 entries or more; five bits hold the count.
    TooManyEntries,
    /// A surface form holds a zero byte, which the index reserves.
    InvalidSurface,
    /// Too much input: row numbers must fit 27 bits (five more bits hold
    /// the count in an index value), detail offsets must be `u32`s, and
    /// the index builder takes keys of fewer than 2^21 bytes in all, a byte
    /// per key included.
    TooLarge,
}

/// The compiled dictionary: the surface-form index, the entry records, the
/// detail records and the offsets of the detail records.
pub struct DictArtifacts {
    pub index: Vec<u8>,
    pub vals: Vec<u8>,
    pub words: Vec<u8>,
    pub words_index: Vec<u8>,
}

/// カブシキガイシャ
pub open spec fn skip_word_kabushiki() -> Seq<u8> {
    seq![
        0xE3u8, 0x82, 0xAB, 0xE3, 0x83, 0x96, 0xE3, 0x82, 0xB7, 0xE3, 0x82, 0xAD,
        0xE3, 0x82, 0xAC, 0xE3, 0x82, 0xA4, 0xE3, 0x82, 0xB7, 0xE3, 0x83, 0xA3,
    ]
}

/// タカラヅカカゲキダンキセイ
pub open spec fn skip_word_takarazuka() -> Seq<u8> {
    seq![
        0xE3u8, 0x82, 0xBF, 0xE3, 0x82, 0xAB, 0xE3, 0x83, 0xA9, 0xE3, 0x83, 0x85,
        0xE3, 0x82, 0xAB, 0xE3, 0x82, 0xAB, 0xE3, 0x82, 0xB2, 0xE3, 0x82, 0xAD,
        0xE3, 0x83, 0x80, 0xE3, 0x83, 0xB3, 0xE3, 0x82, 0xAD, 0xE3, 0x82, 0xBB,
        0xE3, 0x82, 0xA4,
    ]
}

/// Surface forms left out of the index (their rows keep their detail records).
pub open spec fn is_skipped(surface: Seq<u8>) -> bool {
    surface == skip_word_kabushiki() || surface == skip_word_takarazuka()
}

pub fn is_skip_word(surface: &Vec<u8>) -> (r: bool)
    ensures
        r == is_skipped(surface@),
{
    let a: Vec<u8> = vec![
        0xE3u8, 0x82, 0xAB, 0xE3, 0x83, 0x96, 0xE3, 0x82, 0xB7, 0xE3, 0x82, 0xAD,
        0xE3, 0x82, 0xAC, 0xE3, 0x82, 0xA4, 0xE3, 0x82, 0xB7, 0xE3, 0x83, 0xA3,
    ];
    let b: Vec<u8> = vec![
        0xE3u8, 0x82, 0xBF, 0xE3, 0x82, 0xAB, 0xE3, 0x83, 0xA9, 0xE3, 0x83, 0x85,
        0xE3, 0x82, 0xAB, 0xE3, 0x82, 0xAB, 0xE3, 0x82, 0xB2, 0xE3, 0x82, 0xAD,
        0xE3, 0x83, 0x80, 0xE3, 0x83, 0xB3, 0xE3, 0x82, 0xAD, 0xE3, 0x82, 0xBB,
        0xE3, 0x82, 0xA4,
    ];
    assert(a@ =~= skip_word_kabushiki());
    assert(b@ =~= skip_word_takarazuka());
    bytes_equal(surface, &a) || bytes_equal(surface, &b)
}

/// The entries of the index, in row order: surface form and row number of
/// every row whose surface form is not skipped.
pub open spec fn lexicon_entries(rows: Seq<CsvRow>) -> Seq<(Seq<u8>, u32)>
    decreases rows.len(),
{
    if rows.len() == 0 {
        Seq::empty()
    } else {
        let prev = lexicon_entries(rows.drop_last());
        if is_skipped(rows.last().surface_form@) {
            prev
        } else {
            prev.push((rows.last().surface_form@, (rows.len() - 1) as u32))
        }
    }
}

/// The number of rows whose surface form is skipped.
pub open spec fn skipped_count(rows: Seq<CsvRow>) -> nat
    decreases rows.len(),
{
    if rows.len() == 0 {
        0
    } else {
        skipped_count(rows.drop_last()) + if is_skipped(rows.last().surface_form@) { 1nat } else { 0nat }
    }
}

/// `s` is the order of the index: the entries of `rows` sorted by surface
/// form, then row.
pub open spec fn is_lexicon_order(rows: Seq<CsvRow>, s: Seq<(Seq<u8>, u32)>) -> bool {
    sorted_entries(s) && s.to_multiset() == lexicon_entries(rows).to_multiset()
}

/// The entry records in the order `s`: row number, word cost and left id,
/// the last two cut to their low 16 bits as the fixed-width record keeps
/// them.
pub open spec fn vals_of(rows: Seq<CsvRow>, s: Seq<(Seq<u8>, u32)>) -> Seq<u8>
    decreases s.len(),
{
    if s.len() == 0 {
        Seq::empty()
    } else {
        let id = s.last().1;
        vals_of(rows, s.drop_last()) + entry_bytes(
            id,
            low_i16(rows[id as int].word_cost),
            low_u16(rows[id as int].left_id),
        )
    }
}

pub open spec fn some_group_too_large(groups: Seq<(Seq<u8>, nat, nat)>) -> bool {
    exists|g: int| 0 <= g < groups.len() && #[trigger] groups[g].2 >= 32
}

pub open spec fn some_key_with_nul(groups: Seq<(Seq<u8>, nat, nat)>) -> bool {
    exists|g: int, k: int| 0 <= g < groups.len() && 0 <= k < groups[g].0.len() && #[trigger] groups[g].0[k] == 0
}

/// Row numbers must leave five bits free in a `u32`, and detail offsets
/// must be `u32`s.
pub open spec fn rows_too_large(rows: Seq<CsvRow>) -> bool {
    rows.len() >= 0x0800_0000 || words_size(rows) > u32::MAX
}

/// The error that compiling `rows` gives where the entries are in the order
/// `s`, if the input decides one. Checked in this order.
pub open spec fn dict_error(rows: Seq<CsvRow>, s: Seq<(Seq<u8>, u32)>) -> Option<DictError> {
    let groups = lexicon_groups(s);
    if rows_too_large(rows) {
        Some(DictError::TooLarge)
    } else if groups.len() == 0 {
        Some(DictError::Empty)
    } else if some_group_too_large(groups) {
        Some(DictError::TooManyEntries)
    } else if some_key_with_nul(groups) {
        Some(DictError::InvalidSurface)
    } else if keys_size(keyset_of(groups)) >= 0x20_0000 {
        Some(DictError::TooLarge)
    } else {
        None
    }
}

/// What compiling `rows` with the index order `s` gives: the artifacts
/// exactly where no error is due, else that error.
pub open spec fn compiled(rows: Seq<CsvRow>, s: Seq<(Seq<u8>, u32)>, r: Result<DictArtifacts, DictError>) -> bool {
    match r {
        Ok(a) => {
            &&& dict_error(rows, s) is None
            &&& a.vals@ == vals_of(rows, s)
            &&& a.words@ == words_of(rows)
            &&& a.words_index@ == words_index_of(rows)
            &&& a.index@ == double_array_bytes(keyset_of(lexicon_groups(s)))
        },
        Err(e) => dict_error(rows, s) == Some(e),
    }
}

pub proof fn lemma_entries_members(rows: Seq<CsvRow>)
    requires
        rows.len() <= u32::MAX,
    ensures
        lexicon_entries(rows).len() <= rows.len(),
        forall|k: int| 0 <= k < lexicon_entries(rows).len() ==> {
            let e = #[trigger] lexicon_entries(rows)[k];
            e.1 < rows.len() && e.0 == rows[e.1 as int].surface_form@
        },
    decreases rows.len(),
{
    if rows.len() > 0 {
        lemma_entries_members(rows.drop_last());
        let prev = lexicon_entries(rows.drop_last());
        assert forall|k: int| 0 <= k < lexicon_entries(rows).len() implies {
            let e = #[trigger] lexicon_entries(rows)[k];
            e.1 < rows.len() && e.0 == rows[e.1 as int].surface_form@
        } by {
            if k < prev.len() {
                assert(lexicon_entries(rows)[k] == prev[k]);
                assert(rows.drop_last()[prev[k].1 as int] == rows[prev[k].1 as int]);
            }
        }
    }
}

pub proof fn lemma_order_members(rows: Seq<CsvRow>, s: Seq<(Seq<u8>, u32)>)
    requires
        rows.len() <= u32::MAX,
        s.to_multiset() == lexicon_entries(rows).to_multiset(),
    ensures
        s.len() == lexicon_entries(rows).len(),
        forall|k: int| 0 <= k < s.len() ==> (#[trigger] s[k]).1 < rows.len()
            && s[k].0 == rows[s[k].1 as int].surface_form@,
{
    let e = lexicon_entries(rows);
    s.to_multiset_ensures();
    e.to_multiset_ensures();
    lemma_entries_members(rows);
    assert forall|k: int| 0 <= k < s.len() implies (#[trigger] s[k]).1 < rows.len()
        && s[k].0 == rows[s[k].1 as int].surface_form@ by {
        assert(s.contains(s[k]));
        assert(s.to_multiset().count(s[k]) > 0);
        assert(e.to_multiset().count(s[k]) > 0);
        assert(e.contains(s[k]));
        let i = choose|i: int| 0 <= i < e.len() && e[i] == s[k];
        assert(e[i] == lexicon_entries(rows)[i]);
    }
}

/// The entries of the index in row order.
fn collect_entries(rows: &Vec<CsvRow>) -> (r: Vec<(Vec<u8>, u32)>)
    requires
        rows@.len() < 0x0800_0000,
    ensures
        entries_view(r@) == lexicon_entries(rows@),
{
    let n = rows.len();
    let mut r: Vec<(Vec<u8>, u32)> = Vec::new();
    let mut i: usize = 0;
    while i < n
        invariant
            n == rows@.len() < 0x0800_0000,
            i <= n,
            entries_view(r@) == lexicon_entries(rows@.subrange(0, i as int)),
        decreases n - i,
    {
        proof {
            assert(rows@.subrange(0, i + 1).drop_last() =~= rows@.subrange(0, i as int));
        }
        let surface = &rows[i].surface_form;
        if !is_skip_word(surface) {
            let ghost old_r = r@;
            r.push((copy_bytes(surface), i as u32));
            assert(entries_view(r@) =~= entries_view(old_r).push((surface@, i as u32)));
        }
        i = i + 1;
    }
    assert(rows@.subrange(0, n as int) =~= rows@);
    r
}

/// The error among the groups, in the order `dict_error` checks them.
pub open spec fn groups_error(groups: Seq<(Seq<u8>, nat, nat)>) -> Option<DictError> {
    if groups.len() == 0 {
        Some(DictError::Empty)
    } else if some_group_too_large(groups) {
        Some(DictError::TooManyEntries)
    } else if some_key_with_nul(groups) {
        Some(DictError::InvalidSurface)
    } else {
        None
    }
}

proof fn lemma_full_runs(s: Seq<(Vec<u8>, u32)>)
    ensures
        entries_view(s).subrange(0, s.len() as int) == entries_view(s),
{
    assert(entries_view(s).subrange(0, s.len() as int) =~= entries_view(s));
}

fn check_groups(s: &Vec<(Vec<u8>, u32)>, runs: &Vec<(usize, usize)>) -> (r: Option<DictError>)
    requires
        runs_of_prefix(s@, runs@, s@.len() as int),
    ensures
        r == groups_error(lexicon_groups(entries_view(s@))),
{
    let ghost g = lexicon_groups(entries_view(s@));
    proof {
        lemma_full_runs(s@);
    }
    if runs.len() == 0 {
        return Some(DictError::Empty);
    }
    let m = runs.len();
    let mut j: usize = 0;
    while j < m
        invariant
            m == runs@.len() == g.len(),
            g == lexicon_groups(entries_view(s@).subrange(0, s@.len() as int)),
            runs_of_prefix(s@, runs@, s@.len() as int),
            j <= m,
            forall|t: int| 0 <= t < j ==> g[t].2 < 32,
            g == lexicon_groups(entries_view(s@)),
        decreases m - j,
    {
        assert(run_of_prefix(s@, runs@, s@.len() as int, j as int));
        if runs[j].1 >= 32 {
            assert(g[j as int].2 >= 32);
            assert(some_group_too_large(g));
            return Some(DictError::TooManyEntries);
        }
        j = j + 1;
    }
    let mut j: usize = 0;
    while j < m
        invariant
            m == runs@.len() == g.len(),
            g == lexicon_groups(entries_view(s@).subrange(0, s@.len() as int)),
            runs_of_prefix(s@, runs@, s@.len() as int),
            !some_group_too_large(g),
            j <= m,
            forall|t: int, k: int| 0 <= t < j && 0 <= k < g[t].0.len() ==> #[trigger] g[t].0[k] != 0,
            g == lexicon_groups(entries_view(s@)),
        decreases m - j,
    {
        assert(run_of_prefix(s@, runs@, s@.len() as int, j as int));
        let key = &s[runs[j].0].0;
        let mut k: usize = 0;
        while k < key.len()
            invariant
                k <= key@.len(),
                j < m == g.len(),
                !some_group_too_large(g),
                g == lexicon_groups(entries_view(s@)),
                key@ == g[j as int].0,
                forall|q: int| 0 <= q < k ==> key@[q] != 0,
            decreases key@.len() - k,
        {
            if key[k] == 0 {
                assert(g[j as int].0[k as int] == 0);
                assert(some_key_with_nul(g));
                return Some(DictError::InvalidSurface);
            }
            k = k + 1;
        }
        assert(key@ =~= g[j as int].0);
        j = j + 1;
    }
    None
}

/// The key set of the index: each surface form with its packed value.
fn build_keyset(s: &Vec<(Vec<u8>, u32)>, runs: &Vec<(usize, usize)>) -> (r: Vec<(Vec<u8>, u32)>)
    requires
        runs_of_prefix(s@, runs@, s@.len() as int),
        s@.len() < 0x0800_0000,
        !some_group_too_large(lexicon_groups(entries_view(s@))),
    ensures
        entries_view(r@) == keyset_of(lexicon_groups(entries_view(s@))),
{
    let ghost g = lexicon_groups(entries_view(s@));
    proof {
        lemma_full_runs(s@);
    }
    let m = runs.len();
    let mut r: Vec<(Vec<u8>, u32)> = Vec::with_capacity(m);
    let mut j: usize = 0;
    while j < m
        invariant
            m == runs@.len() == g.len(),
            g == lexicon_groups(entries_view(s@).subrange(0, s@.len() as int)),
            runs_of_prefix(s@, runs@, s@.len() as int),
            s@.len() < 0x0800_0000,
            !some_group_too_large(g),
            j <= m,
            entries_view(r@) =~= keyset_of(g).subrange(0, j as int),
        decreases m - j,
    {
        assert(run_of_prefix(s@, runs@, s@.len() as int, j as int));
        let (start, count) = runs[j];
        assert(g[j as int].2 < 32);
        let value: u64 = (start as u64) * 32 + count as u64;
        let ghost old_r = r@;
        r.push((copy_bytes(&s[start].0), value as u32));
        assert(entries_view(r@) =~= entries_view(old_r).push((g[j as int].0, packed_value_u32(g[j as int]))));
        j = j + 1;
    }
    r
}

spec fn packed_value_u32(g: (Seq<u8>, nat, nat)) -> u32 {
    crate::lexicon::packed_value(g.1, g.2) as u32
}

pub proof fn lemma_keys_size_prefix(keys: Seq<(Seq<u8>, u32)>, i: int)
    requires
        0 <= i <= keys.len(),
    ensures
        keys_size(keys.subrange(0, i)) <= keys_size(keys),
    decreases keys.len(),
{
    if i < keys.len() {
        lemma_keys_size_prefix(keys.drop_last(), i);
        assert(keys.drop_last().subrange(0, i) =~= keys.subrange(0, i));
    } else {
        assert(keys.subrange(0, i) =~= keys);
    }
}

/// Whether the keys take fewer than 2^21 bytes, a byte per key included.
fn keys_fit(keys: &Vec<(Vec<u8>, u32)>) -> (r: bool)
    ensures
        r == (keys_size(entries_view(keys@)) < 0x20_0000),
{
    let ghost e = entries_view(keys@);
    let n = keys.len();
    let mut total: u64 = 0;
    let mut i: usize = 0;
    while i < n
        invariant
            n == keys@.len() == e.len(),
            e == entries_view(keys@),
            i <= n,
            total == keys_size(e.subrange(0, i as int)),
            total < 0x20_0000,
        decreases n - i,
    {
        proof {
            assert(e.subrange(0, i + 1).drop_last() =~= e.subrange(0, i as int));
            lemma_keys_size_prefix(e, i + 1);
        }
        let len = keys[i].0.len();
        if len >= 0x20_0000 || total + len as u64 + 1 >= 0x20_0000 {
            return false;
        }
        total = total + len as u64 + 1;
        i = i + 1;
    }
    assert(e.subrange(0, n as int) =~= e);
    true
}

/// The entry records in the order `s`.
fn build_vals(rows: &Vec<CsvRow>, s: &Vec<(Vec<u8>, u32)>) -> (r: Vec<u8>)
    requires
        forall|k: int| 0 <= k < s@.len() ==> (#[trigger] s@[k]).1 < rows@.len(),
    ensures
        r@ == vals_of(rows@, entries_view(s@)),
{
    let ghost e = entries_view(s@);
    let n = s.len();
    let mut vals: Vec<u8> = Vec::new();
    let mut k: usize = 0;
    while k < n
        invariant
            n == s@.len() == e.len(),
            e == entries_view(s@),
            forall|q: int| 0 <= q < s@.len() ==> (#[trigger] s@[q]).1 < rows@.len(),
            k <= n,
            vals@ == vals_of(rows@, e.subrange(0, k as int)),
        decreases n - k,
    {
        proof {
            assert(e.subrange(0, k + 1).drop_last() =~= e.subrange(0, k as int));
            assert(s@[k as int].1 < rows@.len());
        }
        let id = s[k].1;
        let row = &rows[id as usize];
        let mut rec = entry_record(id, truncate_i16(row.word_cost), truncate_u16(row.left_id));
        vals.append(&mut rec);
        k = k + 1;
    }
    assert(e.subrange(0, n as int) =~= e);
    vals
}

proof fn lemma_keys_increasing(s: Seq<(Vec<u8>, u32)>, runs: Seq<(usize, usize)>)
    requires
        runs_of_prefix(s, runs, s.len() as int),
        sorted_entries(entries_view(s)),
    ensures
        keys_increasing(keyset_of(lexicon_groups(entries_view(s)))),
{
    let ev = entries_view(s);
    let g = lexicon_groups(ev);
    lemma_full_runs(s);
    let ks = keyset_of(g);
    assert forall|j: int| 0 <= j < ks.len() - 1 implies bytes_lt(#[trigger] ks[j].0, ks[j + 1].0) by {
        assert(run_of_prefix(s, runs, s.len() as int, j));
        assert(run_of_prefix(s, runs, s.len() as int, j + 1));
        let b = runs[j + 1].0 as int;
        assert(entry_le(ev[b - 1], ev[b]));
        assert(ev[b - 1].0 == s[b - 1].0@);
        assert(ev[b].0 == s[b].0@);
    }
}

/// Compiles parsed rows into the dictionary artifacts. The index holds each
/// surface form once, in lexicographic order, with its packed value; the
/// entry records follow that order; the detail records and their offsets
/// follow row order.
pub fn compile_dict(rows: &Vec<CsvRow>) -> (r: Result<DictArtifacts, DictError>)
    ensures
        rows_too_large(rows@) ==> r == Err::<DictArtifacts, DictError>(DictError::TooLarge),
        !rows_too_large(rows@) ==> exists|s: Seq<(Seq<u8>, u32)>|
            is_lexicon_order(rows@, s) && #[trigger] compiled(rows@, s, r)
                && (dict_error(rows@, s) is None <==> r is Ok),
{
    if rows.len() >= 0x0800_0000 || !words_fit(rows) {
        return Err(DictError::TooLarge);
    }
    let mut entries = collect_entries(rows);
    sort_entries(&mut entries);
    let ghost s = entries_view(entries@);
    proof {
        lemma_order_members(rows@, s);
        lemma_entries_members(rows@);
        assert(entries@.len() == s.len());
        assert(is_lexicon_order(rows@, s));
        assert forall|k: int| 0 <= k < entries@.len() implies (#[trigger] entries@[k]).1 < rows@.len() by {
            assert(s[k].1 == entries@[k].1);
        }
    }
    let runs = group_entries(&entries);
    match check_groups(&entries, &runs) {
        Some(e) => {
            assert(compiled(rows@, s, Err(e)));
            return Err(e);
        },
        None => {},
    }
    let keyset = build_keyset(&entries, &runs);
    if !keys_fit(&keyset) {
        assert(compiled(rows@, s, Err(DictError::TooLarge)));
        return Err(DictError::TooLarge);
    }
    proof {
        lemma_keys_increasing(entries@, runs@);
        let g = lexicon_groups(s);
        let ks = entries_view(keyset@);
        assert forall|i: int, k: int| 0 <= i < ks.len() && 0 <= k < ks[i].0.len() implies #[trigger] ks[i].0[k] != 0 by {
            assert(ks[i].0 == g[i].0);
            if ks[i].0[k] == 0 {
                assert(g[i].0[k] == 0);
            }
        }
        assert(keys_without_nul(ks));
    }
    let (words, words_index) = build_words(rows);
    let vals = build_vals(rows, &entries);
    let index = build_double_array(&keyset);
    let r = Ok(DictArtifacts { index, vals, words, words_index });
    assert(compiled(rows@, s, r));
    r
}

proof fn lemma_entries_count(rows: Seq<CsvRow>)
    ensures
        lexicon_entries(rows).len() + skipped_count(rows) == rows.len(),
    decreases rows.len(),
{
    if rows.len() > 0 {
        lemma_entries_count(rows.drop_last());
    }
}

proof fn lemma_vals_len(rows: Seq<CsvRow>, s: Seq<(Seq<u8>, u32)>)
    ensures
        vals_of(rows, s).len() == 8 * s.len(),
    decreases s.len(),
{
    if s.len() > 0 {
        lemma_vals_len(rows, s.drop_last());
        let id = s.last().1;
        let c = low_i16(rows[id as int].word_cost);
        lemma_le_bytes_len(id as nat, 4);
        lemma_le_bytes_len((if c < 0 { c + 0x1_0000 } else { c as int }) as nat, 2);
        lemma_le_bytes_len(low_u16(rows[id as int].left_id) as nat, 2);
    }
}

/// The entry records hold one eight-byte record for every row whose surface
/// form is not skipped, and none for the others.
pub proof fn law_vals_count(rows: Seq<CsvRow>, s: Seq<(Seq<u8>, u32)>)
    requires
        is_lexicon_order(rows, s),
    ensures
        vals_of(rows, s).len() == 8 * (rows.len() - skipped_count(rows)),
{
    s.to_multiset_ensures();
    lexicon_entries(rows).to_multiset_ensures();
    lemma_entries_count(rows);
    lemma_vals_len(rows, s);
}

/// The number of entries in the groups before group `g`.
pub open spec fn entries_before(groups: Seq<(Seq<u8>, nat, nat)>, g: int) -> nat
    decreases g,
{
    if g <= 0 {
        0
    } else {
        entries_before(groups, g - 1) + groups[g - 1].2
    }
}

proof fn lemma_groups_base(s: Seq<(Seq<u8>, u32)>)
    ensures
        forall|g: int| 0 <= g < lexicon_groups(s).len() ==>
            (#[trigger] lexicon_groups(s)[g]).1 == entries_before(lexicon_groups(s), g),
        lexicon_groups(s).len() > 0 ==> entries_before(lexicon_groups(s), lexicon_groups(s).len() - 1)
            + lexicon_groups(s).last().2 == s.len(),
    decreases s.len(),
{
    if s.len() > 0 {
        let p = s.drop_last();
        lemma_groups_base(p);
        let gp = lexicon_groups(p);
        let gs = lexicon_groups(s);
        if gp.len() > 0 {
            lemma_entries_before_agree(gs, gp, gp.len() - 1);
        }
        assert forall|g: int| 0 <= g < gs.len() implies (#[trigger] gs[g]).1 == entries_before(gs, g) by {
            if g < gp.len() {
                lemma_entries_before_agree(gs, gp, g);
            } else if gp.len() > 0 {
                lemma_entries_before_agree(gs, gp, gp.len() - 1);
                assert(entries_before(gs, g) == entries_before(gs, g - 1) + gs[g - 1].2);
            }
        }
    }
}

proof fn lemma_entries_before_agree(a: Seq<(Seq<u8>, nat, nat)>, b: Seq<(Seq<u8>, nat, nat)>, g: int)
    requires
        0 <= g <= b.len(),
        g <= a.len(),
        forall|t: int| 0 <= t < g ==> #[trigger] a[t].2 == b[t].2,
    ensures
        entries_before(a, g) == entries_before(b, g),
    decreases g,
{
    if g > 0 {
        lemma_entries_before_agree(a, b, g - 1);
    }
}

/// The number of entries of `s` whose surface form is `k`.
pub open spec fn count_key(s: Seq<(Seq<u8>, u32)>, k: Seq<u8>) -> nat
    decreases s.len(),
{
    if s.len() == 0 {
        0
    } else {
        count_key(s.drop_last(), k) + if s.last().0 == k { 1nat } else { 0nat }
    }
}

proof fn lemma_bytes_lt_asymmetric(a: Seq<u8>, b: Seq<u8>)
    ensures
        !(bytes_lt(a, b) && bytes_lt(b, a)),
        !bytes_lt(a, a),
    decreases a.len(),
{
    if a.len() > 0 && b.len() > 0 && a[0] == b[0] {
        lemma_bytes_lt_asymmetric(a.drop_first(), b.drop_first());
    }
    if a.len() > 0 {
        lemma_bytes_lt_asymmetric(a.drop_first(), a.drop_first());
    }
}

proof fn lemma_count_key_absent(s: Seq<(Seq<u8>, u32)>, k: Seq<u8>)
    requires
        forall|i: int| 0 <= i < s.len() ==> (#[trigger] s[i]).0 != k,
    ensures
        count_key(s, k) == 0,
    decreases s.len(),
{
    if s.len() > 0 {
        let p = s.drop_last();
        assert forall|i: int| 0 <= i < p.len() implies (#[trigger] p[i]).0 != k by {
            assert(p[i] == s[i]);
        }
        lemma_count_key_absent(p, k);
    }
}

proof fn lemma_group_counts(s: Seq<(Seq<u8>, u32)>)
    requires
        sorted_entries(s),
    ensures
        forall|g: int| 0 <= g < lexicon_groups(s).len() ==>
            count_key(s, (#[trigger] lexicon_groups(s)[g]).0) == lexicon_groups(s)[g].2
            && lexicon_groups(s)[g].2 >= 1,
        forall|g: int, h: int| 0 <= g < h < lexicon_groups(s).len() ==>
            (#[trigger] lexicon_groups(s)[g]).0 != (#[trigger] lexicon_groups(s)[h]).0,
    decreases s.len(),
{
    if s.len() > 0 {
        let p = s.drop_last();
        let x = s.last();
        assert(sorted_entries(p)) by {
            assert forall|i: int, j: int| 0 <= i < j < p.len() implies entry_le(#[trigger] p[i], #[trigger] p[j]) by {
                assert(p[i] == s[i] && p[j] == s[j]);
            }
        }
        lemma_group_counts(p);
        let gp = lexicon_groups(p);
        let gs = lexicon_groups(s);
        if gp.len() > 0 && gp.last().0 == x.0 {
            assert forall|g: int| 0 <= g < gs.len() implies
                count_key(s, (#[trigger] gs[g]).0) == gs[g].2 && gs[g].2 >= 1 by {
                if g < gs.len() - 1 {
                    assert(gp[g].0 != gp[gp.len() - 1].0);
                }
            }
        } else {
            if p.len() > 0 {
                lemma_groups_last(p);
                assert forall|i: int| 0 <= i < p.len() implies (#[trigger] p[i]).0 != x.0 by {
                    if p[i].0 == x.0 {
                        assert(entry_le(s[i], s[p.len() - 1]));
                        assert(entry_le(s[p.len() - 1], s[s.len() - 1]));
                        lemma_bytes_lt_asymmetric(x.0, p.last().0);
                    }
                }
            }
            lemma_count_key_absent(p, x.0);
            assert forall|g: int| 0 <= g < gs.len() implies
                count_key(s, (#[trigger] gs[g]).0) == gs[g].2 && gs[g].2 >= 1 by {
                if g < gp.len() {
                    assert(gp[g].0 != x.0);
                }
            }
            assert forall|g: int, h: int| 0 <= g < h < gs.len() implies
                (#[trigger] gs[g]).0 != (#[trigger] gs[h]).0 by {
                if h == gs.len() - 1 {
                    assert(count_key(p, gp[g].0) >= 1);
                }
            }
        }
    }
}

/// The index value of each surface form packs, above five low bits that
/// hold the number of its entries, the number of entries of all the surface
/// forms before it; no two surface forms of the index are equal.
pub proof fn law_packed_values(rows: Seq<CsvRow>, s: Seq<(Seq<u8>, u32)>, g: int)
    requires
        is_lexicon_order(rows, s),
        dict_error(rows, s) is None,
        0 <= g < lexicon_groups(s).len(),
    ensures
        ({
            let gs = lexicon_groups(s);
            let v = keyset_of(gs)[g].1;
            &&& keyset_of(gs)[g].0 == gs[g].0
            &&& v % 32 == gs[g].2
            &&& v / 32 == entries_before(gs, g)
            &&& gs[g].2 == count_key(s, gs[g].0)
            &&& gs[g].2 < 32
            &&& forall|h: int| 0 <= h < gs.len() && h != g ==> (#[trigger] gs[h]).0 != gs[g].0
        }),
{
    let gs = lexicon_groups(s);
    lemma_groups_base(s);
    lemma_group_counts(s);
    assert(gs[g].1 == entries_before(gs, g));
    if gs[g].2 >= 32 {
        assert(some_group_too_large(gs));
    }
    s.to_multiset_ensures();
    lexicon_entries(rows).to_multiset_ensures();
    lemma_entries_count(rows);
    lemma_group_bound(s, g);
    let base = gs[g].1;
    let count = gs[g].2;
    assert(base * 32 + count < 0x1_0000_0000) by (nonlinear_arith)
        requires
            base < 0x0800_0000,
            count < 32,
    ;
    assert((base * 32 + count) % 32 == count && (base * 32 + count) / 32 == base) by (nonlinear_arith)
        requires
            count < 32,
    ;
}

proof fn lemma_group_bound(s: Seq<(Seq<u8>, u32)>, g: int)
    requires
        0 <= g < lexicon_groups(s).len(),
    ensures
        lexicon_groups(s)[g].1 < s.len(),
    decreases s.len(),
{
    let p = s.drop_last();
    if g < lexicon_groups(p).len() {
        lemma_group_bound(p, g);
    }
}

proof fn lemma_le_value_bytes(n: nat, k: nat)
    ensures
        le_value(le_bytes(n, k)) == n % pow256(k),
    decreases k,
{
    lemma_le_bytes_len(n, k);
    if k > 0 {
        lemma_le_value_bytes(n / 256, (k - 1) as nat);
        let rest = le_bytes(n / 256, (k - 1) as nat);
        assert(le_bytes(n, k).drop_first() =~= rest);
        let p = pow256((k - 1) as nat);
        assert(p > 0) by {
            lemma_pow256_pos((k - 1) as nat);
        }
        assert(n % 256 + 256 * ((n / 256) % p) == n % (256 * p)) by (nonlinear_arith)
            requires
                p > 0,
        {
            vstd::arithmetic::div_mod::lemma_breakdown(n as int, 256, p as int);
        }
    }
}

pub open spec fn pow256(k: nat) -> nat
    decreases k,
{
    if k == 0 {
        1
    } else {
        256 * pow256((k - 1) as nat)
    }
}

proof fn lemma_pow256_pos(k: nat)
    ensures
        pow256(k) > 0,
    decreases k,
{
    if k > 0 {
        lemma_pow256_pos((k - 1) as nat);
    }
}

proof fn lemma_index_len(rows: Seq<CsvRow>)
    ensures
        words_index_of(rows).len() == 4 * rows.len(),
    decreases rows.len(),
{
    if rows.len() > 0 {
        lemma_index_len(rows.drop_last());
        lemma_le_bytes_len(words_of(rows.drop_last()).len() as u32 as nat, 4);
    }
}

proof fn lemma_words_prefix(rows: Seq<CsvRow>, i: int)
    requires
        0 <= i <= rows.len(),
    ensures
        words_of(rows.subrange(0, i)).len() <= words_of(rows).len(),
        words_of(rows).subrange(0, words_of(rows.subrange(0, i)).len() as int) == words_of(rows.subrange(0, i)),
    decreases rows.len(),
{
    if i < rows.len() {
        let p = rows.drop_last();
        lemma_words_prefix(p, i);
        assert(p.subrange(0, i) =~= rows.subrange(0, i));
        let l = words_of(rows.subrange(0, i)).len() as int;
        assert(words_of(rows).subrange(0, l) =~= words_of(p).subrange(0, l));
    } else {
        assert(rows.subrange(0, i) =~= rows);
        assert(words_of(rows).subrange(0, words_of(rows).len() as int) =~= words_of(rows));
    }
}

proof fn lemma_index_prefix(rows: Seq<CsvRow>, i: int)
    requires
        0 <= i <= rows.len(),
    ensures
        words_index_of(rows).subrange(0, 4 * i) == words_index_of(rows.subrange(0, i)),
    decreases rows.len(),
{
    lemma_index_len(rows);
    if i < rows.len() {
        let p = rows.drop_last();
        lemma_index_prefix(p, i);
        lemma_index_len(p);
        assert(p.subrange(0, i) =~= rows.subrange(0, i));
        assert(words_index_of(rows).subrange(0, 4 * i) =~= words_index_of(p).subrange(0, 4 * i));
    } else {
        assert(rows.subrange(0, i) =~= rows);
        assert(words_index_of(rows).subrange(0, 4 * i) =~= words_index_of(rows));
    }
}

proof fn lemma_offset_at(rows: Seq<CsvRow>, i: int)
    requires
        0 <= i < rows.len(),
    ensures
        words_index_of(rows).subrange(4 * i, 4 * i + 4) == le_u32(words_of(rows.subrange(0, i)).len() as u32),
{
    let next = rows.subrange(0, i + 1);
    let x = words_index_of(rows);
    let y = words_index_of(next);
    lemma_index_prefix(rows, i + 1);
    lemma_index_len(rows);
    lemma_index_len(next.drop_last());
    assert(next.drop_last() =~= rows.subrange(0, i));
    lemma_le_bytes_len(words_of(rows.subrange(0, i)).len() as u32 as nat, 4);
    assert(y == words_index_of(rows.subrange(0, i)) + le_u32(words_of(rows.subrange(0, i)).len() as u32));
    assert(y.subrange(4 * i, 4 * i + 4) =~= le_u32(words_of(rows.subrange(0, i)).len() as u32));
    assert(x.subrange(4 * i, 4 * i + 4) =~= x.subrange(0, 4 * i + 4).subrange(4 * i, 4 * i + 4));
}

proof fn lemma_record_at(rows: Seq<CsvRow>, i: int)
    requires
        0 <= i < rows.len(),
    ensures
        ({
            let off = words_of(rows.subrange(0, i)).len() as int;
            words_of(rows).subrange(off, off + detail_bytes(rows[i]).len()) == detail_bytes(rows[i])
        }),
{
    let next = rows.subrange(0, i + 1);
    let pre = rows.subrange(0, i);
    lemma_words_prefix(rows, i + 1);
    assert(next.drop_last() =~= pre);
    let d = detail_bytes(rows[i]);
    let off = words_of(pre).len() as int;
    let w = words_of(rows);
    assert(words_of(next) == words_of(pre) + d);
    let l = words_of(next).len() as int;
    assert(w.subrange(off, off + d.len()) =~= w.subrange(0, l).subrange(off, off + d.len()));
    assert(words_of(next).subrange(off, off + d.len()) =~= d);
}

/// Reading the offset of row `i` from the offset index and then the detail
/// records at that offset gives the encoding of exactly that row's nine
/// fields.
pub proof fn law_words_round_trip(rows: Seq<CsvRow>, i: int)
    requires
        !rows_too_large(rows),
        0 <= i < rows.len(),
    ensures
        ({
            let off = le_value(words_index_of(rows).subrange(4 * i, 4 * i + 4)) as int;
            words_of(rows).subrange(off, off + detail_bytes(rows[i]).len()) == bincode_strings(detail_fields(rows[i]))
        }),
{
    let pre = rows.subrange(0, i);
    let off = words_of(pre).len();
    lemma_offset_at(rows, i);
    lemma_record_at(rows, i);
    lemma_words_len(pre);
    lemma_words_size_prefix(rows, i);
    lemma_le_value_bytes(off as u32 as nat, 4);
    assert(pow256(4) == 0x1_0000_0000) by {
        reveal_with_fuel(pow256, 5);
    }
}

} // verus!
