use vstd::prelude::*;

verus! {

/// Lexicographic order on byte strings (a proper prefix comes first).
pub open spec fn bytes_lt(a: Seq<u8>, b: Seq<u8>) -> bool
    decreases a.len(),
{
    if a.len() == 0 {
        b.len() > 0
    } else if b.len() == 0 {
        false
    } else if a[0] != b[0] {
        a[0] < b[0]
    } else {
        bytes_lt(a.drop_first(), b.drop_first())
    }
}

/// Order of lexicon entries (surface form, row number): by surface form,
/// then by row.
pub open spec fn entry_le(x: (Seq<u8>, u32), y: (Seq<u8>, u32)) -> bool {
    bytes_lt(x.0, y.0) || (x.0 == y.0 && x.1 <= y.1)
}

pub open spec fn sorted_entries(s: Seq<(Seq<u8>, u32)>) -> bool {
    forall|i: int, j: int| 0 <= i < j < s.len() ==> entry_le(#[trigger] s[i], #[trigger] s[j])
}

pub open spec fn entries_view(v: Seq<(Vec<u8>, u32)>) -> Seq<(Seq<u8>, u32)> {
    v.map_values(|p: (Vec<u8>, u32)| (p.0@, p.1))
}

/// Relies on `slice::sort_unstable`: afterwards the elements are in
/// ascending order of `Ord`, which for tuples and for `Vec<u8>` is
/// lexicographic, and they are a permutation of those before.
#[verifier::external_body]
pub(crate) fn sort_entries(v: &mut Vec<(Vec<u8>, u32)>)
    ensures
        sorted_entries(entries_view(final(v)@)),
        entries_view(final(v)@).to_multiset() == entries_view(old(v)@).to_multiset(),
{
    v.sort_unstable();
}

/// The groups of equal surface forms in a sorted entry sequence, in order:
/// surface form, position of its first entry (the number of entries before
/// it), and number of entries.
pub open spec fn lexicon_groups(s: Seq<(Seq<u8>, u32)>) -> Seq<(Seq<u8>, nat, nat)>
    decreases s.len(),
{
    if s.len() == 0 {
        Seq::empty()
    } else {
        let g = lexicon_groups(s.drop_last());
        if g.len() > 0 && g.last().0 == s.last().0 {
            g.update(g.len() - 1, (g.last().0, g.last().1, g.last().2 + 1))
        } else {
            g.push((s.last().0, (s.len() - 1) as nat, 1nat))
        }
    }
}

/// The index value of a surface form: the id of its first entry above five
/// bits holding the number of its entries.
pub open spec fn packed_value(base: nat, count: nat) -> nat {
    base * 32 + count
}

/// The key set handed to the index builder.
pub open spec fn keyset_of(groups: Seq<(Seq<u8>, nat, nat)>) -> Seq<(Seq<u8>, u32)> {
    groups.map_values(|g: (Seq<u8>, nat, nat)| (g.0, packed_value(g.1, g.2) as u32))
}

pub open spec fn keys_size(keys: Seq<(Seq<u8>, u32)>) -> nat
    decreases keys.len(),
{
    if keys.len() == 0 {
        0
    } else {
        keys_size(keys.drop_last()) + keys.last().0.len() + 1
    }
}

pub open spec fn keys_increasing(keys: Seq<(Seq<u8>, u32)>) -> bool {
    forall|i: int| 0 <= i < keys.len() - 1 ==> bytes_lt(#[trigger] keys[i].0, keys[i + 1].0)
}

pub open spec fn keys_without_nul(keys: Seq<(Seq<u8>, u32)>) -> bool {
    forall|i: int, k: int| 0 <= i < keys.len() && 0 <= k < keys[i].0.len() ==> #[trigger] keys[i].0[k] != 0
}

/// The bytes of the double-array index built over a key set.
pub uninterp spec fn double_array_bytes(keys: Seq<(Seq<u8>, u32)>) -> Seq<u8>;

/// Relies on yada's `DoubleArrayBuilder::build`. It panics on an empty key
/// set, on keys out of order or repeated, on a key holding a zero byte (the
/// leaf label), and when a node offset needs more than 29 bits; each node
/// adds at most one block of 256 units, so keys of fewer than 2^21 bytes in
/// all stay below that. It returns `None` only where a key has no byte at
/// the depth being built, which sorted distinct keys never reach (the
/// results of the nested levels are not passed on).
#[verifier::external_body]
pub(crate) fn build_double_array(keyset: &Vec<(Vec<u8>, u32)>) -> (r: Vec<u8>)
    requires
        keyset@.len() > 0,
        keys_increasing(entries_view(keyset@)),
        keys_without_nul(entries_view(keyset@)),
        keys_size(entries_view(keyset@)) < 0x20_0000,
    ensures
        r@ == double_array_bytes(entries_view(keyset@)),
{
    match yada::builder::DoubleArrayBuilder::build(keyset) {
        Some(b) => b,
        None => Vec::new(),
    }
}

/// Compares two byte strings for equality.
pub fn bytes_equal(a: &Vec<u8>, b: &Vec<u8>) -> (r: bool)
    ensures
        r == (a@ == b@),
{
    if a.len() != b.len() {
        return false;
    }
    let mut i: usize = 0;
    while i < a.len()
        invariant
            a@.len() == b@.len(),
            i <= a@.len(),
            forall|k: int| 0 <= k < i ==> a@[k] == b@[k],
        decreases a@.len() - i,
    {
        if a[i] != b[i] {
            return false;
        }
        i = i + 1;
    }
    assert(a@ =~= b@);
    true
}

pub proof fn lemma_groups_last(s: Seq<(Seq<u8>, u32)>)
    requires
        s.len() > 0,
    ensures
        lexicon_groups(s).len() > 0,
        lexicon_groups(s).last().0 == s.last().0,
{
}

/// `r` lists the runs of equal surface forms among the first `n` entries
/// of `s`, as (first position, length), and they are the groups of that
/// prefix.
pub open spec fn runs_of_prefix(s: Seq<(Vec<u8>, u32)>, r: Seq<(usize, usize)>, n: int) -> bool {
    &&& r.len() == lexicon_groups(entries_view(s).subrange(0, n)).len()
    &&& forall|j: int| 0 <= j < r.len() ==> #[trigger] run_of_prefix(s, r, n, j)
    &&& n > 0 ==> r.len() > 0 && r[0].0 == 0
    &&& r.len() > 0 ==> r[r.len() - 1].0 + r[r.len() - 1].1 == n
}

/// Run `j` of `r` is group `j` of the first `n` entries of `s`, it follows
/// run `j - 1`, and a new surface form starts it.
pub open spec fn run_of_prefix(s: Seq<(Vec<u8>, u32)>, r: Seq<(usize, usize)>, n: int, j: int) -> bool {
    let g = lexicon_groups(entries_view(s).subrange(0, n))[j];
    &&& r[j].0 < n
    &&& r[j].1 >= 1
    &&& r[j].0 + r[j].1 <= n
    &&& g == (s[r[j].0 as int].0@, r[j].0 as nat, r[j].1 as nat)
    &&& s[r[j].0 + r[j].1 - 1].0@ == g.0
    &&& (j > 0 ==> r[j].0 == r[j - 1].0 + r[j - 1].1)
    &&& (j > 0 ==> s[r[j].0 as int].0@ != s[r[j].0 - 1].0@)
}

/// Splits a sorted entry sequence into its runs of equal surface forms,
/// each as (first position, length).
pub fn group_entries(s: &Vec<(Vec<u8>, u32)>) -> (r: Vec<(usize, usize)>)
    ensures
        runs_of_prefix(s@, r@, s@.len() as int),
{
    let ghost e = entries_view(s@);
    let n = s.len();
    let mut r: Vec<(usize, usize)> = Vec::new();
    let mut i: usize = 0;
    while i < n
        invariant
            n == s@.len() == e.len(),
            e == entries_view(s@),
            i <= n,
            runs_of_prefix(s@, r@, i as int),
        decreases n - i,
    {
        let ghost pre = e.subrange(0, i as int);
        let ghost next = e.subrange(0, i + 1);
        let ghost old_r = r@;
        proof {
            assert(next.drop_last() =~= pre);
            assert(next.last() == e[i as int]);
            if i > 0 {
                lemma_groups_last(pre);
                assert(pre.last() == e[i - 1]);
            }
        }
        let same = i > 0 && bytes_equal(&s[i - 1].0, &s[i].0);
        if same {
            let last = r.len() - 1;
            let (start, count) = r[last];
            r.set(last, (start, count + 1));
        } else {
            r.push((i, 1));
        }
        proof {
            let gp = lexicon_groups(pre);
            assert(entries_view(s@).subrange(0, i + 1) == next);
            let gn = lexicon_groups(entries_view(s@).subrange(0, i + 1));
            if i > 0 {
                assert(gp.last().0 == s@[i - 1].0@);
            }
            assert(r@.len() == gn.len());
            assert forall|j: int| 0 <= j < r@.len() implies #[trigger] run_of_prefix(s@, r@, i + 1, j) by {
                if j < gp.len() {
                    assert(run_of_prefix(s@, old_r, i as int, j));
                }
            }
            assert(entries_view(s@).subrange(0, i + 1) == next);
            assert(r@.len() > 0 && r@[0].0 == 0);
            assert(r@[r@.len() - 1].0 + r@[r@.len() - 1].1 == i + 1);
            assert(runs_of_prefix(s@, r@, i + 1));
        }
        i = i + 1;
    }
    r
}

} // verus!
