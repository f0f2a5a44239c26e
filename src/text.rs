use vstd::prelude::*;

verus! {

/// True when the bytes `a b c` start at position `i` of `s`.
pub open spec fn triple_at(s: Seq<u8>, i: int, a: u8, b: u8, c: u8) -> bool {
    0 <= i && i + 3 <= s.len() && s[i] == a && s[i + 1] == b && s[i + 2] == c
}

/// U+2015 HORIZONTAL BAR, encoded in UTF-8, starts at `i`.
pub open spec fn horizontal_bar_at(s: Seq<u8>, i: int) -> bool {
    triple_at(s, i, 0xE2, 0x80, 0x95)
}

/// U+FF5E FULLWIDTH TILDE, encoded in UTF-8, starts at `i`.
pub open spec fn fullwidth_tilde_at(s: Seq<u8>, i: int) -> bool {
    triple_at(s, i, 0xEF, 0xBD, 0x9E)
}

/// Byte `i` of the normalized text: U+2015 becomes U+2014 (EM DASH) and
/// U+FF5E becomes U+301C (WAVE DASH); every other byte is kept.
pub open spec fn normalized_byte(s: Seq<u8>, i: int) -> u8 {
    if horizontal_bar_at(s, i - 2) {
        0x94
    } else if fullwidth_tilde_at(s, i) {
        0xE3
    } else if fullwidth_tilde_at(s, i - 1) {
        0x80
    } else if fullwidth_tilde_at(s, i - 2) {
        0x9C
    } else {
        s[i]
    }
}

pub open spec fn normalized(s: Seq<u8>) -> Seq<u8> {
    Seq::new(s.len(), |i: int| normalized_byte(s, i))
}

/// Rewrites the two ambiguous code points of legacy dictionary sources
/// (U+2015 and U+FF5E) to their canonical alternates. Both pairs have
/// three-byte encodings, so the length is kept.
pub fn normalize_text(text: &[u8]) -> (r: Vec<u8>)
    ensures
        r@ == normalized(text@),
{
    let n = text.len();
    let mut r: Vec<u8> = Vec::with_capacity(n);
    let mut i: usize = 0;
    while i < n
        invariant
            n == text@.len(),
            i <= n,
            r@.len() == i,
            forall|k: int| 0 <= k < i ==> r@[k] == normalized_byte(text@, k),
        decreases n - i,
    {
        let b = text[i];
        let v: u8 = if i >= 2 && text[i - 2] == 0xE2 && text[i - 1] == 0x80 && b == 0x95 {
            0x94
        } else if n - i >= 3 && b == 0xEF && text[i + 1] == 0xBD && text[i + 2] == 0x9E {
            0xE3
        } else if i >= 1 && n - i >= 2 && text[i - 1] == 0xEF && b == 0xBD && text[i + 1] == 0x9E {
            0x80
        } else if i >= 2 && text[i - 2] == 0xEF && text[i - 1] == 0xBD && b == 0x9E {
            0x9C
        } else {
            b
        };
        r.push(v);
        i = i + 1;
    }
    assert(r@ =~= normalized(text@));
    r
}

/// The byte strings held by a sequence of vectors.
pub open spec fn views_of(v: Seq<Vec<u8>>) -> Seq<Seq<u8>> {
    v.map_values(|x: Vec<u8>| x@)
}

/// The pieces of `s` between occurrences of `sep` (an empty text has one
/// empty piece, and a trailing separator yields a trailing empty piece).
pub open spec fn split_on(s: Seq<u8>, sep: u8) -> Seq<Seq<u8>>
    decreases s.len(),
{
    if s.len() == 0 {
        seq![Seq::empty()]
    } else {
        let prev = split_on(s.drop_last(), sep);
        if s.last() == sep {
            prev.push(Seq::empty())
        } else {
            prev.update(prev.len() - 1, prev.last().push(s.last()))
        }
    }
}

pub proof fn lemma_split_on_nonempty(s: Seq<u8>, sep: u8)
    ensures
        split_on(s, sep).len() >= 1,
    decreases s.len(),
{
    if s.len() > 0 {
        lemma_split_on_nonempty(s.drop_last(), sep);
    }
}

/// Splits `s` at every `sep` byte.
pub fn split_bytes(s: &[u8], sep: u8) -> (r: Vec<Vec<u8>>)
    ensures
        views_of(r@) == split_on(s@, sep),
{
    let n = s.len();
    let mut done: Vec<Vec<u8>> = Vec::new();
    let mut cur: Vec<u8> = Vec::new();
    let mut i: usize = 0;
    while i < n
        invariant
            n == s@.len(),
            i <= n,
            views_of(done@).push(cur@) == split_on(s@.subrange(0, i as int), sep),
        decreases n - i,
    {
        let ghost pre = s@.subrange(0, i as int);
        proof {
            assert(s@.subrange(0, i + 1).drop_last() =~= pre);
            lemma_split_on_nonempty(pre, sep);
        }
        let b = s[i];
        if b == sep {
            let ghost old_done = done@;
            done.push(cur);
            cur = Vec::new();
            proof {
                assert(views_of(done@) =~= views_of(old_done).push(split_on(pre, sep).last()));
                assert(views_of(done@).push(cur@) =~= split_on(s@.subrange(0, i + 1), sep));
            }
        } else {
            cur.push(b);
            proof {
                assert(views_of(done@).push(cur@) =~= split_on(s@.subrange(0, i + 1), sep));
            }
        }
        i = i + 1;
    }
    assert(s@.subrange(0, n as int) =~= s@);
    done.push(cur);
    done
}

pub open spec fn strip_cr(l: Seq<u8>) -> Seq<u8> {
    if l.len() > 0 && l.last() == 13 {
        l.drop_last()
    } else {
        l
    }
}

/// The lines of a text: split at `\n`, a `\r` right before a `\n` belongs to
/// the line ending, and a final empty piece after the last `\n` is no line.
pub open spec fn text_lines(s: Seq<u8>) -> Seq<Seq<u8>> {
    let p = split_on(s, 10);
    let body = p.drop_last().map_values(|l: Seq<u8>| strip_cr(l));
    if p.last().len() == 0 {
        body
    } else {
        body.push(p.last())
    }
}

/// Splits a text into its lines.
pub fn split_lines(s: &[u8]) -> (r: Vec<Vec<u8>>)
    ensures
        views_of(r@) == text_lines(s@),
{
    let mut pieces = split_bytes(s, 10);
    proof {
        lemma_split_on_nonempty(s@, 10);
    }
    let ghost p = views_of(pieces@);
    let last = pieces.pop().unwrap();
    let n = pieces.len();
    let mut r: Vec<Vec<u8>> = Vec::with_capacity(n);
    let mut i: usize = 0;
    while i < n
        invariant
            n == pieces.len(),
            p.len() == n + 1,
            views_of(pieces@) == p.drop_last(),
            last@ == p.last(),
            i <= n,
            views_of(r@) =~= p.drop_last().subrange(0, i as int).map_values(|l: Seq<u8>| strip_cr(l)),
        decreases n - i,
    {
        let piece = &pieces[i];
        let len = piece.len();
        let mut line: Vec<u8> = Vec::with_capacity(len);
        let keep: usize = if len > 0 && piece[len - 1] == 13 { len - 1 } else { len };
        let mut j: usize = 0;
        while j < keep
            invariant
                keep <= len == piece@.len(),
                j <= keep,
                line@ =~= piece@.subrange(0, j as int),
            decreases keep - j,
        {
            line.push(piece[j]);
            j = j + 1;
        }
        proof {
            assert(views_of(pieces@)[i as int] == piece@);
            assert(line@ =~= strip_cr(piece@));
        }
        let ghost old_r = r@;
        r.push(line);
        proof {
            assert(views_of(r@) =~= views_of(old_r).push(strip_cr(p.drop_last()[i as int])));
            assert(p.drop_last().subrange(0, i + 1).map_values(|l: Seq<u8>| strip_cr(l))
                =~= p.drop_last().subrange(0, i as int).map_values(|l: Seq<u8>| strip_cr(l)).push(strip_cr(p.drop_last()[i as int])));
        }
        i = i + 1;
    }
    assert(p.drop_last().subrange(0, n as int) =~= p.drop_last());
    if last.len() > 0 {
        r.push(last);
    }
    r
}

pub open spec fn is_digit(b: u8) -> bool {
    48 <= b <= 57
}

pub open spec fn all_digits(s: Seq<u8>) -> bool {
    forall|i: int| 0 <= i < s.len() ==> is_digit(#[trigger] s[i])
}

/// The value of a string of decimal digits.
pub open spec fn digits_value(s: Seq<u8>) -> nat
    decreases s.len(),
{
    if s.len() == 0 {
        0
    } else {
        digits_value(s.drop_last()) * 10 + (s.last() - 48) as nat
    }
}

/// The magnitude written by `s` after an optional `+`: at least one digit,
/// and digits only.
pub open spec fn unsigned_text(s: Seq<u8>) -> Option<nat> {
    let d = if s.len() > 0 && s[0] == 43 { s.subrange(1, s.len() as int) } else { s };
    if d.len() > 0 && all_digits(d) {
        Some(digits_value(d))
    } else {
        None
    }
}

/// Decimal text of a `u32`, as `u32::from_str` reads it.
pub open spec fn u32_text(s: Seq<u8>) -> Option<u32> {
    match unsigned_text(s) {
        Some(v) => if v <= u32::MAX { Some(v as u32) } else { None },
        None => None,
    }
}

/// Decimal text of an `i32`, as `i32::from_str` reads it: an optional sign,
/// then digits.
pub open spec fn i32_text(s: Seq<u8>) -> Option<i32> {
    if s.len() > 0 && s[0] == 45 {
        let d = s.subrange(1, s.len() as int);
        if d.len() > 0 && all_digits(d) && digits_value(d) <= 0x8000_0000 {
            Some((-digits_value(d)) as i32)
        } else {
            None
        }
    } else {
        match unsigned_text(s) {
            Some(v) => if v <= i32::MAX { Some(v as i32) } else { None },
            None => None,
        }
    }
}

proof fn lemma_digits_prefix_le(s: Seq<u8>, k: int)
    requires
        all_digits(s),
        0 <= k <= s.len(),
    ensures
        digits_value(s.subrange(0, k)) <= digits_value(s),
    decreases s.len(),
{
    if k < s.len() {
        let t = s.drop_last();
        assert(all_digits(t)) by {
            assert forall|i: int| 0 <= i < t.len() implies is_digit(#[trigger] t[i]) by {
                assert(t[i] == s[i]);
            }
        }
        lemma_digits_prefix_le(t, k);
        assert(t.subrange(0, k) =~= s.subrange(0, k));
    } else {
        assert(s.subrange(0, k) =~= s);
    }
}

/// Reads the digits of `s` from `start` on; `None` unless there is at least
/// one, all are digits and the value is at most `limit`.
fn read_digits(s: &[u8], start: usize, limit: u64) -> (r: Option<u64>)
    requires
        start <= s@.len(),
        limit <= 0x1_0000_0000,
    ensures
        ({
            let d = s@.subrange(start as int, s@.len() as int);
            match r {
                Some(v) => d.len() > 0 && all_digits(d) && v == digits_value(d) && v <= limit,
                None => !(d.len() > 0 && all_digits(d) && digits_value(d) <= limit),
            }
        }),
{
    let n = s.len();
    let ghost d = s@.subrange(start as int, n as int);
    if start == n {
        return None;
    }
    let mut acc: u64 = 0;
    let mut i: usize = start;
    while i < n
        invariant
            start <= i <= n == s@.len(),
            d == s@.subrange(start as int, n as int),
            all_digits(d.subrange(0, i - start)),
            acc == digits_value(d.subrange(0, i - start)),
            acc <= limit,
            limit <= 0x1_0000_0000,
        decreases n - i,
    {
        let b = s[i];
        if b < 48 || b > 57 {
            proof {
                assert(d[i - start] == b);
            }
            return None;
        }
        let ghost pre = d.subrange(0, i - start);
        let ghost next = d.subrange(0, i + 1 - start);
        proof {
            assert(next.drop_last() =~= pre);
            assert(next.last() == b);
            assert(all_digits(next)) by {
                assert forall|k: int| 0 <= k < next.len() implies is_digit(#[trigger] next[k]) by {
                    if k < pre.len() {
                        assert(next[k] == pre[k]);
                    }
                }
            }
        }
        proof {
            assert(acc * 10 <= 0x1_0000_0000 * 10) by (nonlinear_arith)
                requires
                    acc <= 0x1_0000_0000,
            ;
        }
        acc = acc * 10 + (b - 48) as u64;
        if acc > limit {
            proof {
                if all_digits(d) {
                    lemma_digits_prefix_le(d, i + 1 - start);
                }
            }
            return None;
        }
        i = i + 1;
    }
    assert(d.subrange(0, n - start) =~= d);
    Some(acc)
}

/// Reads a `u32` written in decimal, with an optional leading `+`.
pub fn parse_u32(s: &[u8]) -> (r: Option<u32>)
    ensures
        r == u32_text(s@),
{
    let start: usize = if s.len() > 0 && s[0] == 43 { 1 } else { 0 };
    proof {
        if start == 0 {
            assert(s@.subrange(0, s@.len() as int) =~= s@);
        }
    }
    match read_digits(s, start, 0xFFFF_FFFF) {
        Some(v) => Some(v as u32),
        None => None,
    }
}

/// Reads an `i32` written in decimal, with an optional leading sign.
pub fn parse_i32(s: &[u8]) -> (r: Option<i32>)
    ensures
        r == i32_text(s@),
{
    if s.len() > 0 && s[0] == 45 {
        match read_digits(s, 1, 0x8000_0000) {
            Some(v) => Some((0 - (v as i64)) as i32),
            None => None,
        }
    } else {
        let start: usize = if s.len() > 0 && s[0] == 43 { 1 } else { 0 };
        proof {
            if start == 0 {
                assert(s@.subrange(0, s@.len() as int) =~= s@);
            }
        }
        match read_digits(s, start, 0x7FFF_FFFF) {
            Some(v) => Some(v as i32),
            None => None,
        }
    }
}

} // verus!
