use vstd::prelude::*;

use crate::encode::{i16_le_bytes, le_i16};
use crate::text::{i32_text, parse_i32, split_lines, text_lines, views_of};

verus! {

/// Why a connection-cost matrix could not be compiled. Line numbers count
/// from zero.
#[derive(Clone, Copy, Debug, PartialEq, Eq, Structural)]
pub enum MatrixError {
    /// A field of the line is not an `i32`.
    Parse { line: usize },
    /// The header does not hold two fields, or a cost line three.
    FieldCount { line: usize },
    /// There is no header line.
    MissingHeader,
    /// A size of the header is negative or exceeds `i16::MAX`.
    SizeOutOfRange,
    /// A cost line names an id outside the sizes of the header.
    IdOutOfRange { line: usize },
    /// A cost does not fit the 16-bit cells of the matrix.
    CostOutOfRange { line: usize },
}

/// ASCII whitespace, as `char::is_whitespace` has it below U+0080.
pub open spec fn is_space(b: u8) -> bool {
    b == 32 || (9 <= b <= 13)
}

/// The whitespace-separated fields of a line.
pub open spec fn ws_tokens(s: Seq<u8>) -> Seq<Seq<u8>>
    decreases s.len(),
{
    if s.len() == 0 {
        Seq::empty()
    } else {
        let prev = ws_tokens(s.drop_last());
        let b = s.last();
        if is_space(b) {
            prev
        } else if s.len() >= 2 && !is_space(s[s.len() - 2]) {
            prev.update(prev.len() - 1, prev.last().push(b))
        } else {
            prev.push(seq![b])
        }
    }
}

proof fn lemma_ws_tokens_nonempty(s: Seq<u8>)
    requires
        s.len() > 0,
        !is_space(s.last()),
    ensures
        ws_tokens(s).len() > 0,
    decreases s.len(),
{
    if s.len() >= 2 && !is_space(s[s.len() - 2]) {
        lemma_ws_tokens_nonempty(s.drop_last());
    }
}

/// Splits a line at runs of whitespace, dropping empty fields.
pub fn split_ws(s: &[u8]) -> (r: Vec<Vec<u8>>)
    ensures
        views_of(r@) == ws_tokens(s@),
{
    let n = s.len();
    let mut r: Vec<Vec<u8>> = Vec::new();
    let mut i: usize = 0;
    while i < n
        invariant
            n == s@.len(),
            i <= n,
            views_of(r@) == ws_tokens(s@.subrange(0, i as int)),
        decreases n - i,
    {
        let ghost pre = s@.subrange(0, i as int);
        let ghost next = s@.subrange(0, i + 1);
        let ghost old_r = r@;
        proof {
            assert(next.drop_last() =~= pre);
            if i > 0 {
                assert(next[next.len() - 2] == s@[i - 1]);
                assert(pre.last() == s@[i - 1]);
            }
        }
        let b = s[i];
        let space = b == 32 || (9 <= b && b <= 13);
        if !space {
            let glued = i > 0 && {
                let p = s[i - 1];
                !(p == 32 || (9 <= p && p <= 13))
            };
            if glued {
                proof {
                    lemma_ws_tokens_nonempty(pre);
                    assert(next.last() == b);
                    assert(!is_space(next[next.len() - 2]));
                    assert(!is_space(b));
                    assert(next.len() >= 2);
                    assert(ws_tokens(next) == ws_tokens(pre).update(
                        ws_tokens(pre).len() - 1, ws_tokens(pre).last().push(b)));
                }
                let last = r.len() - 1;
                let mut tok = r.remove(last);
                proof {
                    assert(r@ =~= old_r.subrange(0, last as int));
                    assert(tok@ == views_of(old_r)[last as int]);
                }
                tok.push(b);
                r.push(tok);
                proof {
                    assert(views_of(r@) =~= views_of(old_r).update(last as int, views_of(old_r)[last as int].push(b)));
                    assert(views_of(old_r) == ws_tokens(pre));
                    assert(last as int == ws_tokens(pre).len() - 1);
                    assert(views_of(old_r).update(last as int, views_of(old_r)[last as int].push(b))
                        == ws_tokens(pre).update(ws_tokens(pre).len() - 1, ws_tokens(pre).last().push(b)));
                }
                assert(views_of(r@) == ws_tokens(next));
            } else {
                let tok: Vec<u8> = vec![b];
                proof {
                    assert(tok@ =~= seq![b]);
                    assert(next.last() == b);
                    assert(ws_tokens(next) == ws_tokens(pre).push(seq![b]));
                }
                r.push(tok);
                assert(views_of(r@) =~= views_of(old_r).push(seq![b]));
            }
        }
        i = i + 1;
    }
    assert(s@.subrange(0, n as int) =~= s@);
    r
}

/// The numbers of a line, where every field is an `i32`.
pub open spec fn parse_all(toks: Seq<Seq<u8>>) -> Option<Seq<i32>>
    decreases toks.len(),
{
    if toks.len() == 0 {
        Some(Seq::empty())
    } else {
        match (parse_all(toks.drop_last()), i32_text(toks.last())) {
            (Some(p), Some(v)) => Some(p.push(v)),
            _ => None,
        }
    }
}

/// The numbers of every line, or the first line with a field that is not an
/// `i32`.
pub open spec fn parsed_lines(lines: Seq<Seq<u8>>) -> Result<Seq<Seq<i32>>, nat>
    decreases lines.len(),
{
    if lines.len() == 0 {
        Ok(Seq::empty())
    } else {
        match parsed_lines(lines.drop_last()) {
            Err(k) => Err(k),
            Ok(p) => match parse_all(ws_tokens(lines.last())) {
                Some(v) => Ok(p.push(v)),
                None => Err((lines.len() - 1) as nat),
            },
        }
    }
}

/// The position of the cost from forward id `f` to backward id `b`.
pub open spec fn cost_slot(f: int, b: int, backward_size: int) -> int {
    2 + b + f * backward_size
}

/// The error of the first bad cost line, if any; `data` follows the header.
pub open spec fn data_error(fs: int, bs: int, data: Seq<Seq<i32>>) -> Option<MatrixError>
    decreases data.len(),
{
    if data.len() == 0 {
        None
    } else {
        match data_error(fs, bs, data.drop_last()) {
            Some(e) => Some(e),
            None => {
                let l = data.last();
                let line = data.len() as usize;
                if l.len() != 3 {
                    Some(MatrixError::FieldCount { line })
                } else if !(0 <= l[0] < fs && 0 <= l[1] < bs) {
                    Some(MatrixError::IdOutOfRange { line })
                } else if !(i16::MIN <= l[2] <= i16::MAX) {
                    Some(MatrixError::CostOutOfRange { line })
                } else {
                    None
                }
            },
        }
    }
}

/// The dense matrix: the two sizes, then every cost in forward-major order,
/// `i16::MAX` where no line gives one and the last line's cost where several
/// do.
pub open spec fn matrix_costs(fs: int, bs: int, data: Seq<Seq<i32>>) -> Seq<i16>
    decreases data.len(),
{
    if data.len() == 0 {
        seq![fs as i16, bs as i16] + Seq::new((fs * bs) as nat, |i: int| 0x7FFFi16)
    } else {
        let l = data.last();
        matrix_costs(fs, bs, data.drop_last()).update(cost_slot(l[0] as int, l[1] as int, bs), l[2] as i16)
    }
}

/// What compiling the text of a matrix gives.
pub open spec fn matrix_of(text: Seq<u8>) -> Result<Seq<i16>, MatrixError> {
    match parsed_lines(text_lines(text)) {
        Err(k) => Err(MatrixError::Parse { line: k as usize }),
        Ok(ls) => if ls.len() == 0 {
            Err(MatrixError::MissingHeader)
        } else if ls[0].len() != 2 {
            Err(MatrixError::FieldCount { line: 0 })
        } else if !(0 <= ls[0][0] <= 0x7FFF && 0 <= ls[0][1] <= 0x7FFF) {
            Err(MatrixError::SizeOutOfRange)
        } else {
            let fs = ls[0][0] as int;
            let bs = ls[0][1] as int;
            match data_error(fs, bs, ls.drop_first()) {
                Some(e) => Err(e),
                None => Ok(matrix_costs(fs, bs, ls.drop_first())),
            }
        },
    }
}

pub open spec fn nums_of(v: Seq<Vec<i32>>) -> Seq<Seq<i32>> {
    v.map_values(|x: Vec<i32>| x@)
}

/// The numbers of a line, or `None` where a field is not an `i32`.
fn line_numbers(line: &[u8]) -> (r: Option<Vec<i32>>)
    ensures
        match r {
            Some(v) => parse_all(ws_tokens(line@)) == Some(v@),
            None => parse_all(ws_tokens(line@)) is None,
        },
{
    let toks = split_ws(line);
    let ghost t = views_of(toks@);
    let n = toks.len();
    let mut v: Vec<i32> = Vec::with_capacity(n);
    let mut k: usize = 0;
    while k < n
        invariant
            n == toks@.len() == t.len(),
            t == ws_tokens(line@),
            t == views_of(toks@),
            k <= n,
            parse_all(t.subrange(0, k as int)) == Some(v@),
        decreases n - k,
    {
        proof {
            assert(t.subrange(0, k + 1).drop_last() =~= t.subrange(0, k as int));
            assert(t[k as int] == toks@[k as int]@);
        }
        match parse_i32(toks[k].as_slice()) {
            Some(x) => {
                v.push(x);
            },
            None => {
                proof {
                    lemma_parse_all_prefix_none(t, k + 1);
                }
                return None;
            },
        }
        k = k + 1;
    }
    assert(t.subrange(0, n as int) =~= t);
    Some(v)
}

proof fn lemma_parse_all_prefix_none(t: Seq<Seq<u8>>, k: int)
    requires
        0 <= k <= t.len(),
        parse_all(t.subrange(0, k)) is None,
    ensures
        parse_all(t) is None,
    decreases t.len(),
{
    if k < t.len() {
        assert(t.drop_last().subrange(0, k) =~= t.subrange(0, k));
        lemma_parse_all_prefix_none(t.drop_last(), k);
    } else {
        assert(t.subrange(0, k) =~= t);
    }
}

proof fn lemma_parsed_lines_prefix_err(lines: Seq<Seq<u8>>, k: int, e: nat)
    requires
        0 <= k <= lines.len(),
        parsed_lines(lines.subrange(0, k)) == Err::<Seq<Seq<i32>>, nat>(e),
    ensures
        parsed_lines(lines) == Err::<Seq<Seq<i32>>, nat>(e),
    decreases lines.len(),
{
    if k < lines.len() {
        assert(lines.drop_last().subrange(0, k) =~= lines.subrange(0, k));
        lemma_parsed_lines_prefix_err(lines.drop_last(), k, e);
    } else {
        assert(lines.subrange(0, k) =~= lines);
    }
}

proof fn lemma_data_error_prefix(fs: int, bs: int, data: Seq<Seq<i32>>, k: int, e: MatrixError)
    requires
        0 <= k <= data.len(),
        data_error(fs, bs, data.subrange(0, k)) == Some(e),
    ensures
        data_error(fs, bs, data) == Some(e),
    decreases data.len(),
{
    if k < data.len() {
        assert(data.drop_last().subrange(0, k) =~= data.subrange(0, k));
        lemma_data_error_prefix(fs, bs, data.drop_last(), k, e);
    } else {
        assert(data.subrange(0, k) =~= data);
    }
}

/// The numbers of every line, or the first line that does not parse.
fn parse_matrix_lines(lines: &Vec<Vec<u8>>) -> (r: Result<Vec<Vec<i32>>, usize>)
    ensures
        match r {
            Ok(v) => parsed_lines(views_of(lines@)) == Ok::<Seq<Seq<i32>>, nat>(nums_of(v@)),
            Err(k) => parsed_lines(views_of(lines@)) == Err::<Seq<Seq<i32>>, nat>(k as nat),
        },
{
    let ghost ls = views_of(lines@);
    let n = lines.len();
    let mut out: Vec<Vec<i32>> = Vec::with_capacity(n);
    assert(ls.subrange(0, 0) =~= Seq::<Seq<u8>>::empty());
    assert(nums_of(out@) =~= Seq::<Seq<i32>>::empty());
    let mut i: usize = 0;
    while i < n
        invariant
            n == lines@.len() == ls.len(),
            ls == views_of(lines@),
            i <= n,
            parsed_lines(ls.subrange(0, i as int)) == Ok::<Seq<Seq<i32>>, nat>(nums_of(out@)),
        decreases n - i,
    {
        proof {
            assert(ls.subrange(0, i + 1).drop_last() =~= ls.subrange(0, i as int));
            assert(ls[i as int] == lines@[i as int]@);
        }
        match line_numbers(lines[i].as_slice()) {
            Some(v) => {
                let ghost old_out = out@;
                out.push(v);
                assert(nums_of(out@) =~= nums_of(old_out).push(v@));
            },
            None => {
                proof {
                    lemma_parsed_lines_prefix_err(ls, i + 1, i as nat);
                }
                return Err(i);
            },
        }
        i = i + 1;
    }
    assert(ls.subrange(0, n as int) =~= ls);
    Ok(out)
}

/// Compiles the text of a connection-cost matrix: a header line with the
/// forward and backward sizes, then lines `forward_id backward_id cost`.
/// The result holds the two sizes and then every cost at
/// `2 + backward_id + forward_id * backward_size`, `i16::MAX` where no line
/// gives one.
pub fn compile_matrix(text: &[u8]) -> (r: Result<Vec<i16>, MatrixError>)
    ensures
        match r {
            Ok(v) => matrix_of(text@) == Ok::<Seq<i16>, MatrixError>(v@),
            Err(e) => matrix_of(text@) == Err::<Seq<i16>, MatrixError>(e),
        },
{
    let lines = split_lines(text);
    let ls = match parse_matrix_lines(&lines) {
        Ok(v) => v,
        Err(k) => {
            return Err(MatrixError::Parse { line: k });
        },
    };
    let ghost all = nums_of(ls@);
    if ls.len() == 0 {
        return Err(MatrixError::MissingHeader);
    }
    assert(all[0] == ls@[0]@);
    if ls[0].len() != 2 {
        return Err(MatrixError::FieldCount { line: 0 });
    }
    let fs = ls[0][0];
    let bs = ls[0][1];
    assert(all[0][0] == fs && all[0][1] == bs);
    if !(0 <= fs && fs <= 0x7FFF && 0 <= bs && bs <= 0x7FFF) {
        return Err(MatrixError::SizeOutOfRange);
    }
    let ghost data = all.drop_first();
    let fsu = fs as usize;
    let bsu = bs as usize;
    assert(fsu * bsu <= 0x7FFF * 0x7FFF) by (nonlinear_arith)
        requires
            fsu <= 0x7FFF,
            bsu <= 0x7FFF,
    ;
    let cells: usize = fsu * bsu;
    let mut costs: Vec<i16> = Vec::with_capacity(cells + 2);
    costs.push(fs as i16);
    costs.push(bs as i16);
    let mut c: usize = 0;
    while c < cells
        invariant
            c <= cells,
            costs@ =~= seq![fs as i16, bs as i16] + Seq::new(c as nat, |i: int| 0x7FFFi16),
        decreases cells - c,
    {
        costs.push(0x7FFF);
        c = c + 1;
    }
    assert(data.subrange(0, 0) =~= Seq::<Seq<i32>>::empty());
    let m = ls.len();
    let mut j: usize = 1;
    while j < m
        invariant
            m == ls@.len() == all.len(),
            all == nums_of(ls@),
            data == all.drop_first(),
            1 <= j <= m,
            0 <= fs <= 0x7FFF,
            0 <= bs <= 0x7FFF,
            all.len() > 0 && all[0].len() == 2 && all[0][0] == fs && all[0][1] == bs,
            parsed_lines(text_lines(text@)) == Ok::<Seq<Seq<i32>>, nat>(all),
            cells == fs * bs,
            fsu == fs,
            bsu == bs,
            cells == fsu * bsu,
            cells <= 0x7FFF * 0x7FFF,
            costs@.len() == 2 + cells,
            data_error(fs as int, bs as int, data.subrange(0, j - 1)) is None,
            costs@ == matrix_costs(fs as int, bs as int, data.subrange(0, j - 1)),
        decreases m - j,
    {
        let ghost pre = data.subrange(0, j - 1);
        let ghost next = data.subrange(0, j as int);
        proof {
            assert(next.drop_last() =~= pre);
            assert(next.last() == ls@[j as int]@);
        }
        let line = &ls[j];
        if line.len() != 3 {
            proof {
                assert(data_error(fs as int, bs as int, next) == Some(MatrixError::FieldCount { line: j }));
                lemma_data_error_prefix(fs as int, bs as int, data, j as int, MatrixError::FieldCount { line: j });
            }
            return Err(MatrixError::FieldCount { line: j });
        }
        let f = line[0];
        let b = line[1];
        if !(0 <= f && f < fs && 0 <= b && b < bs) {
            proof {
                assert(data_error(fs as int, bs as int, next) == Some(MatrixError::IdOutOfRange { line: j }));
                lemma_data_error_prefix(fs as int, bs as int, data, j as int, MatrixError::IdOutOfRange { line: j });
            }
            return Err(MatrixError::IdOutOfRange { line: j });
        }
        let c = line[2];
        if !(-0x8000 <= c && c <= 0x7FFF) {
            proof {
                assert(data_error(fs as int, bs as int, next) == Some(MatrixError::CostOutOfRange { line: j }));
                lemma_data_error_prefix(fs as int, bs as int, data, j as int, MatrixError::CostOutOfRange { line: j });
            }
            return Err(MatrixError::CostOutOfRange { line: j });
        }
        let fu = f as usize;
        let bu = b as usize;
        assert(fu * bsu + bu < fsu * bsu) by (nonlinear_arith)
            requires
                fu < fsu,
                bu < bsu,
        ;
        let slot: usize = 2 + bu + fu * bsu;
        costs.set(slot, c as i16);
        j = j + 1;
    }
    assert(data.subrange(0, m - 1) =~= data);
    Ok(costs)
}

/// The matrix as consecutive little-endian `i16`s.
pub fn matrix_bytes(costs: &Vec<i16>) -> (r: Vec<u8>)
    ensures
        r@.len() == 2 * costs@.len(),
        forall|i: int| 0 <= i < costs@.len() ==> r@.subrange(2 * i, 2 * i + 2) == le_i16(#[trigger] costs@[i]),
{
    let n = costs.len();
    let mut r: Vec<u8> = Vec::new();
    let mut i: usize = 0;
    while i < n
        invariant
            n == costs@.len(),
            i <= n,
            r@.len() == 2 * i,
            forall|k: int| 0 <= k < i ==> r@.subrange(2 * k, 2 * k + 2) == le_i16(#[trigger] costs@[k]),
        decreases n - i,
    {
        let ghost old_r = r@;
        let mut b = i16_le_bytes(costs[i]);
        proof {
            crate::dict::lemma_le_bytes_len(
                (if costs@[i as int] < 0 { costs@[i as int] + 0x1_0000 } else { costs@[i as int] as int }) as nat, 2);
        }
        r.append(&mut b);
        proof {
            assert forall|k: int| 0 <= k < i + 1 implies r@.subrange(2 * k, 2 * k + 2) == le_i16(#[trigger] costs@[k]) by {
                if k < i {
                    assert(r@.subrange(2 * k, 2 * k + 2) =~= old_r.subrange(2 * k, 2 * k + 2));
                } else {
                    assert(r@.subrange(2 * k, 2 * k + 2) =~= le_i16(costs@[k]));
                }
            }
        }
        i = i + 1;
    }
    r
}

/// The cost that the last line naming forward id `f` and backward id `b`
/// gives, if any line does.
pub open spec fn last_cost(data: Seq<Seq<i32>>, f: int, b: int) -> Option<i16>
    decreases data.len(),
{
    if data.len() == 0 {
        None
    } else {
        let l = data.last();
        if l[0] == f && l[1] == b {
            Some(l[2] as i16)
        } else {
            last_cost(data.drop_last(), f, b)
        }
    }
}

proof fn lemma_slots_differ(f: int, b: int, g: int, c: int, bs: int)
    requires
        0 <= b < bs,
        0 <= c < bs,
        0 <= f,
        0 <= g,
        f != g || b != c,
    ensures
        cost_slot(f, b, bs) != cost_slot(g, c, bs),
{
    if f < g {
        assert(b + f * bs < c + g * bs) by (nonlinear_arith)
            requires
                f < g,
                0 <= b < bs,
                0 <= c,
        ;
    } else if g < f {
        assert(c + g * bs < b + f * bs) by (nonlinear_arith)
            requires
                g < f,
                0 <= c < bs,
                0 <= b,
        ;
    }
}

/// Every cell of a compiled matrix holds the cost of the last line that
/// names it, or `i16::MAX` where no line does; the two sizes come first.
pub proof fn law_matrix_cells(fs: int, bs: int, data: Seq<Seq<i32>>, f: int, b: int)
    requires
        0 <= fs <= 0x7FFF,
        0 <= bs <= 0x7FFF,
        data_error(fs, bs, data) is None,
        0 <= f < fs,
        0 <= b < bs,
    ensures
        matrix_costs(fs, bs, data).len() == 2 + fs * bs,
        matrix_costs(fs, bs, data)[0] == fs as i16,
        matrix_costs(fs, bs, data)[1] == bs as i16,
        matrix_costs(fs, bs, data)[cost_slot(f, b, bs)] == match last_cost(data, f, b) {
            Some(c) => c,
            None => 0x7FFFi16,
        },
    decreases data.len(),
{
    assert(b + f * bs < fs * bs) by (nonlinear_arith)
        requires
            0 <= f < fs,
            0 <= b < bs,
    ;
    if data.len() > 0 {
        let p = data.drop_last();
        if data_error(fs, bs, p) is Some {
            assert(data_error(fs, bs, data) is Some);
        }
        law_matrix_cells(fs, bs, p, f, b);
        let l = data.last();
        if !(l[0] == f && l[1] == b) {
            lemma_slots_differ(f, b, l[0] as int, l[1] as int, bs);
        }
        assert(cost_slot(l[0] as int, l[1] as int, bs) >= 2);
        assert(l[1] + l[0] * bs < fs * bs) by (nonlinear_arith)
            requires
                0 <= l[0] < fs,
                0 <= l[1] < bs,
        ;
    } else {
        let m = matrix_costs(fs, bs, data);
        assert(m[cost_slot(f, b, bs)] == 0x7FFFi16);
    }
}

} // verus!
