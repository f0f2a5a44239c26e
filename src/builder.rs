use vstd::prelude::*;

use crate::dict::{compile_dict, compiled, dict_error, is_lexicon_order, rows_too_large, DictArtifacts, DictError};
use crate::matrix::{compile_matrix, matrix_bytes, matrix_of, MatrixError};
use crate::encode::le_i16;
use crate::row::{row_error, row_of_line, CsvRow, RowError};
use crate::text::{normalize_text, normalized, split_lines, text_lines, views_of};

verus! {

/// The lines of all dictionary sources, in order, after normalization.
pub open spec fn source_lines(sources: Seq<Seq<u8>>) -> Seq<Seq<u8>>
    decreases sources.len(),
{
    if sources.len() == 0 {
        Seq::empty()
    } else {
        source_lines(sources.drop_last()) + text_lines(normalized(sources.last()))
    }
}

/// `rows` are the rows that `lines` hold, one for one.
pub open spec fn rows_of_lines(rows: Seq<CsvRow>, lines: Seq<Seq<u8>>) -> bool {
    &&& rows.len() == lines.len()
    &&& forall|i: int| 0 <= i < lines.len() ==> row_error(#[trigger] lines[i]) is None && row_of_line(rows[i], lines[i])
}

/// Line `k` is the first of `lines` that cannot be read, and `e` is why.
pub open spec fn first_bad_line(lines: Seq<Seq<u8>>, k: int, e: RowError) -> bool {
    &&& 0 <= k < lines.len()
    &&& row_error(lines[k]) == Some(e)
    &&& forall|i: int| 0 <= i < k ==> row_error(#[trigger] lines[i]) is None
}

/// Reads every line; fails on the first line that cannot be read.
pub fn parse_rows(lines: &Vec<Vec<u8>>) -> (r: Result<Vec<CsvRow>, DictError>)
    ensures
        match r {
            Ok(rows) => rows_of_lines(rows@, views_of(lines@)),
            Err(e) => e matches DictError::Row { line, error } && first_bad_line(views_of(lines@), line as int, error),
        },
{
    let ghost ls = views_of(lines@);
    let n = lines.len();
    let mut rows: Vec<CsvRow> = Vec::with_capacity(n);
    let mut i: usize = 0;
    while i < n
        invariant
            n == lines@.len() == ls.len(),
            ls == views_of(lines@),
            i <= n,
            rows@.len() == i,
            forall|k: int| 0 <= k < i ==> row_error(#[trigger] ls[k]) is None && row_of_line(rows@[k], ls[k]),
        decreases n - i,
    {
        assert(ls[i as int] == lines@[i as int]@);
        match CsvRow::from_line(lines[i].as_slice()) {
            Ok(row) => {
                rows.push(row);
            },
            Err(error) => {
                return Err(DictError::Row { line: i, error });
            },
        }
        i = i + 1;
    }
    Ok(rows)
}

/// Normalizes every source and splits it into lines, in order.
pub fn collect_lines(sources: &Vec<Vec<u8>>) -> (r: Vec<Vec<u8>>)
    ensures
        views_of(r@) == source_lines(views_of(sources@)),
{
    let ghost srcs = views_of(sources@);
    let n = sources.len();
    let mut out: Vec<Vec<u8>> = Vec::new();
    let mut i: usize = 0;
    assert(srcs.subrange(0, 0) =~= Seq::<Seq<u8>>::empty());
    assert(views_of(out@) =~= Seq::<Seq<u8>>::empty());
    while i < n
        invariant
            n == sources@.len() == srcs.len(),
            srcs == views_of(sources@),
            i <= n,
            views_of(out@) == source_lines(srcs.subrange(0, i as int)),
        decreases n - i,
    {
        proof {
            assert(srcs.subrange(0, i + 1).drop_last() =~= srcs.subrange(0, i as int));
            assert(srcs[i as int] == sources@[i as int]@);
        }
        let text = normalize_text(sources[i].as_slice());
        let mut lines = split_lines(text.as_slice());
        let ghost old_out = out@;
        let ghost new_lines = lines@;
        out.append(&mut lines);
        assert(views_of(out@) =~= views_of(old_out) + views_of(new_lines));
        i = i + 1;
    }
    assert(srcs.subrange(0, n as int) =~= srcs);
    out
}

/// Compiles an IPADIC-NEologd style dictionary.
pub struct IpadicNeologdBuilder {}

impl IpadicNeologdBuilder {
    pub fn new() -> (r: Self)
        ensures
            r == (IpadicNeologdBuilder {}),
    {
        IpadicNeologdBuilder {}
    }

    /// Compiles the dictionary sources (the contents of the CSV files, in
    /// the order they are read): every line becomes a row; a line that
    /// cannot be read fails the whole build.
    pub fn build_dict(&self, sources: &Vec<Vec<u8>>) -> (r: Result<DictArtifacts, DictError>)
        ensures
            ({
                let lines = source_lines(views_of(sources@));
                match r {
                    Err(DictError::Row { line, error }) => first_bad_line(lines, line as int, error),
                    _ => exists|rows: Seq<CsvRow>| #[trigger] rows_of_lines(rows, lines) && {
                        &&& rows_too_large(rows) ==> r == Err::<DictArtifacts, DictError>(DictError::TooLarge)
                        &&& !rows_too_large(rows) ==> exists|s: Seq<(Seq<u8>, u32)>|
                            is_lexicon_order(rows, s) && #[trigger] compiled(rows, s, r)
                                && (dict_error(rows, s) is None <==> r is Ok)
                    },
                }
            }),
    {
        let lines = collect_lines(sources);
        let rows = parse_rows(&lines)?;
        let r = compile_dict(&rows);
        assert(rows_of_lines(rows@, source_lines(views_of(sources@))));
        proof {
            if r is Err {
                assert(!(r->Err_0 is Row)) by {
                    if !rows_too_large(rows@) {
                        let s = choose|s: Seq<(Seq<u8>, u32)>| is_lexicon_order(rows@, s) && #[trigger] compiled(rows@, s, r);
                        assert(compiled(rows@, s, r));
                    }
                }
            }
        }
        r
    }

    /// Compiles the text of a connection-cost matrix into its stored form:
    /// consecutive little-endian `i16`s, the two sizes first.
    pub fn build_cost_matrix(&self, text: &[u8]) -> (r: Result<Vec<u8>, MatrixError>)
        ensures
            match r {
                Ok(b) => matrix_of(text@) is Ok && {
                    let m = matrix_of(text@)->Ok_0;
                    &&& b@.len() == 2 * m.len()
                    &&& forall|i: int| 0 <= i < m.len() ==> b@.subrange(2 * i, 2 * i + 2) == le_i16(#[trigger] m[i])
                },
                Err(e) => matrix_of(text@) == Err::<Seq<i16>, MatrixError>(e),
            },
    {
        let costs = compile_matrix(text)?;
        Ok(matrix_bytes(&costs))
    }
}

} // verus!
