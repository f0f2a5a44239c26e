use vstd::prelude::*;

use crate::text::{parse_i32, parse_u32, split_bytes, split_on, u32_text, i32_text, views_of};

verus! {

/// Why a dictionary line could not be read.
#[derive(Clone, Copy, Debug, PartialEq, Eq, Structural)]
pub enum RowError {
    /// The line has fewer than thirteen comma-separated fields.
    MissingField,
    /// The left connection id is not a `u32`.
    LeftId,
    /// The right connection id is not a `u32`.
    RightId,
    /// The word cost is not an `i32`.
    WordCost,
}

/// One line of a dictionary source file. Text fields hold UTF-8 bytes.
#[derive(Clone, Debug)]
pub struct CsvRow {
    pub surface_form: Vec<u8>,
    pub left_id: u32,
    pub right_id: u32,
    pub word_cost: i32,
    pub pos_level1: Vec<u8>,
    pub pos_level2: Vec<u8>,
    pub pos_level3: Vec<u8>,
    pub pos_level4: Vec<u8>,
    pub conjugation_type: Vec<u8>,
    pub conjugate_form: Vec<u8>,
    pub base_form: Vec<u8>,
    pub reading: Vec<u8>,
    pub pronunciation: Vec<u8>,
}

/// The comma-separated fields of a line.
pub open spec fn line_fields(line: Seq<u8>) -> Seq<Seq<u8>> {
    split_on(line, 44)
}

/// The error that reading `line` gives, if any: a missing field first, then
/// the numeric fields in order. Fields after the thirteenth are ignored.
pub open spec fn row_error(line: Seq<u8>) -> Option<RowError> {
    let f = line_fields(line);
    if f.len() < 13 {
        Some(RowError::MissingField)
    } else if u32_text(f[1]) is None {
        Some(RowError::LeftId)
    } else if u32_text(f[2]) is None {
        Some(RowError::RightId)
    } else if i32_text(f[3]) is None {
        Some(RowError::WordCost)
    } else {
        None
    }
}

/// `row` holds what the fields of `line` say, field by field.
pub open spec fn row_of_line(row: CsvRow, line: Seq<u8>) -> bool {
    let f = line_fields(line);
    &&& f.len() >= 13
    &&& row.surface_form@ == f[0]
    &&& u32_text(f[1]) == Some(row.left_id)
    &&& u32_text(f[2]) == Some(row.right_id)
    &&& i32_text(f[3]) == Some(row.word_cost)
    &&& row.pos_level1@ == f[4]
    &&& row.pos_level2@ == f[5]
    &&& row.pos_level3@ == f[6]
    &&& row.pos_level4@ == f[7]
    &&& row.conjugation_type@ == f[8]
    &&& row.conjugate_form@ == f[9]
    &&& row.base_form@ == f[10]
    &&& row.reading@ == f[11]
    &&& row.pronunciation@ == f[12]
}

/// The nine linguistic fields of a row, in the order they are stored.
pub open spec fn detail_fields(row: CsvRow) -> Seq<Seq<u8>> {
    seq![
        row.pos_level1@,
        row.pos_level2@,
        row.pos_level3@,
        row.pos_level4@,
        row.conjugation_type@,
        row.conjugate_form@,
        row.base_form@,
        row.reading@,
        row.pronunciation@,
    ]
}

pub fn copy_bytes(v: &Vec<u8>) -> (r: Vec<u8>)
    ensures
        r@ == v@,
{
    let r = v.clone();
    assert(r@ =~= v@);
    r
}

impl CsvRow {
    /// Reads one dictionary line.
    pub fn from_line(line: &[u8]) -> (r: Result<CsvRow, RowError>)
        ensures
            match r {
                Ok(row) => row_error(line@) is None && row_of_line(row, line@),
                Err(e) => row_error(line@) == Some(e),
            },
    {
        let fields = split_bytes(line, 44);
        let ghost f = line_fields(line@);
        if fields.len() < 13 {
            return Err(RowError::MissingField);
        }
        proof {
            assert forall|k: int| 0 <= k < 13 implies #[trigger] fields@[k]@ == f[k] by {
                assert(views_of(fields@)[k] == fields@[k]@);
            }
        }
        let left_id = match parse_u32(fields[1].as_slice()) {
            Some(v) => v,
            None => return Err(RowError::LeftId),
        };
        let right_id = match parse_u32(fields[2].as_slice()) {
            Some(v) => v,
            None => return Err(RowError::RightId),
        };
        let word_cost = match parse_i32(fields[3].as_slice()) {
            Some(v) => v,
            None => return Err(RowError::WordCost),
        };
        Ok(CsvRow {
            surface_form: copy_bytes(&fields[0]),
            left_id,
            right_id,
            word_cost,
            pos_level1: copy_bytes(&fields[4]),
            pos_level2: copy_bytes(&fields[5]),
            pos_level3: copy_bytes(&fields[6]),
            pos_level4: copy_bytes(&fields[7]),
            conjugation_type: copy_bytes(&fields[8]),
            conjugate_form: copy_bytes(&fields[9]),
            base_form: copy_bytes(&fields[10]),
            reading: copy_bytes(&fields[11]),
            pronunciation: copy_bytes(&fields[12]),
        })
    }
}

} // verus!
