pub mod text;
pub mod row;
pub mod encode;
pub mod lexicon;
pub mod dict;
pub mod matrix;
pub mod builder;

pub use builder::IpadicNeologdBuilder;
pub use dict::{compile_dict, DictArtifacts, DictError};
pub use matrix::{compile_matrix, matrix_bytes, MatrixError};
pub use row::{CsvRow, RowError};
