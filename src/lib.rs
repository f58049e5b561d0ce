//! Multiset algebra over flat token grids: union, intersection and
//! difference of delimiter-separated rows, pairwise and across many grids.
pub mod arrange;
pub mod csvdata;
pub mod keys;
pub mod nway;
pub mod text;

pub use crate::csvdata::{CsvData, CsvDataIntoIterator, CsvDataIterator};
pub use crate::nway::{difference_all, intersection_all, pad, pad_checked, union_all};
pub mod laws;
