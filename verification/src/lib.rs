//! Sort-merge inner join of two in-memory tables of string fields.
//!
//! A [`DataSet`] holds a header record and a list of rows, each a
//! `csv::StringRecord`. Contracts speak of a record through
//! [`record::record_fields`], the sequence of its fields as UTF-8 bytes.

pub mod dataset;
pub mod error;
pub mod join;
pub mod join_laws;
pub mod lexical;
pub mod record;
pub mod sorting;

pub use dataset::DataSet;
pub use error::IndexError;
