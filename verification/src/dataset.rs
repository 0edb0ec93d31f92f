//! The in-memory table: a header record and the rows under it.

use crate::error::IndexError;
use crate::lexical::{compare_bytes, Comparison};
use crate::record::{field_bytes, record_fields, rows_of, Field, Row};
use crate::sorting::{is_stable_sort, lemma_rearranged_rows_come_from, stable_sort_by_column};
use csv::StringRecord;
use vstd::prelude::*;
use vstd::string::StringSliceAdditionalSpecFns;

verus! {

/// A table as the contracts see it: the column names and the rows, every field
/// as its UTF-8 bytes.
pub struct Table {
    pub headers: Row,
    pub rows: Seq<Row>,
}

impl Table {
    /// Every row has as many fields as there are headers.
    pub open spec fn well_formed(self) -> bool {
        forall|i: int| 0 <= i < self.rows.len() ==> (#[trigger] self.rows[i]).len() == self.headers.len()
    }
}

/// `i` is the first position at which `headers` holds `name`.
pub open spec fn is_first_occurrence(headers: Row, name: Field, i: int) -> bool {
    &&& 0 <= i < headers.len()
    &&& headers[i] == name
    &&& forall|j: int| 0 <= j < i ==> headers[j] != name
}

/// The position of the column called `name`: that of the first header equal to
/// it, or `None` where no header is.
pub open spec fn column_index(headers: Row, name: Field) -> Option<int> {
    if headers.contains(name) {
        Some(choose|i: int| is_first_occurrence(headers, name, i))
    } else {
        None
    }
}

/// A name that occurs among the headers resolves to its first occurrence and
/// to nothing else; a name that does not occur resolves to nothing.
pub proof fn lemma_column_index(headers: Row, name: Field)
    ensures
        headers.contains(name) <==> column_index(headers, name) is Some,
        forall|i: int|
            column_index(headers, name) == Some(i) <==> is_first_occurrence(headers, name, i),
{
    if headers.contains(name) {
        lemma_first_occurrence_exists(headers, name, headers.len() as int);
        let chosen = choose|i: int| is_first_occurrence(headers, name, i);
        assert(is_first_occurrence(headers, name, chosen));
        assert forall|i: int| is_first_occurrence(headers, name, i) implies i == chosen by {
            if i < chosen {
            } else if chosen < i {
            }
        }
    } else {
        assert forall|i: int| !is_first_occurrence(headers, name, i) by {
            if 0 <= i < headers.len() && headers[i] == name {
                assert(headers.contains(name));
            }
        }
    }
}

/// If `name` occurs before position `end`, it has a first occurrence.
proof fn lemma_first_occurrence_exists(headers: Row, name: Field, end: int) -> (first: int)
    requires
        0 <= end <= headers.len(),
        exists|i: int| 0 <= i < end && headers[i] == name,
    ensures
        is_first_occurrence(headers, name, first),
    decreases end,
{
    if exists|i: int| 0 <= i < end - 1 && headers[i] == name {
        lemma_first_occurrence_exists(headers, name, end - 1)
    } else {
        end - 1
    }
}

/// A table of named columns and string-valued rows.
#[derive(Debug)]
pub struct DataSet {
    headers: StringRecord,
    records: Vec<StringRecord>,
}

impl View for DataSet {
    type V = Table;

    closed spec fn view(&self) -> Table {
        Table { headers: record_fields(self.headers), rows: rows_of(self.records@) }
    }
}

impl DataSet {
    /// Every row has as many fields as there are headers.
    pub open spec fn well_formed(&self) -> bool {
        self@.well_formed()
    }

    /// A table with the given headers and rows.
    pub fn new(headers: StringRecord, records: Vec<StringRecord>) -> (data: DataSet)
        ensures
            data@.headers == record_fields(headers),
            data@.rows == rows_of(records@),
    {
        DataSet { headers, records }
    }

    /// The header record.
    pub fn headers(&self) -> (headers: &StringRecord)
        ensures
            record_fields(*headers) == self@.headers,
    {
        &self.headers
    }

    /// The rows, in their current order.
    pub fn records(&self) -> (records: &Vec<StringRecord>)
        ensures
            rows_of(records@) == self@.rows,
    {
        &self.records
    }

    /// Tells whether every row has as many fields as there are headers.
    pub fn is_well_formed(&self) -> (ok: bool)
        ensures
            ok == self.well_formed(),
    {
        let width = self.headers.len();
        let count = self.records.len();
        let mut i: usize = 0;
        while i < count
            invariant
                i <= count,
                count == self.records@.len(),
                width == self@.headers.len(),
                forall|j: int| 0 <= j < i ==> (#[trigger] self@.rows[j]).len() == width,
            decreases count - i,
        {
            if self.records[i].len() != width {
                assert(self@.rows[i as int].len() != self@.headers.len());
                return false;
            }
            i += 1;
        }
        true
    }

    /// Finds the position of the column called `key`: that of the first header
    /// equal to it.
    pub fn key_index(&self, key: &str) -> (found: Result<usize, IndexError>)
        ensures
            match found {
                Ok(index) => is_first_occurrence(self@.headers, key.spec_bytes(), index as int)
                    && column_index(self@.headers, key.spec_bytes()) == Some(index as int),
                Err(IndexError::ColumnNotFound { column }) => column@ == key@
                    && !self@.headers.contains(key.spec_bytes()) && column_index(
                    self@.headers,
                    key.spec_bytes(),
                ) is None,
                Err(IndexError::IndexOutOfRange { .. }) => false,
            },
    {
        proof {
            lemma_column_index(self@.headers, key.spec_bytes());
        }
        let name = key.as_bytes();
        let width = self.headers.len();
        let mut i: usize = 0;
        while i < width
            invariant
                i <= width,
                width == self@.headers.len(),
                name@ == key.spec_bytes(),
                forall|j: int| 0 <= j < i ==> self@.headers[j] != name@,
            decreases width - i,
        {
            match compare_bytes(field_bytes(&self.headers, i), name) {
                Comparison::Equal => {
                    return Ok(i);
                },
                _ => {},
            }
            i += 1;
        }
        Err(IndexError::ColumnNotFound { column: key.to_owned() })
    }

    /// Sorts the rows by the field at `index`, ascending in lexicographic byte
    /// order; rows with equal keys keep their order. Fails, and changes
    /// nothing, where there is no column at `index`.
    pub fn sort_by_index(&mut self, index: usize) -> (sorted: Result<(), IndexError>)
        requires
            old(self).well_formed(),
        ensures
            final(self).well_formed(),
            final(self)@.headers == old(self)@.headers,
            match sorted {
                Ok(()) => index < old(self)@.headers.len() && is_stable_sort(
                    old(self)@.rows,
                    final(self)@.rows,
                    index as int,
                ),
                Err(error) => index >= old(self)@.headers.len() && error == (
                IndexError::IndexOutOfRange { index }) && final(self)@ == old(self)@,
            },
    {
        if index >= self.headers.len() {
            return Err(IndexError::IndexOutOfRange { index });
        }
        let ghost before = self@.rows;
        let mut records: Vec<StringRecord> = Vec::new();
        core::mem::swap(&mut self.records, &mut records);
        let records = stable_sort_by_column(records, index);
        self.records = records;
        proof {
            lemma_rearranged_rows_come_from(before, self@.rows);
        }
        Ok(())
    }
}

} // verus!
