//! What the library assumes of `csv::StringRecord`, and the record
//! operations it proves on top of that.

use csv::StringRecord;
use vstd::prelude::*;
use vstd::string::StringSliceAdditionalSpecFns;

verus! {

/// A field of a record: the UTF-8 bytes of its text.
pub type Field = Seq<u8>;

/// A record as the contracts see it: its fields in order.
pub type Row = Seq<Field>;

/// `csv::StringRecord`, taken as it is: nothing inside it is visible to the
/// proofs, which know a record only by [`record_fields`].
#[verifier::external_type_specification]
#[verifier::external_body]
pub struct ExStringRecord(csv::StringRecord);

/// The fields that a `csv::StringRecord` holds, in order, each as the UTF-8
/// bytes of its text. The position that a reader may have attached to the
/// record is not part of it.
pub uninterp spec fn record_fields(record: StringRecord) -> Seq<Seq<u8>>;

/// Assumed of `StringRecord::new`: the new record has no fields.
pub assume_specification[ StringRecord::new ]() -> (record: StringRecord)
    ensures
        record_fields(record) == Seq::<Seq<u8>>::empty(),
;

/// Assumed of `StringRecord::len`: it returns the number of fields.
pub assume_specification[ StringRecord::len ](record: &StringRecord) -> (n: usize)
    ensures
        n == record_fields(*record).len(),
;

/// Assumed of `StringRecord::get`: it hands out the text of field `i` where
/// the record has one, and `None` where `i` is past the last field.
pub assume_specification<'a>[ StringRecord::get ](record: &'a StringRecord, i: usize) -> (field:
    Option<&'a str>)
    ensures
        match field {
            Some(text) => i < record_fields(*record).len() && text.spec_bytes() == record_fields(
                *record,
            )[i as int],
            None => i >= record_fields(*record).len(),
        },
;

/// Assumed of `StringRecord::push_field`: it appends `field` as the last
/// field and leaves the fields before it as they were.
pub assume_specification[ StringRecord::push_field ](record: &mut StringRecord, field: &str)
    ensures
        record_fields(*final(record)) == record_fields(*old(record)).push(field.spec_bytes()),
;

/// The rows that a list of records stands for.
pub open spec fn rows_of(records: Seq<StringRecord>) -> Seq<Row> {
    records.map_values(|record: StringRecord| record_fields(record))
}

/// The bytes of field `index` of `record`.
pub fn field_bytes<'a>(record: &'a StringRecord, index: usize) -> (bytes: &'a [u8])
    requires
        index < record_fields(*record).len(),
    ensures
        bytes@ == record_fields(*record)[index as int],
{
    let text = record.get(index).unwrap();
    text.as_bytes()
}

/// A new record holding the fields of `left` followed by those of `right`.
pub fn concat_records(left: &StringRecord, right: &StringRecord) -> (joined: StringRecord)
    ensures
        record_fields(joined) == record_fields(*left) + record_fields(*right),
{
    let mut joined = StringRecord::new();
    let left_len = left.len();
    let right_len = right.len();
    let mut i: usize = 0;
    while i < left_len
        invariant
            i <= left_len,
            left_len == record_fields(*left).len(),
            record_fields(joined) == record_fields(*left).take(i as int),
        decreases left_len - i,
    {
        let text = left.get(i).unwrap();
        joined.push_field(text);
        i += 1;
    }
    let mut j: usize = 0;
    while j < right_len
        invariant
            j <= right_len,
            right_len == record_fields(*right).len(),
            record_fields(joined) == record_fields(*left) + record_fields(*right).take(j as int),
        decreases right_len - j,
    {
        let text = right.get(j).unwrap();
        joined.push_field(text);
        j += 1;
    }
    joined
}

} // verus!
