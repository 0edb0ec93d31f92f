//! The sort-merge inner join of two tables on one named column.

use crate::dataset::{column_index, DataSet, Table};
use crate::error::IndexError;
use crate::lexical::{
    compare_bytes, lemma_lex_le_transitive, lemma_lex_trichotomy, lex_less, Comparison,
};
use crate::record::{concat_records, field_bytes, record_fields, rows_of, Field, Row};
use crate::sorting::{
    all_have_column, has_key, is_stable_sort, lemma_no_row_with_key, rows_with_key,
    sorted_by_column,
};
use csv::StringRecord;
use vstd::prelude::*;
use vstd::string::StringSliceAdditionalSpecFns;

verus! {

/// The map that puts `row` in front of another row.
pub open spec fn pair_with(row: Row) -> spec_fn(Row) -> Row {
    |other: Row| row + other
}

/// What one left row contributes to a join: itself joined to each row of
/// `right` whose key equals its own, in the order of `right`.
pub open spec fn matches_of(row: Row, right: Seq<Row>, left_index: int, right_index: int) -> Seq<
    Row,
> {
    rows_with_key(right, right_index, row[left_index]).map_values(pair_with(row))
}

/// The rows of the join of `left` and `right`: for each row of `left` in
/// turn, its matches in `right`.
pub open spec fn join_rows(left: Seq<Row>, right: Seq<Row>, left_index: int, right_index: int) -> Seq<
    Row,
>
    decreases left.len(),
{
    if left.len() == 0 {
        Seq::empty()
    } else {
        join_rows(left.drop_last(), right, left_index, right_index) + matches_of(
            left.last(),
            right,
            left_index,
            right_index,
        )
    }
}

/// What a successful join leaves behind: the joined table, and the two inputs
/// as they stand afterwards.
pub open spec fn inner_join_result(
    left: Table,
    right: Table,
    key: Field,
    left_after: Table,
    right_after: Table,
    joined: Table,
) -> bool {
    &&& column_index(left.headers, key) matches Some(left_index)
    &&& column_index(right.headers, key) matches Some(right_index)
    &&& joined.headers == left.headers + right.headers
    &&& joined.rows == join_rows(left_after.rows, right_after.rows, left_index, right_index)
    &&& left_after.headers == left.headers
    &&& right_after.headers == right.headers
    &&& if left.rows.len() == 0 || right.rows.len() == 0 {
        left_after.rows == left.rows && right_after.rows == right.rows
    } else {
        is_stable_sort(left.rows, left_after.rows, left_index) && is_stable_sort(
            right.rows,
            right_after.rows,
            right_index,
        )
    }
}

/// Taking one more left row into a join adds that row's matches at the end.
pub proof fn lemma_join_rows_step(
    left: Seq<Row>,
    right: Seq<Row>,
    left_index: int,
    right_index: int,
    n: int,
)
    requires
        0 <= n < left.len(),
    ensures
        join_rows(left.take(n + 1), right, left_index, right_index) == join_rows(
            left.take(n),
            right,
            left_index,
            right_index,
        ) + matches_of(left[n], right, left_index, right_index),
{
    assert(left.take(n + 1).drop_last() =~= left.take(n));
    assert(left.take(n + 1).last() == left[n]);
}

/// Left rows from `n` on that match nothing add nothing.
pub proof fn lemma_join_rows_rest(
    left: Seq<Row>,
    right: Seq<Row>,
    left_index: int,
    right_index: int,
    n: int,
)
    requires
        0 <= n <= left.len(),
        forall|a: int, b: int|
            n <= a < left.len() && 0 <= b < right.len() ==> (#[trigger] right[b])[right_index] != (
            #[trigger] left[a])[left_index],
    ensures
        join_rows(left, right, left_index, right_index) == join_rows(
            left.take(n),
            right,
            left_index,
            right_index,
        ),
    decreases left.len() - n,
{
    if n == left.len() {
        assert(left.take(n) =~= left);
    } else {
        lemma_join_rows_rest(left, right, left_index, right_index, n + 1);
        lemma_join_rows_step(left, right, left_index, right_index, n);
        assert forall|b: int| 0 <= b < right.len() implies (#[trigger] right[b])[right_index]
            != left[n][left_index] by {
            assert(right[b][right_index] != left[n][left_index]);
        }
        lemma_no_row_with_key(right, right_index, left[n][left_index]);
        assert(matches_of(left[n], right, left_index, right_index) =~= Seq::<Row>::empty());
    }
}

/// Rows that all carry `key` are all selected.
pub proof fn lemma_all_rows_with_key(rows: Seq<Row>, index: int, key: Field)
    requires
        forall|i: int| 0 <= i < rows.len() ==> (#[trigger] rows[i])[index] == key,
    ensures
        rows_with_key(rows, index, key) == rows,
    decreases rows.len(),
{
    reveal(Seq::filter);
    if rows.len() > 0 {
        lemma_all_rows_with_key(rows.drop_last(), index, key);
        assert(rows =~= rows.drop_last().push(rows.last()));
    } else {
        assert(rows_with_key(rows, index, key) =~= rows);
    }
}

/// Where the rows that carry `key` stand together, from `from` up to `to`,
/// they are the rows selected by `key`.
pub proof fn lemma_run_is_group(rows: Seq<Row>, index: int, key: Field, from: int, to: int)
    requires
        0 <= from <= to <= rows.len(),
        forall|i: int| 0 <= i < from ==> (#[trigger] rows[i])[index] != key,
        forall|i: int| from <= i < to ==> (#[trigger] rows[i])[index] == key,
        forall|i: int| to <= i < rows.len() ==> (#[trigger] rows[i])[index] != key,
    ensures
        rows_with_key(rows, index, key) == rows.subrange(from, to),
{
    let before = rows.subrange(0, from);
    let run = rows.subrange(from, to);
    let after = rows.subrange(to, rows.len() as int);
    assert(rows =~= before + run + after);
    Seq::filter_distributes_over_add(before + run, after, has_key(index, key));
    Seq::filter_distributes_over_add(before, run, has_key(index, key));
    assert forall|i: int| 0 <= i < before.len() implies (#[trigger] before[i])[index] != key by {
        assert(before[i] == rows[i]);
    }
    assert forall|i: int| 0 <= i < run.len() implies (#[trigger] run[i])[index] == key by {
        assert(run[i] == rows[from + i]);
    }
    assert forall|i: int| 0 <= i < after.len() implies (#[trigger] after[i])[index] != key by {
        assert(after[i] == rows[to + i]);
    }
    lemma_no_row_with_key(before, index, key);
    lemma_all_rows_with_key(run, index, key);
    lemma_no_row_with_key(after, index, key);
    assert(rows_with_key(before, index, key) + rows_with_key(run, index, key) + rows_with_key(
        after,
        index,
        key,
    ) =~= run);
}

/// Every row of a join is a left row followed by a right row with the same
/// key.
pub proof fn lemma_join_rows_are_pairs(
    left: Seq<Row>,
    right: Seq<Row>,
    left_index: int,
    right_index: int,
    n: int,
) -> (pair: (int, int))
    requires
        0 <= n < join_rows(left, right, left_index, right_index).len(),
    ensures
        0 <= pair.0 < left.len(),
        0 <= pair.1 < right.len(),
        left[pair.0][left_index] == right[pair.1][right_index],
        join_rows(left, right, left_index, right_index)[n] == left[pair.0] + right[pair.1],
    decreases left.len(),
{
    let rest = join_rows(left.drop_last(), right, left_index, right_index);
    if n < rest.len() {
        lemma_join_rows_are_pairs(left.drop_last(), right, left_index, right_index, n)
    } else {
        let row = left.last();
        let group = rows_with_key(right, right_index, row[left_index]);
        let other = group[n - rest.len()];
        right.lemma_filter_pred(has_key(right_index, row[left_index]), n - rest.len());
        assert(group.contains(other));
        right.lemma_filter_contains_rev(has_key(right_index, row[left_index]), other);
        let b = choose|b: int| 0 <= b < right.len() && right[b] == other;
        (left.len() - 1, b)
    }
}

/// Tells whether `records` has a row at `position` whose field at `index` is
/// `key`.
fn continues_run(records: &Vec<StringRecord>, position: usize, index: usize, key: &[u8]) -> (more:
    bool)
    requires
        all_have_column(rows_of(records@), index as int),
    ensures
        more == (position < records@.len() && rows_of(records@)[position as int][index as int]
            == key@),
{
    if position < records.len() {
        assert(rows_of(records@)[position as int] == record_fields(records@[position as int]));
        match compare_bytes(field_bytes(&records[position], index), key) {
            Comparison::Equal => true,
            _ => false,
        }
    } else {
        false
    }
}

/// What holds while the two sorted tables are scanned: `out` is the join of
/// the first `i` left rows, and the first `j` right rows come before every
/// left row that is still to be looked at.
spec fn scanning(
    left: Seq<Row>,
    right: Seq<Row>,
    left_index: int,
    right_index: int,
    i: int,
    j: int,
    out: Seq<Row>,
) -> bool {
    &&& 0 <= i <= left.len()
    &&& 0 <= j <= right.len()
    &&& sorted_by_column(left, left_index)
    &&& sorted_by_column(right, right_index)
    &&& out == join_rows(left.take(i), right, left_index, right_index)
    &&& forall|a: int, b: int|
        i <= a < left.len() && 0 <= b < j ==> lex_less(
            (#[trigger] right[b])[right_index],
            (#[trigger] left[a])[left_index],
        )
}

/// A left row smaller than the current right row matches nothing.
proof fn lemma_scan_less(
    left: Seq<Row>,
    right: Seq<Row>,
    left_index: int,
    right_index: int,
    i: int,
    j: int,
    out: Seq<Row>,
)
    requires
        scanning(left, right, left_index, right_index, i, j, out),
        i < left.len(),
        j < right.len(),
        lex_less(left[i][left_index], right[j][right_index]),
    ensures
        scanning(left, right, left_index, right_index, i + 1, j, out),
{
    let key = left[i][left_index];
    assert forall|b: int| 0 <= b < right.len() implies (#[trigger] right[b])[right_index]
        != key by {
        lemma_lex_trichotomy(right[b][right_index], key);
        lemma_lex_trichotomy(key, right[j][right_index]);
    }
    lemma_no_row_with_key(right, right_index, key);
    lemma_join_rows_step(left, right, left_index, right_index, i);
    assert(matches_of(left[i], right, left_index, right_index) =~= Seq::<Row>::empty());
    assert(out + Seq::<Row>::empty() =~= out);
}

/// A right row smaller than the current left row is smaller than every left
/// row still to come.
proof fn lemma_scan_greater(
    left: Seq<Row>,
    right: Seq<Row>,
    left_index: int,
    right_index: int,
    i: int,
    j: int,
    out: Seq<Row>,
)
    requires
        scanning(left, right, left_index, right_index, i, j, out),
        i < left.len(),
        j < right.len(),
        lex_less(right[j][right_index], left[i][left_index]),
    ensures
        scanning(left, right, left_index, right_index, i, j + 1, out),
{
    assert forall|a: int, b: int| i <= a < left.len() && 0 <= b < j + 1 implies lex_less(
        (#[trigger] right[b])[right_index],
        (#[trigger] left[a])[left_index],
    ) by {
        if b == j {
            lemma_lex_trichotomy(right[j][right_index], left[i][left_index]);
            lemma_lex_trichotomy(left[i][left_index], left[a][left_index]);
            if !lex_less(right[j][right_index], left[a][left_index]) {
                lemma_lex_le_transitive(
                    left[i][left_index],
                    left[a][left_index],
                    right[j][right_index],
                );
            }
        }
    }
}

/// Where the current rows match, the matches of the left row are the run of
/// right rows from `j` up to `k`.
proof fn lemma_scan_equal(
    left: Seq<Row>,
    right: Seq<Row>,
    left_index: int,
    right_index: int,
    i: int,
    j: int,
    k: int,
    out: Seq<Row>,
)
    requires
        scanning(left, right, left_index, right_index, i, j, out),
        i < left.len(),
        j < k <= right.len(),
        forall|b: int| j <= b < k ==> (#[trigger] right[b])[right_index] == left[i][left_index],
        k < right.len() ==> right[k][right_index] != left[i][left_index],
    ensures
        scanning(
            left,
            right,
            left_index,
            right_index,
            i + 1,
            j,
            out + right.subrange(j, k).map_values(pair_with(left[i])),
        ),
{
    let key = left[i][left_index];
    assert forall|b: int| 0 <= b < j implies (#[trigger] right[b])[right_index] != key by {
        lemma_lex_trichotomy(right[b][right_index], key);
    }
    assert forall|b: int| k <= b < right.len() implies (#[trigger] right[b])[right_index]
        != key by {
        assert(right[j][right_index] == key);
        lemma_lex_trichotomy(key, right[k][right_index]);
        lemma_lex_trichotomy(right[k][right_index], right[b][right_index]);
    }
    lemma_run_is_group(right, right_index, key, j, k);
    lemma_join_rows_step(left, right, left_index, right_index, i);
}

/// When either table is used up, the join is complete.
proof fn lemma_scan_done(
    left: Seq<Row>,
    right: Seq<Row>,
    left_index: int,
    right_index: int,
    i: int,
    j: int,
    out: Seq<Row>,
)
    requires
        scanning(left, right, left_index, right_index, i, j, out),
        i == left.len() || j == right.len(),
    ensures
        out == join_rows(left, right, left_index, right_index),
{
    if i == left.len() {
        assert(left.take(i) =~= left);
    } else {
        assert forall|a: int, b: int|
            i <= a < left.len() && 0 <= b < right.len() implies (#[trigger] right[b])[right_index]
            != (#[trigger] left[a])[left_index] by {
            lemma_lex_trichotomy(right[b][right_index], left[a][left_index]);
        }
        lemma_join_rows_rest(left, right, left_index, right_index, i);
    }
}

/// A join with a table that has no rows has no rows.
pub proof fn lemma_join_rows_empty(
    left: Seq<Row>,
    right: Seq<Row>,
    left_index: int,
    right_index: int,
)
    requires
        left.len() == 0 || right.len() == 0,
    ensures
        join_rows(left, right, left_index, right_index) == Seq::<Row>::empty(),
{
    if left.len() > 0 {
        lemma_join_rows_rest(left, right, left_index, right_index, 0);
        assert(left.take(0) =~= Seq::<Row>::empty());
    }
}

/// Joined rows are as wide as a left row and a right row together.
pub proof fn lemma_join_rows_width(
    left: Table,
    right: Table,
    left_index: int,
    right_index: int,
)
    requires
        left.well_formed(),
        right.well_formed(),
    ensures
        (Table {
            headers: left.headers + right.headers,
            rows: join_rows(left.rows, right.rows, left_index, right_index),
        }).well_formed(),
{
    let rows = join_rows(left.rows, right.rows, left_index, right_index);
    assert forall|n: int| 0 <= n < rows.len() implies (#[trigger] rows[n]).len() == (left.headers
        + right.headers).len() by {
        let pair = lemma_join_rows_are_pairs(left.rows, right.rows, left_index, right_index, n);
        assert(left.rows[pair.0].len() == left.headers.len());
        assert(right.rows[pair.1].len() == right.headers.len());
    }
}

impl DataSet {
    /// Joins this table, as the left one, with `right` on the column called
    /// `key`: every left row is paired with every right row that has the same
    /// value in that column, and the pair is one row of the result. The
    /// headers of the result are those of this table followed by those of
    /// `right`.
    ///
    /// Unless one of the tables has no rows, both are left sorted by the key
    /// column. Fails, and changes nothing, where one of the tables has no
    /// column called `key`.
    pub fn inner_join(&mut self, right: &mut DataSet, key: &str) -> (joined: Result<
        DataSet,
        IndexError,
    >)
        requires
            old(self).well_formed(),
            old(right).well_formed(),
        ensures
            final(self).well_formed(),
            final(right).well_formed(),
            match joined {
                Ok(table) => table.well_formed() && inner_join_result(
                    old(self)@,
                    old(right)@,
                    key.spec_bytes(),
                    final(self)@,
                    final(right)@,
                    table@,
                ),
                Err(IndexError::ColumnNotFound { column }) => column@ == key@ && (column_index(
                    old(self)@.headers,
                    key.spec_bytes(),
                ) is None || column_index(old(right)@.headers, key.spec_bytes()) is None)
                    && final(self)@ == old(self)@ && final(right)@ == old(right)@,
                Err(IndexError::IndexOutOfRange { .. }) => false,
            },
            joined is Ok ==> joined->Ok_0@.headers == old(self)@.headers + old(right)@.headers,
            joined is Ok && (old(self)@.rows.len() == 0 || old(right)@.rows.len() == 0)
                ==> joined->Ok_0@.rows.len() == 0,
    {
        let left_index = match self.key_index(key) {
            Ok(index) => index,
            Err(error) => {
                return Err(error);
            },
        };
        let right_index = match right.key_index(key) {
            Ok(index) => index,
            Err(error) => {
                return Err(error);
            },
        };
        let headers = concat_records(self.headers(), right.headers());
        let mut records: Vec<StringRecord> = Vec::new();
        if self.records().len() == 0 || right.records().len() == 0 {
            proof {
                lemma_join_rows_empty(
                    self@.rows,
                    right@.rows,
                    left_index as int,
                    right_index as int,
                );
                assert(rows_of(records@) =~= Seq::<Row>::empty());
            }
            return Ok(DataSet::new(headers, records));
        }
        match self.sort_by_index(left_index) {
            Ok(()) => {},
            Err(error) => {
                return Err(error);
            },
        }
        match right.sort_by_index(right_index) {
            Ok(()) => {},
            Err(error) => {
                return Err(error);
            },
        }
        let left_records = self.records();
        let right_records = right.records();
        let ghost left_rows = rows_of(left_records@);
        let ghost right_rows = rows_of(right_records@);
        let ghost li = left_index as int;
        let ghost ri = right_index as int;
        let left_len = left_records.len();
        let right_len = right_records.len();
        let mut i: usize = 0;
        let mut j: usize = 0;
        proof {
            assert(left_rows.take(0) =~= Seq::<Row>::empty());
            assert(rows_of(records@) =~= Seq::<Row>::empty());
        }
        while i < left_len && j < right_len
            invariant
                left_len == left_records@.len(),
                right_len == right_records@.len(),
                left_rows == rows_of(left_records@),
                right_rows == rows_of(right_records@),
                li == left_index as int,
                ri == right_index as int,
                all_have_column(left_rows, li),
                all_have_column(right_rows, ri),
                scanning(left_rows, right_rows, li, ri, i as int, j as int, rows_of(records@)),
            decreases left_len - i + (right_len - j),
        {
            assert(left_rows[i as int] == record_fields(left_records@[i as int]));
            assert(right_rows[j as int] == record_fields(right_records@[j as int]));
            let left_key = field_bytes(&left_records[i], left_index);
            let right_key = field_bytes(&right_records[j], right_index);
            match compare_bytes(left_key, right_key) {
                Comparison::Equal => {
                    let ghost before = rows_of(records@);
                    records.push(concat_records(&left_records[i], &right_records[j]));
                    let mut k: usize = j + 1;
                    let mut more = continues_run(right_records, k, right_index, left_key);
                    proof {
                        assert(rows_of(records@) =~= before + right_rows.subrange(
                            j as int,
                            k as int,
                        ).map_values(pair_with(left_rows[i as int])));
                    }
                    while more
                        invariant
                            right_len == right_records@.len(),
                            left_rows == rows_of(left_records@),
                            right_rows == rows_of(right_records@),
                            i < left_records@.len(),
                            li == left_index as int,
                            ri == right_index as int,
                            all_have_column(left_rows, li),
                            all_have_column(right_rows, ri),
                            left_key@ == left_rows[i as int][li],
                            j < k <= right_len,
                            forall|b: int|
                                j <= b < k ==> (#[trigger] right_rows[b])[ri] == left_key@,
                            more == (k < right_len && right_rows[k as int][ri] == left_key@),
                            rows_of(records@) == before + right_rows.subrange(
                                j as int,
                                k as int,
                            ).map_values(pair_with(left_rows[i as int])),
                        decreases right_len - k,
                    {
                        let ghost so_far = rows_of(records@);
                        let ghost run = right_rows.subrange(j as int, k as int);
                        assert(left_rows[i as int] == record_fields(left_records@[i as int]));
                        assert(right_rows[k as int] == record_fields(right_records@[k as int]));
                        records.push(concat_records(&left_records[i], &right_records[k]));
                        k += 1;
                        more = continues_run(right_records, k, right_index, left_key);
                        proof {
                            let pair = pair_with(left_rows[i as int]);
                            assert(right_rows.subrange(j as int, k as int) =~= run.push(
                                right_rows[k - 1],
                            ));
                            assert(run.push(right_rows[k - 1]).map_values(pair)
                                =~= run.map_values(pair).push(pair(right_rows[k - 1])));
                            assert(rows_of(records@) =~= so_far.push(
                                left_rows[i as int] + right_rows[k - 1],
                            ));
                            assert(rows_of(records@) =~= before + right_rows.subrange(
                                j as int,
                                k as int,
                            ).map_values(pair));
                        }
                    }
                    proof {
                        lemma_scan_equal(
                            left_rows,
                            right_rows,
                            li,
                            ri,
                            i as int,
                            j as int,
                            k as int,
                            before,
                        );
                    }
                    i += 1;
                },
                Comparison::Less => {
                    proof {
                        lemma_scan_less(
                            left_rows,
                            right_rows,
                            li,
                            ri,
                            i as int,
                            j as int,
                            rows_of(records@),
                        );
                    }
                    i += 1;
                },
                Comparison::Greater => {
                    proof {
                        lemma_scan_greater(
                            left_rows,
                            right_rows,
                            li,
                            ri,
                            i as int,
                            j as int,
                            rows_of(records@),
                        );
                    }
                    j += 1;
                },
            }
        }
        proof {
            lemma_scan_done(left_rows, right_rows, li, ri, i as int, j as int, rows_of(records@));
            lemma_join_rows_width(self@, right@, li, ri);
        }
        Ok(DataSet::new(headers, records))
    }
}

} // verus!
