//! Stable sorting of rows by one column.

use crate::lexical::{compare_bytes, lemma_lex_le_transitive, lemma_lex_trichotomy, lex_le, Comparison};
use crate::record::{field_bytes, record_fields, rows_of, Field, Row};
use csv::StringRecord;
use vstd::prelude::*;

verus! {

/// Every row has a field at position `index`.
pub open spec fn all_have_column(rows: Seq<Row>, index: int) -> bool {
    &&& 0 <= index
    &&& forall|i: int| 0 <= i < rows.len() ==> index < (#[trigger] rows[i]).len()
}

/// The test "the field at `index` is `key`".
pub open spec fn has_key(index: int, key: Field) -> spec_fn(Row) -> bool {
    |row: Row| row[index] == key
}

/// The rows whose field at `index` is `key`, in the order in which `rows`
/// holds them.
pub open spec fn rows_with_key(rows: Seq<Row>, index: int, key: Field) -> Seq<Row> {
    rows.filter(has_key(index, key))
}

/// The fields at `index` never descend from one row to a later one.
pub open spec fn sorted_by_column(rows: Seq<Row>, index: int) -> bool {
    forall|i: int, j: int|
        0 <= i < j < rows.len() ==> lex_le((#[trigger] rows[i])[index], (#[trigger] rows[j])[index])
}

/// `after` is `before` sorted by the field at `index`, ties left in the order
/// they had: the same rows, ascending by that field, and for every key the
/// rows that carry it stand in the same order as before.
pub open spec fn is_stable_sort(before: Seq<Row>, after: Seq<Row>, index: int) -> bool {
    &&& after.to_multiset() == before.to_multiset()
    &&& sorted_by_column(after, index)
    &&& forall|key: Field| #[trigger]
        rows_with_key(after, index, key) == rows_with_key(before, index, key)
}

/// No row carries `key`, so none is selected.
pub proof fn lemma_no_row_with_key(rows: Seq<Row>, index: int, key: Field)
    requires
        forall|i: int| 0 <= i < rows.len() ==> (#[trigger] rows[i])[index] != key,
    ensures
        rows_with_key(rows, index, key) == Seq::<Row>::empty(),
    decreases rows.len(),
{
    reveal(Seq::filter);
    if rows.len() > 0 {
        lemma_no_row_with_key(rows.drop_last(), index, key);
    }
}

/// A row occurs in `rows` as often as among the rows that share its key.
pub proof fn lemma_count_within_group(rows: Seq<Row>, index: int, row: Row)
    ensures
        rows.to_multiset().count(row) == rows_with_key(rows, index, row[index]).to_multiset().count(
            row,
        ),
    decreases rows.len(),
{
    broadcast use vstd::seq_lib::group_to_multiset_ensures;

    let pred = has_key(index, row[index]);
    if rows.len() == 0 {
        reveal(Seq::filter);
    } else {
        let rest = rows.drop_last();
        let last = rows.last();
        assert(rows =~= rest.push(last));
        lemma_count_within_group(rest, index, row);
        rest.lemma_filter_push(last, pred);
    }
}

/// Rows that agree group by group are the same rows overall.
pub proof fn lemma_same_groups_same_rows(a: Seq<Row>, b: Seq<Row>, index: int)
    requires
        forall|key: Field| #[trigger] rows_with_key(a, index, key) == rows_with_key(b, index, key),
    ensures
        a.to_multiset() == b.to_multiset(),
{
    assert forall|row: Row| a.to_multiset().count(row) == b.to_multiset().count(row) by {
        lemma_count_within_group(a, index, row);
        lemma_count_within_group(b, index, row);
        assert(rows_with_key(a, index, row[index]) == rows_with_key(b, index, row[index]));
    }
    assert(a.to_multiset() =~= b.to_multiset());
}

/// Every row of a rearrangement is a row of what was rearranged.
pub proof fn lemma_rearranged_rows_come_from(before: Seq<Row>, after: Seq<Row>)
    requires
        after.to_multiset() == before.to_multiset(),
    ensures
        after.len() == before.len(),
        forall|i: int| 0 <= i < after.len() ==> before.contains(#[trigger] after[i]),
{
    vstd::seq_lib::to_multiset_len(after);
    vstd::seq_lib::to_multiset_len(before);
    assert forall|i: int| 0 <= i < after.len() implies before.contains(#[trigger] after[i]) by {
        let row = after[i];
        assert(after.contains(row));
        vstd::seq_lib::to_multiset_contains(after, row);
        vstd::seq_lib::to_multiset_contains(before, row);
    }
}

/// A rearrangement of rows that all have the column still has it in every row.
pub proof fn lemma_rearranged_rows_have_column(before: Seq<Row>, after: Seq<Row>, index: int)
    requires
        after.to_multiset() == before.to_multiset(),
        all_have_column(before, index),
    ensures
        all_have_column(after, index),
{
    lemma_rearranged_rows_come_from(before, after);
    assert forall|i: int| 0 <= i < after.len() implies index < (#[trigger] after[i]).len() by {
        let j = choose|j: int| 0 <= j < before.len() && before[j] == after[i];
        assert(index < before[j].len());
    }
}

/// Two sorted lists of rows that agree group by group are the same list.
proof fn lemma_sorted_same_groups_equal(a: Seq<Row>, b: Seq<Row>, index: int)
    requires
        sorted_by_column(a, index),
        sorted_by_column(b, index),
        forall|key: Field| #[trigger] rows_with_key(a, index, key) == rows_with_key(b, index, key),
    ensures
        a == b,
    decreases a.len(),
{
    lemma_same_groups_same_rows(a, b, index);
    vstd::seq_lib::to_multiset_len(a);
    vstd::seq_lib::to_multiset_len(b);
    if a.len() == 0 {
        assert(a =~= b);
    } else {
        let x = a.last();
        let y = b.last();
        let a_rest = a.drop_last();
        let b_rest = b.drop_last();
        assert(a =~= a_rest.push(x));
        assert(b =~= b_rest.push(y));
        assert(a.contains(x));
        assert(b.contains(y));
        vstd::seq_lib::to_multiset_contains(a, x);
        vstd::seq_lib::to_multiset_contains(b, x);
        vstd::seq_lib::to_multiset_contains(a, y);
        vstd::seq_lib::to_multiset_contains(b, y);
        let x_in_b = choose|i: int| 0 <= i < b.len() && b[i] == x;
        let y_in_a = choose|i: int| 0 <= i < a.len() && a[i] == y;
        assert(lex_le(b[x_in_b][index], y[index])) by {
            lemma_lex_trichotomy(x[index], y[index]);
        }
        assert(lex_le(a[y_in_a][index], x[index])) by {
            lemma_lex_trichotomy(y[index], x[index]);
        }
        lemma_lex_trichotomy(x[index], y[index]);
        let top = x[index];
        assert(y[index] == top);
        assert forall|key: Field| #[trigger]
            rows_with_key(a_rest, index, key) == rows_with_key(b_rest, index, key) by {
            a_rest.lemma_filter_push(x, has_key(index, key));
            b_rest.lemma_filter_push(y, has_key(index, key));
            assert(rows_with_key(a, index, key) == rows_with_key(b, index, key));
            if key == top {
                let ga = rows_with_key(a_rest, index, key);
                let gb = rows_with_key(b_rest, index, key);
                assert(ga.push(x) == gb.push(y));
                assert(ga =~= ga.push(x).drop_last());
                assert(gb =~= gb.push(y).drop_last());
            }
        }
        assert(x == y) by {
            a_rest.lemma_filter_push(x, has_key(index, top));
            b_rest.lemma_filter_push(y, has_key(index, top));
            assert(rows_with_key(a, index, top) == rows_with_key(b, index, top));
            let ga = rows_with_key(a_rest, index, top);
            let gb = rows_with_key(b_rest, index, top);
            assert(ga.push(x).last() == x);
            assert(gb.push(y).last() == y);
        }
        assert forall|i: int, j: int| 0 <= i < j < a_rest.len() implies lex_le(
            (#[trigger] a_rest[i])[index],
            (#[trigger] a_rest[j])[index],
        ) by {
            assert(a_rest[i] == a[i] && a_rest[j] == a[j]);
        }
        assert forall|i: int, j: int| 0 <= i < j < b_rest.len() implies lex_le(
            (#[trigger] b_rest[i])[index],
            (#[trigger] b_rest[j])[index],
        ) by {
            assert(b_rest[i] == b[i] && b_rest[j] == b[j]);
        }
        lemma_sorted_same_groups_equal(a_rest, b_rest, index);
    }
}

/// A list of rows has one stable sort by a column and no other.
pub proof fn lemma_stable_sort_unique(before: Seq<Row>, a: Seq<Row>, b: Seq<Row>, index: int)
    requires
        is_stable_sort(before, a, index),
        is_stable_sort(before, b, index),
    ensures
        a == b,
{
    assert forall|key: Field| #[trigger]
        rows_with_key(a, index, key) == rows_with_key(b, index, key) by {
        assert(rows_with_key(a, index, key) == rows_with_key(before, index, key));
        assert(rows_with_key(b, index, key) == rows_with_key(before, index, key));
    }
    lemma_sorted_same_groups_equal(a, b, index);
}

/// What holds while two sorted runs are merged from their ends: `left` and
/// `right` are what is left of the runs, `tail` is the end of the result.
spec fn merging(
    left0: Seq<Row>,
    right0: Seq<Row>,
    left: Seq<Row>,
    right: Seq<Row>,
    tail: Seq<Row>,
    index: int,
) -> bool {
    &&& all_have_column(left, index)
    &&& all_have_column(right, index)
    &&& sorted_by_column(left, index)
    &&& sorted_by_column(right, index)
    &&& sorted_by_column(tail, index)
    &&& forall|i: int, j: int|
        0 <= i < left.len() && 0 <= j < tail.len() ==> lex_le(
            (#[trigger] left[i])[index],
            (#[trigger] tail[j])[index],
        )
    &&& forall|i: int, j: int|
        0 <= i < right.len() && 0 <= j < tail.len() ==> lex_le(
            (#[trigger] right[i])[index],
            (#[trigger] tail[j])[index],
        )
    &&& forall|key: Field|
        rows_with_key(left, index, key) + rows_with_key(right, index, key) + #[trigger] rows_with_key(
            tail,
            index,
            key,
        ) == rows_with_key(left0, index, key) + rows_with_key(right0, index, key)
}

/// Before the first step nothing has been merged.
proof fn lemma_merge_start(left0: Seq<Row>, right0: Seq<Row>, index: int)
    requires
        all_have_column(left0, index),
        all_have_column(right0, index),
        sorted_by_column(left0, index),
        sorted_by_column(right0, index),
    ensures
        merging(left0, right0, left0, right0, Seq::<Row>::empty(), index),
{
    let tail = Seq::<Row>::empty();
    assert forall|key: Field|
        rows_with_key(left0, index, key) + rows_with_key(right0, index, key) + #[trigger] rows_with_key(
            tail,
            index,
            key,
        ) == rows_with_key(left0, index, key) + rows_with_key(right0, index, key) by {
        lemma_no_row_with_key(tail, index, key);
        assert(rows_with_key(left0, index, key) + rows_with_key(right0, index, key) + tail
            =~= rows_with_key(left0, index, key) + rows_with_key(right0, index, key));
    }
}

/// The last row of `right` may go in front of `tail` when it is no smaller
/// than the last row of `left`.
proof fn lemma_take_from_right(
    left0: Seq<Row>,
    right0: Seq<Row>,
    left: Seq<Row>,
    right: Seq<Row>,
    tail: Seq<Row>,
    index: int,
)
    requires
        merging(left0, right0, left, right, tail, index),
        right.len() > 0,
        left.len() > 0 ==> lex_le(left.last()[index], right.last()[index]),
    ensures
        merging(left0, right0, left, right.drop_last(), seq![right.last()] + tail, index),
{
    let row = right.last();
    let rest = right.drop_last();
    let grown = seq![row] + tail;
    assert(right =~= rest.push(row));
    assert forall|i: int, j: int| 0 <= i < left.len() && 0 <= j < grown.len() implies lex_le(
        (#[trigger] left[i])[index],
        (#[trigger] grown[j])[index],
    ) by {
        if j == 0 {
            lemma_lex_trichotomy(left[i][index], left.last()[index]);
            lemma_lex_le_transitive(left[i][index], left.last()[index], row[index]);
        } else {
            assert(grown[j] == tail[j - 1]);
        }
    }
    assert forall|i: int, j: int| 0 <= i < rest.len() && 0 <= j < grown.len() implies lex_le(
        (#[trigger] rest[i])[index],
        (#[trigger] grown[j])[index],
    ) by {
        assert(rest[i] == right[i]);
        if j > 0 {
            assert(grown[j] == tail[j - 1]);
        }
    }
    assert forall|i: int, j: int| 0 <= i < j < grown.len() implies lex_le(
        (#[trigger] grown[i])[index],
        (#[trigger] grown[j])[index],
    ) by {
        assert(grown[j] == tail[j - 1]);
        if i > 0 {
            assert(grown[i] == tail[i - 1]);
        }
    }
    assert forall|key: Field|
        rows_with_key(left, index, key) + rows_with_key(rest, index, key) + #[trigger] rows_with_key(
            grown,
            index,
            key,
        ) == rows_with_key(left0, index, key) + rows_with_key(right0, index, key) by {
        rest.lemma_filter_push(row, has_key(index, key));
        tail.lemma_filter_prepend(row, has_key(index, key));
        assert(rows_with_key(left, index, key) + rows_with_key(rest, index, key) + rows_with_key(
            grown,
            index,
            key,
        ) =~= rows_with_key(left, index, key) + rows_with_key(right, index, key) + rows_with_key(
            tail,
            index,
            key,
        ));
    }
    assert(sorted_by_column(rest, index)) by {
        assert forall|i: int, j: int| 0 <= i < j < rest.len() implies lex_le(
            (#[trigger] rest[i])[index],
            (#[trigger] rest[j])[index],
        ) by {
            assert(rest[i] == right[i] && rest[j] == right[j]);
        }
    }
    assert(all_have_column(rest, index)) by {
        assert forall|i: int| 0 <= i < rest.len() implies index < (#[trigger] rest[i]).len() by {
            assert(rest[i] == right[i]);
        }
    }
}

/// The last row of `left` may go in front of `tail` when it is greater than
/// the last row of `right`.
proof fn lemma_take_from_left(
    left0: Seq<Row>,
    right0: Seq<Row>,
    left: Seq<Row>,
    right: Seq<Row>,
    tail: Seq<Row>,
    index: int,
)
    requires
        merging(left0, right0, left, right, tail, index),
        left.len() > 0,
        right.len() > 0 ==> !lex_le(left.last()[index], right.last()[index]),
    ensures
        merging(left0, right0, left.drop_last(), right, seq![left.last()] + tail, index),
{
    let row = left.last();
    let rest = left.drop_last();
    let grown = seq![row] + tail;
    assert(left =~= rest.push(row));
    assert forall|i: int| 0 <= i < right.len() implies lex_le(
        (#[trigger] right[i])[index],
        row[index],
    ) && right[i][index] != row[index] by {
        lemma_lex_trichotomy(right[i][index], right.last()[index]);
        lemma_lex_trichotomy(right.last()[index], row[index]);
        lemma_lex_le_transitive(right[i][index], right.last()[index], row[index]);
    }
    assert forall|i: int, j: int| 0 <= i < right.len() && 0 <= j < grown.len() implies lex_le(
        (#[trigger] right[i])[index],
        (#[trigger] grown[j])[index],
    ) by {
        if j > 0 {
            assert(grown[j] == tail[j - 1]);
        }
    }
    assert forall|i: int, j: int| 0 <= i < rest.len() && 0 <= j < grown.len() implies lex_le(
        (#[trigger] rest[i])[index],
        (#[trigger] grown[j])[index],
    ) by {
        assert(rest[i] == left[i]);
        if j > 0 {
            assert(grown[j] == tail[j - 1]);
        }
    }
    assert forall|i: int, j: int| 0 <= i < j < grown.len() implies lex_le(
        (#[trigger] grown[i])[index],
        (#[trigger] grown[j])[index],
    ) by {
        assert(grown[j] == tail[j - 1]);
        if i > 0 {
            assert(grown[i] == tail[i - 1]);
        }
    }
    assert forall|key: Field|
        rows_with_key(rest, index, key) + rows_with_key(right, index, key) + #[trigger] rows_with_key(
            grown,
            index,
            key,
        ) == rows_with_key(left0, index, key) + rows_with_key(right0, index, key) by {
        rest.lemma_filter_push(row, has_key(index, key));
        tail.lemma_filter_prepend(row, has_key(index, key));
        if row[index] == key {
            lemma_no_row_with_key(right, index, key);
        }
        assert(rows_with_key(rest, index, key) + rows_with_key(right, index, key) + rows_with_key(
            grown,
            index,
            key,
        ) =~= rows_with_key(left, index, key) + rows_with_key(right, index, key) + rows_with_key(
            tail,
            index,
            key,
        ));
    }
    assert(sorted_by_column(rest, index)) by {
        assert forall|i: int, j: int| 0 <= i < j < rest.len() implies lex_le(
            (#[trigger] rest[i])[index],
            (#[trigger] rest[j])[index],
        ) by {
            assert(rest[i] == left[i] && rest[j] == left[j]);
        }
    }
    assert(all_have_column(rest, index)) by {
        assert forall|i: int| 0 <= i < rest.len() implies index < (#[trigger] rest[i]).len() by {
            assert(rest[i] == left[i]);
        }
    }
}

/// When both runs are used up, `tail` is their stable merge.
proof fn lemma_merge_done(left0: Seq<Row>, right0: Seq<Row>, tail: Seq<Row>, index: int)
    requires
        merging(left0, right0, Seq::<Row>::empty(), Seq::<Row>::empty(), tail, index),
    ensures
        is_stable_sort(left0 + right0, tail, index),
{
    let none = Seq::<Row>::empty();
    assert forall|key: Field| #[trigger]
        rows_with_key(tail, index, key) == rows_with_key(left0 + right0, index, key) by {
        lemma_no_row_with_key(none, index, key);
        Seq::filter_distributes_over_add(left0, right0, has_key(index, key));
        assert(rows_with_key(none, index, key) + rows_with_key(none, index, key) + rows_with_key(
            tail,
            index,
            key,
        ) =~= rows_with_key(tail, index, key));
    }
    lemma_same_groups_same_rows(tail, left0 + right0, index);
}

/// Merges two sorted runs into one. Where a row of `left` and a row of
/// `right` carry the same key, the row of `left` comes first.
fn merge(left: Vec<StringRecord>, right: Vec<StringRecord>, index: usize) -> (merged: Vec<
    StringRecord,
>)
    requires
        all_have_column(rows_of(left@), index as int),
        all_have_column(rows_of(right@), index as int),
        sorted_by_column(rows_of(left@), index as int),
        sorted_by_column(rows_of(right@), index as int),
    ensures
        is_stable_sort(rows_of(left@) + rows_of(right@), rows_of(merged@), index as int),
{
    let ghost left0 = rows_of(left@);
    let ghost right0 = rows_of(right@);
    let mut left = left;
    let mut right = right;
    // The end of the result, its last row first.
    let mut back: Vec<StringRecord> = Vec::new();
    let ghost mut tail = Seq::<Row>::empty();
    proof {
        lemma_merge_start(left0, right0, index as int);
        assert(rows_of(back@).reverse() =~= tail);
    }
    while left.len() > 0 || right.len() > 0
        invariant
            merging(left0, right0, rows_of(left@), rows_of(right@), tail, index as int),
            rows_of(back@).reverse() == tail,
        decreases left.len() + right.len(),
    {
        let ghost left_rows = rows_of(left@);
        let ghost right_rows = rows_of(right@);
        let from_right = if left.len() == 0 {
            true
        } else if right.len() == 0 {
            false
        } else {
            assert(left_rows[left.len() - 1] == record_fields(left@[left.len() - 1]));
            assert(right_rows[right.len() - 1] == record_fields(right@[right.len() - 1]));
            let left_key = field_bytes(&left[left.len() - 1], index);
            let right_key = field_bytes(&right[right.len() - 1], index);
            match compare_bytes(right_key, left_key) {
                Comparison::Less => false,
                _ => true,
            }
        };
        let row = if from_right {
            proof {
                lemma_take_from_right(left0, right0, left_rows, right_rows, tail, index as int);
                tail = seq![right_rows.last()] + tail;
            }
            let row = right.pop().unwrap();
            assert(rows_of(right@) =~= right_rows.drop_last());
            row
        } else {
            proof {
                lemma_take_from_left(left0, right0, left_rows, right_rows, tail, index as int);
                tail = seq![left_rows.last()] + tail;
            }
            let row = left.pop().unwrap();
            assert(rows_of(left@) =~= left_rows.drop_last());
            row
        };
        back.push(row);
        assert(rows_of(back@).reverse() =~= tail);
    }
    let mut merged: Vec<StringRecord> = Vec::new();
    assert(rows_of(merged@) + rows_of(back@).reverse() =~= tail);
    while back.len() > 0
        invariant
            rows_of(merged@) + rows_of(back@).reverse() == tail,
        decreases back.len(),
    {
        let ghost merged_rows = rows_of(merged@);
        let ghost back_rows = rows_of(back@);
        let row = back.pop().unwrap();
        merged.push(row);
        assert(rows_of(merged@) + rows_of(back@).reverse() =~= merged_rows + back_rows.reverse());
    }
    proof {
        assert(rows_of(merged@) =~= tail);
        assert(rows_of(left@) =~= Seq::<Row>::empty());
        assert(rows_of(right@) =~= Seq::<Row>::empty());
        lemma_merge_done(left0, right0, tail, index as int);
    }
    merged
}

/// Sorts `records` by the field at `index`, ascending in lexicographic byte
/// order. Rows with equal keys keep the order they came in.
pub fn stable_sort_by_column(records: Vec<StringRecord>, index: usize) -> (sorted: Vec<
    StringRecord,
>)
    requires
        all_have_column(rows_of(records@), index as int),
    ensures
        is_stable_sort(rows_of(records@), rows_of(sorted@), index as int),
    decreases records@.len(),
{
    let ghost before = rows_of(records@);
    let mut left = records;
    let len = left.len();
    if len <= 1 {
        return left;
    }
    let right = left.split_off(len / 2);
    let ghost left_before = rows_of(left@);
    let ghost right_before = rows_of(right@);
    assert(before =~= left_before + right_before);
    assert(all_have_column(left_before, index as int)) by {
        assert forall|i: int| 0 <= i < left_before.len() implies index < (
        #[trigger] left_before[i]).len() by {
            assert(left_before[i] == before[i]);
        }
    }
    assert(all_have_column(right_before, index as int)) by {
        assert forall|i: int| 0 <= i < right_before.len() implies index < (
        #[trigger] right_before[i]).len() by {
            assert(right_before[i] == before[len / 2 + i]);
        }
    }
    let left = stable_sort_by_column(left, index);
    let right = stable_sort_by_column(right, index);
    let ghost left_after = rows_of(left@);
    let ghost right_after = rows_of(right@);
    proof {
        lemma_rearranged_rows_have_column(left_before, left_after, index as int);
        lemma_rearranged_rows_have_column(right_before, right_after, index as int);
    }
    let sorted = merge(left, right, index);
    proof {
        let after = rows_of(sorted@);
        assert forall|key: Field| #[trigger]
            rows_with_key(after, index as int, key) == rows_with_key(before, index as int, key) by {
            Seq::filter_distributes_over_add(left_after, right_after, has_key(index as int, key));
            Seq::filter_distributes_over_add(left_before, right_before, has_key(index as int, key));
            assert(rows_with_key(after, index as int, key) == rows_with_key(
                left_after + right_after,
                index as int,
                key,
            ));
            assert(rows_with_key(left_after, index as int, key) == rows_with_key(
                left_before,
                index as int,
                key,
            ));
            assert(rows_with_key(right_after, index as int, key) == rows_with_key(
                right_before,
                index as int,
                key,
            ));
        }
        lemma_same_groups_same_rows(after, before, index as int);
    }
    sorted
}

} // verus!
