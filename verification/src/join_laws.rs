//! What holds of every inner join: which rows it holds, and how often.

use crate::dataset::{column_index, is_first_occurrence, lemma_column_index, Table};
use crate::join::{
    inner_join_result, join_rows, lemma_all_rows_with_key, lemma_join_rows_are_pairs, matches_of,
    pair_with,
};
use crate::record::{Field, Row};
use crate::sorting::{
    all_have_column, has_key, lemma_count_within_group, lemma_no_row_with_key,
    lemma_rearranged_rows_come_from, rows_with_key,
};
use vstd::prelude::*;

verus! {

/// A row made of two parts splits in one way only, once the width of the
/// first part is fixed.
pub proof fn lemma_pair_splits_uniquely(a: Row, b: Row, c: Row, d: Row)
    requires
        a.len() == c.len(),
        a + b == c + d,
    ensures
        a == c,
        b == d,
{
    assert((a + b).take(a.len() as int) =~= a);
    assert((c + d).take(c.len() as int) =~= c);
    assert((a + b).skip(a.len() as int) =~= b);
    assert((c + d).skip(c.len() as int) =~= d);
}

/// Among the rows of `group` with `row` put in front of each, `l + r` occurs
/// as often as `r` occurs in `group` where `row` is `l`, and not at all where
/// it is another row of the same width.
proof fn lemma_count_paired(group: Seq<Row>, row: Row, l: Row, r: Row)
    requires
        row.len() == l.len(),
    ensures
        group.map_values(pair_with(row)).to_multiset().count(l + r) == if row == l {
            group.to_multiset().count(r)
        } else {
            0
        },
    decreases group.len(),
{
    broadcast use vstd::seq_lib::group_to_multiset_ensures;

    let paired = group.map_values(pair_with(row));
    if group.len() == 0 {
        assert(paired =~= Seq::<Row>::empty());
        assert(paired.to_multiset().count(l + r) == 0) by {
            if paired.to_multiset().count(l + r) > 0 {
                assert(paired.contains(l + r));
            }
        }
        assert(group.to_multiset().count(r) == 0) by {
            if group.to_multiset().count(r) > 0 {
                assert(group.contains(r));
            }
        }
    } else {
        let rest = group.drop_last();
        let last = group.last();
        lemma_count_paired(rest, row, l, r);
        assert(group =~= rest.push(last));
        assert(paired =~= rest.map_values(pair_with(row)).push(row + last));
        if row + last == l + r {
            lemma_pair_splits_uniquely(row, last, l, r);
        }
    }
}

/// Among the rows of `right` selected by `key`, `r` occurs as often as in
/// `right` where it carries `key`, and not at all where it does not.
proof fn lemma_count_in_group(right: Seq<Row>, index: int, key: Field, r: Row)
    ensures
        rows_with_key(right, index, key).to_multiset().count(r) == if r[index] == key {
            right.to_multiset().count(r)
        } else {
            0
        },
{
    let group = rows_with_key(right, index, key);
    if r[index] == key {
        lemma_count_within_group(right, index, r);
    } else if group.to_multiset().count(r) > 0 {
        vstd::seq_lib::to_multiset_contains(group, r);
        let i = choose|i: int| 0 <= i < group.len() && group[i] == r;
        right.lemma_filter_pred(has_key(index, key), i);
    }
}

/// Match completeness for the rows of a join. Let every left row be as wide
/// as `l`. Then `l` followed by `r` occurs in the join as often as `l` occurs
/// on the left times as often as `r` occurs on the right, provided their keys
/// are equal; with different keys it does not occur.
pub proof fn lemma_join_rows_multiplicity(
    left: Seq<Row>,
    right: Seq<Row>,
    left_index: int,
    right_index: int,
    l: Row,
    r: Row,
)
    requires
        forall|a: int| 0 <= a < left.len() ==> (#[trigger] left[a]).len() == l.len(),
    ensures
        join_rows(left, right, left_index, right_index).to_multiset().count(l + r) == if l[left_index]
            == r[right_index] {
            left.to_multiset().count(l) * right.to_multiset().count(r)
        } else {
            0
        },
    decreases left.len(),
{
    broadcast use vstd::seq_lib::group_to_multiset_ensures;

    let joined = join_rows(left, right, left_index, right_index);
    if left.len() == 0 {
        assert(left.to_multiset().count(l) == 0) by {
            if left.to_multiset().count(l) > 0 {
                assert(left.contains(l));
            }
        }
        assert(joined.to_multiset().count(l + r) == 0) by {
            if joined.to_multiset().count(l + r) > 0 {
                assert(joined.contains(l + r));
            }
        }
    } else {
        let rest = left.drop_last();
        let row = left.last();
        let earlier = join_rows(rest, right, left_index, right_index);
        let added = matches_of(row, right, left_index, right_index);
        assert forall|a: int| 0 <= a < rest.len() implies (#[trigger] rest[a]).len() == l.len() by {
            assert(rest[a] == left[a]);
        }
        lemma_join_rows_multiplicity(rest, right, left_index, right_index, l, r);
        vstd::seq_lib::lemma_multiset_commutative(earlier, added);
        lemma_count_paired(rows_with_key(right, right_index, row[left_index]), row, l, r);
        lemma_count_in_group(right, right_index, row[left_index], r);
        assert(left =~= rest.push(row));
        let m = right.to_multiset().count(r);
        let c = rest.to_multiset().count(l);
        assert((c + 1) * m == c * m + m) by (nonlinear_arith);
    }
}

/// Duplicate fan-out for the rows of a join: the joined rows that carry `key`
/// are as many as the left rows that carry it times the right rows that
/// carry it.
pub proof fn lemma_join_rows_fan_out(
    left: Seq<Row>,
    right: Seq<Row>,
    left_index: int,
    right_index: int,
    key: Field,
)
    requires
        all_have_column(left, left_index),
    ensures
        rows_with_key(join_rows(left, right, left_index, right_index), left_index, key).len()
            == rows_with_key(left, left_index, key).len() * rows_with_key(
            right,
            right_index,
            key,
        ).len(),
    decreases left.len(),
{
    if left.len() == 0 {
        lemma_no_row_with_key(Seq::<Row>::empty(), left_index, key);
        assert(left =~= Seq::<Row>::empty());
    } else {
        let rest = left.drop_last();
        let row = left.last();
        let earlier = join_rows(rest, right, left_index, right_index);
        let group = rows_with_key(right, right_index, row[left_index]);
        let added = matches_of(row, right, left_index, right_index);
        assert forall|a: int| 0 <= a < rest.len() implies left_index < (#[trigger] rest[a]).len() by {
            assert(rest[a] == left[a]);
        }
        lemma_join_rows_fan_out(rest, right, left_index, right_index, key);
        Seq::filter_distributes_over_add(earlier, added, has_key(left_index, key));
        assert(left =~= rest.push(row));
        rest.lemma_filter_push(row, has_key(left_index, key));
        assert forall|i: int| 0 <= i < added.len() implies (#[trigger] added[i])[left_index]
            == row[left_index] by {
            assert(added[i] == row + group[i]);
        }
        let m = rows_with_key(right, right_index, key).len();
        let c = rows_with_key(rest, left_index, key).len();
        if row[left_index] == key {
            lemma_all_rows_with_key(added, left_index, key);
            assert((c + 1) * m == c * m + m) by (nonlinear_arith);
        } else {
            lemma_no_row_with_key(added, left_index, key);
        }
    }
}

/// The inputs of a join hold the same rows afterwards, group by group in the
/// same order, and stay well formed.
pub proof fn lemma_inputs_rearranged(
    left: Table,
    right: Table,
    key: Field,
    left_after: Table,
    right_after: Table,
    joined: Table,
)
    requires
        inner_join_result(left, right, key, left_after, right_after, joined),
    ensures
        left_after.rows.to_multiset() == left.rows.to_multiset(),
        right_after.rows.to_multiset() == right.rows.to_multiset(),
        forall|k: Field| #[trigger]
            rows_with_key(left_after.rows, column_index(left.headers, key)->0, k) == rows_with_key(
                left.rows,
                column_index(left.headers, key)->0,
                k,
            ),
        forall|k: Field| #[trigger]
            rows_with_key(right_after.rows, column_index(right.headers, key)->0, k)
                == rows_with_key(right.rows, column_index(right.headers, key)->0, k),
        left.well_formed() ==> left_after.well_formed(),
        right.well_formed() ==> right_after.well_formed(),
{
    lemma_rearranged_rows_come_from(left.rows, left_after.rows);
    lemma_rearranged_rows_come_from(right.rows, right_after.rows);
    if left.well_formed() {
        assert forall|i: int| 0 <= i < left_after.rows.len() implies (
        #[trigger] left_after.rows[i]).len() == left_after.headers.len() by {
            let row = left_after.rows[i];
            let j = choose|j: int| 0 <= j < left.rows.len() && left.rows[j] == row;
            assert(left.rows[j].len() == left.headers.len());
        }
    }
    if right.well_formed() {
        assert forall|i: int| 0 <= i < right_after.rows.len() implies (
        #[trigger] right_after.rows[i]).len() == right_after.headers.len() by {
            let row = right_after.rows[i];
            let j = choose|j: int| 0 <= j < right.rows.len() && right.rows[j] == row;
            assert(right.rows[j].len() == right.headers.len());
        }
    }
}

/// Match completeness. Take a row `l` as wide as the left table and any row
/// `r`. Where their keys are equal, `l` followed by `r` occurs in the joined
/// table as often as `l` occurs in the left table times as often as `r` occurs
/// in the right one: once for every pair of a left and a right row, neither
/// more nor less. Where their keys differ it does not occur.
pub proof fn lemma_inner_join_complete(
    left: Table,
    right: Table,
    key: Field,
    left_after: Table,
    right_after: Table,
    joined: Table,
    l: Row,
    r: Row,
)
    requires
        left.well_formed(),
        inner_join_result(left, right, key, left_after, right_after, joined),
        l.len() == left.headers.len(),
    ensures
        joined.rows.to_multiset().count(l + r) == if l[column_index(left.headers, key)->0]
            == r[column_index(right.headers, key)->0] {
            left.rows.to_multiset().count(l) * right.rows.to_multiset().count(r)
        } else {
            0
        },
{
    lemma_inputs_rearranged(left, right, key, left_after, right_after, joined);
    lemma_join_rows_multiplicity(
        left_after.rows,
        right_after.rows,
        column_index(left.headers, key)->0,
        column_index(right.headers, key)->0,
        l,
        r,
    );
}

/// Every row of the joined table is a row of the left table followed by a row
/// of the right table that carries the same key. The result names one such
/// pair of positions.
pub proof fn lemma_inner_join_rows_are_matches(
    left: Table,
    right: Table,
    key: Field,
    left_after: Table,
    right_after: Table,
    joined: Table,
    n: int,
) -> (pair: (int, int))
    requires
        inner_join_result(left, right, key, left_after, right_after, joined),
        0 <= n < joined.rows.len(),
    ensures
        0 <= pair.0 < left.rows.len(),
        0 <= pair.1 < right.rows.len(),
        left.rows[pair.0][column_index(left.headers, key)->0] == right.rows[pair.1][column_index(
            right.headers,
            key,
        )->0],
        joined.rows[n] == left.rows[pair.0] + right.rows[pair.1],
{
    lemma_inputs_rearranged(left, right, key, left_after, right_after, joined);
    let sorted_pair = lemma_join_rows_are_pairs(
        left_after.rows,
        right_after.rows,
        column_index(left.headers, key)->0,
        column_index(right.headers, key)->0,
        n,
    );
    lemma_rearranged_rows_come_from(left.rows, left_after.rows);
    lemma_rearranged_rows_come_from(right.rows, right_after.rows);
    let l = left_after.rows[sorted_pair.0];
    let r = right_after.rows[sorted_pair.1];
    let a = choose|a: int| 0 <= a < left.rows.len() && left.rows[a] == l;
    let b = choose|b: int| 0 <= b < right.rows.len() && right.rows[b] == r;
    (a, b)
}

/// No-match exclusion, left side. A row `l` as wide as the left table whose
/// key no right row carries is the left part of no joined row.
pub proof fn lemma_inner_join_excludes_unmatched_left(
    left: Table,
    right: Table,
    key: Field,
    left_after: Table,
    right_after: Table,
    joined: Table,
    l: Row,
)
    requires
        left.well_formed(),
        inner_join_result(left, right, key, left_after, right_after, joined),
        l.len() == left.headers.len(),
        forall|b: int|
            0 <= b < right.rows.len() ==> (#[trigger] right.rows[b])[column_index(
                right.headers,
                key,
            )->0] != l[column_index(left.headers, key)->0],
    ensures
        forall|n: int|
            0 <= n < joined.rows.len() ==> (#[trigger] joined.rows[n]).take(
                left.headers.len() as int,
            ) != l,
{
    assert forall|n: int| 0 <= n < joined.rows.len() implies (#[trigger] joined.rows[n]).take(
        left.headers.len() as int,
    ) != l by {
        let pair = lemma_inner_join_rows_are_matches(
            left,
            right,
            key,
            left_after,
            right_after,
            joined,
            n,
        );
        let a = left.rows[pair.0];
        let b = right.rows[pair.1];
        assert(a.len() == left.headers.len());
        assert((a + b).take(a.len() as int) =~= a);
    }
}

/// No-match exclusion, right side. A row `r` whose key no left row carries is
/// the right part of no joined row.
pub proof fn lemma_inner_join_excludes_unmatched_right(
    left: Table,
    right: Table,
    key: Field,
    left_after: Table,
    right_after: Table,
    joined: Table,
    r: Row,
)
    requires
        left.well_formed(),
        inner_join_result(left, right, key, left_after, right_after, joined),
        forall|a: int|
            0 <= a < left.rows.len() ==> (#[trigger] left.rows[a])[column_index(
                left.headers,
                key,
            )->0] != r[column_index(right.headers, key)->0],
    ensures
        forall|n: int|
            0 <= n < joined.rows.len() ==> (#[trigger] joined.rows[n]).skip(
                left.headers.len() as int,
            ) != r,
{
    assert forall|n: int| 0 <= n < joined.rows.len() implies (#[trigger] joined.rows[n]).skip(
        left.headers.len() as int,
    ) != r by {
        let pair = lemma_inner_join_rows_are_matches(
            left,
            right,
            key,
            left_after,
            right_after,
            joined,
            n,
        );
        let a = left.rows[pair.0];
        let b = right.rows[pair.1];
        assert(a.len() == left.headers.len());
        assert((a + b).skip(a.len() as int) =~= b);
    }
}

/// Duplicate fan-out. Where `m` rows of the left table and `n` rows of the
/// right table carry a key, `m * n` rows of the joined table carry it.
pub proof fn lemma_inner_join_fan_out(
    left: Table,
    right: Table,
    key: Field,
    left_after: Table,
    right_after: Table,
    joined: Table,
    value: Field,
)
    requires
        left.well_formed(),
        inner_join_result(left, right, key, left_after, right_after, joined),
    ensures
        rows_with_key(joined.rows, column_index(left.headers, key)->0, value).len()
            == rows_with_key(left.rows, column_index(left.headers, key)->0, value).len()
            * rows_with_key(right.rows, column_index(right.headers, key)->0, value).len(),
{
    let left_index = column_index(left.headers, key)->0;
    let right_index = column_index(right.headers, key)->0;
    lemma_inputs_rearranged(left, right, key, left_after, right_after, joined);
    lemma_column_index(left.headers, key);
    assert(column_index(left.headers, key) == Some(left_index));
    assert(is_first_occurrence(left.headers, key, left_index));
    assert(all_have_column(left_after.rows, left_index)) by {
        assert forall|i: int| 0 <= i < left_after.rows.len() implies left_index < (
        #[trigger] left_after.rows[i]).len() by {
            assert(left_after.rows[i].len() == left_after.headers.len());
        }
    }
    lemma_join_rows_fan_out(left_after.rows, right_after.rows, left_index, right_index, value);
    assert(rows_with_key(left_after.rows, left_index, value) == rows_with_key(
        left.rows,
        left_index,
        value,
    ));
    assert(rows_with_key(right_after.rows, right_index, value) == rows_with_key(
        right.rows,
        right_index,
        value,
    ));
}

} // verus!
