//! The timestamp column of a batch, and the column kernels that the join runs
//! on it.
use std::ops::Range;

use arrow::array::{Array, AsArray, TimestampNanosecondArray, UInt32Array};
use arrow::buffer::NullBuffer;
use arrow::compute::{max, min, partition, sort_to_indices, take};
use arrow::datatypes::TimestampNanosecondType;
use arrow::error::ArrowError;
use vstd::prelude::*;

verus! {

/// One slot of a nanosecond timestamp column. A slot that is not valid is null;
/// its `value` is whatever the column's buffer holds there.
#[derive(Debug, Copy, Clone, Eq, PartialEq, Structural)]
pub struct TimeSlot {
    pub value: i64,
    pub valid: bool,
}

/// The error type of the column kernels.
#[verifier::external_type_specification]
#[verifier::external_body]
pub struct ExArrowError(ArrowError);

/// The column has a slot that is not null.
pub open spec fn has_timestamp(column: Seq<TimeSlot>) -> bool {
    exists|i: int| 0 <= i < column.len() && (#[trigger] column[i]).valid
}

/// `t` is the greatest timestamp of the column, nulls aside.
pub open spec fn is_max_timestamp(column: Seq<TimeSlot>, t: i64) -> bool {
    &&& exists|i: int| 0 <= i < column.len() && (#[trigger] column[i]).valid && column[i].value == t
    &&& forall|i: int|
        0 <= i < column.len() && (#[trigger] column[i]).valid ==> column[i].value <= t
}

/// `t` is the least timestamp of the column, nulls aside.
pub open spec fn is_min_timestamp(column: Seq<TimeSlot>, t: i64) -> bool {
    &&& exists|i: int| 0 <= i < column.len() && (#[trigger] column[i]).valid && column[i].value == t
    &&& forall|i: int|
        0 <= i < column.len() && (#[trigger] column[i]).valid ==> t <= column[i].value
}

/// Ascending order of slots, nulls first.
pub open spec fn slot_le(a: TimeSlot, b: TimeSlot) -> bool {
    !a.valid || (b.valid && a.value <= b.value)
}

/// Two slots differ when one is null and the other is not, or when both are
/// timestamps and these differ. Two nulls do not differ.
pub open spec fn distinct(a: TimeSlot, b: TimeSlot) -> bool {
    a.valid != b.valid || (a.valid && a.value != b.value)
}

/// `order` lists each row of a batch of `rows` rows once.
pub open spec fn is_row_order(order: Seq<u32>, rows: nat) -> bool {
    &&& order.len() == rows
    &&& forall|i: int| 0 <= i < order.len() ==> #[trigger] order[i] < rows
    &&& order.no_duplicates()
}

/// `order` lists the rows of the column by ascending timestamp: nulls first, by
/// ascending row, then the timestamps. Rows of equal timestamps may come in any
/// order.
pub open spec fn is_time_order(column: Seq<TimeSlot>, order: Seq<u32>) -> bool {
    &&& is_row_order(order, column.len())
    &&& forall|i: int, j: int|
        0 <= i < j < order.len() ==> slot_le(
            column[(#[trigger] order[i]) as int],
            column[(#[trigger] order[j]) as int],
        )
    &&& forall|i: int, j: int|
        0 <= i < j < order.len() && !column[(#[trigger] order[j]) as int].valid
            ==> #[trigger] order[i] < order[j]
}

/// The slots of the column in the given order of rows.
pub open spec fn taken(column: Seq<TimeSlot>, order: Seq<u32>) -> Seq<TimeSlot> {
    Seq::new(order.len(), |i: int| column[order[i] as int])
}

/// The ranges cut `0..len` into consecutive pieces, none of them empty.
pub open spec fn are_consecutive(ranges: Seq<Range<usize>>, len: nat) -> bool {
    &&& ranges.len() == 0 <==> len == 0
    &&& ranges.len() > 0 ==> ranges[0].start == 0 && ranges.last().end == len
    &&& forall|i: int|
        0 <= i < ranges.len() ==> (#[trigger] ranges[i]).start < ranges[i].end <= len
    &&& forall|i: int, j: int|
        0 <= i && j == i + 1 && j < ranges.len() ==> (#[trigger] ranges[i]).end == (
        #[trigger] ranges[j]).start
}

/// The ranges are the longest runs of slots that do not differ.
pub open spec fn are_runs(slots: Seq<TimeSlot>, ranges: Seq<Range<usize>>) -> bool {
    &&& are_consecutive(ranges, slots.len())
    &&& forall|r: int, i: int|
        #![trigger ranges[r], slots[i]]
        0 <= r < ranges.len() && ranges[r].start < i < ranges[r].end ==> !distinct(
            slots[i - 1],
            slots[i],
        )
    &&& forall|r: int|
        0 < r < ranges.len() ==> distinct(
            slots[ranges[r].start - 1],
            slots[(#[trigger] ranges[r]).start as int],
        )
}

/// The greatest timestamp of a column that has one.
pub open spec fn latest(column: Seq<TimeSlot>) -> i64 {
    choose|t: i64| is_max_timestamp(column, t)
}

/// The least timestamp of a column that has one.
pub open spec fn earliest(column: Seq<TimeSlot>) -> i64 {
    choose|t: i64| is_min_timestamp(column, t)
}

/// The column `b` is the column `a` with its rows in another order: row `i` of `b`
/// is row `moved[i]` of `a`.
pub open spec fn is_reordering(a: Seq<TimeSlot>, b: Seq<TimeSlot>, moved: Seq<int>) -> bool {
    &&& a.len() == b.len()
    &&& a.len() == moved.len()
    &&& forall|i: int| 0 <= i < moved.len() ==> 0 <= #[trigger] moved[i] < a.len()
    &&& moved.no_duplicates()
    &&& forall|i: int| 0 <= i < b.len() ==> #[trigger] b[i] == a[moved[i]]
}

/// The column's buffer holds the same value for all nulls.
pub open spec fn nulls_agree(column: Seq<TimeSlot>) -> bool {
    forall|i: int, j: int|
        0 <= i < column.len() && 0 <= j < column.len() && !(#[trigger] column[i]).valid && !(
        #[trigger] column[j]).valid ==> column[i].value == column[j].value
}

/// A column has one greatest and one least timestamp.
pub(crate) proof fn lemma_extremes_are_unique(column: Seq<TimeSlot>)
    ensures
        forall|t: i64| #[trigger] is_max_timestamp(column, t) ==> latest(column) == t,
        forall|t: i64| #[trigger] is_min_timestamp(column, t) ==> earliest(column) == t,
{
    assert forall|t: i64| #[trigger] is_max_timestamp(column, t) implies latest(column) == t by {
        assert(is_max_timestamp(column, latest(column)));
    }
    assert forall|t: i64| #[trigger] is_min_timestamp(column, t) implies earliest(column) == t by {
        assert(is_min_timestamp(column, earliest(column)));
    }
}

/// A column that has a timestamp has a greatest and a least one.
pub(crate) proof fn lemma_extremes_exist(column: Seq<TimeSlot>)
    requires
        has_timestamp(column),
    ensures
        is_max_timestamp(column, latest(column)),
        is_min_timestamp(column, earliest(column)),
    decreases column.len(),
{
    let rest = column.drop_last();
    let last = column.last();
    let (greatest, least) = if has_timestamp(rest) {
        lemma_extremes_exist(rest);
        (
            if last.valid && last.value > latest(rest) { last.value } else { latest(rest) },
            if last.valid && last.value < earliest(rest) { last.value } else { earliest(rest) },
        )
    } else {
        (last.value, last.value)
    };
    assert forall|i: int| 0 <= i < column.len() && (#[trigger] column[i]).valid implies least
        <= column[i].value <= greatest by {
        if i < rest.len() {
            assert(rest[i].valid);
        }
    }
    if has_timestamp(rest) {
        let a = choose|i: int| 0 <= i < rest.len() && (#[trigger] rest[i]).valid && rest[i].value == latest(rest);
        let b = choose|i: int| 0 <= i < rest.len() && (#[trigger] rest[i]).valid && rest[i].value == earliest(rest);
        assert(column[a] == rest[a] && column[b] == rest[b]);
    }
    assert(column[column.len() - 1] == last);
    assert(is_max_timestamp(column, greatest));
    assert(is_min_timestamp(column, least));
}

/// In a column with a slot that is not null, the latest and the earliest timestamp
/// each stand in a slot that is not null, and every timestamp lies between them.
pub proof fn timestamps_lie_between_the_extremes(column: Seq<TimeSlot>)
    requires
        exists|i: int| 0 <= i < column.len() && (#[trigger] column[i]).valid,
    ensures
        has_timestamp(column),
        exists|i: int| 0 <= i < column.len() && (#[trigger] column[i]).valid && column[i].value == latest(column),
        exists|i: int| 0 <= i < column.len() && (#[trigger] column[i]).valid && column[i].value == earliest(column),
        forall|i: int|
            0 <= i < column.len() && (#[trigger] column[i]).valid ==> earliest(column) <= column[i].value <= latest(
                column,
            ),
{
    lemma_extremes_exist(column);
}

/// The order of its rows changes neither the greatest nor the least timestamp of a
/// column.
pub(crate) proof fn lemma_extremes_of_reordering(a: Seq<TimeSlot>, b: Seq<TimeSlot>, moved: Seq<int>)
    requires
        has_timestamp(a),
        is_reordering(a, b, moved),
    ensures
        has_timestamp(b),
        latest(b) == latest(a),
        earliest(b) == earliest(a),
{
    let r = choose|r: int| 0 <= r < a.len() && (#[trigger] a[r]).valid;
    let i = lemma_numbering_lists_all(moved, a.len(), r);
    assert(b[i].valid);
    lemma_extremes_exist(b);
    lemma_extremes_are_unique(a);
    assert forall|r: int| 0 <= r < a.len() && (#[trigger] a[r]).valid implies earliest(b) <= a[r].value
        <= latest(b) by {
        let i = lemma_numbering_lists_all(moved, a.len(), r);
        assert(b[i] == a[r]);
    }
    let k = choose|k: int| 0 <= k < b.len() && (#[trigger] b[k]).valid && b[k].value == latest(b);
    assert(a[moved[k]] == b[k]);
    assert(is_max_timestamp(a, latest(b)));
    let m = choose|m: int| 0 <= m < b.len() && (#[trigger] b[m]).valid && b[m].value == earliest(b);
    assert(a[moved[m]] == b[m]);
    assert(is_min_timestamp(a, earliest(b)));
}

/// Slots of one run do not differ from each other.
pub(crate) proof fn lemma_run_is_uniform(slots: Seq<TimeSlot>, ranges: Seq<Range<usize>>, r: int, i: int, j: int)
    requires
        are_runs(slots, ranges),
        0 <= r < ranges.len(),
        ranges[r].start <= i <= j < ranges[r].end,
    ensures
        !distinct(slots[i], slots[j]),
    decreases j - i,
{
    if i < j {
        lemma_run_is_uniform(slots, ranges, r, i, j - 1);
        assert(!distinct(slots[j - 1], slots[j]));
    }
}

/// Later ranges start after earlier ones.
pub(crate) proof fn lemma_ranges_ascend(ranges: Seq<Range<usize>>, len: nat, a: int, b: int)
    requires
        are_consecutive(ranges, len),
        0 <= a < b < ranges.len(),
    ensures
        ranges[a].end <= ranges[b].start,
    decreases b - a,
{
    if a + 1 < b {
        lemma_ranges_ascend(ranges, len, a, b - 1);
        assert(ranges[b - 1].end == ranges[b].start);
    } else {
        assert(ranges[a].end == ranges[b].start);
    }
}

/// Every position lies in one of the ranges.
pub(crate) proof fn lemma_ranges_cover(ranges: Seq<Range<usize>>, len: nat, i: int) -> (r: int)
    requires
        are_consecutive(ranges, len),
        0 <= i < len,
    ensures
        0 <= r < ranges.len(),
        ranges[r].start <= i < ranges[r].end,
{
    lemma_ranges_cover_from(ranges, len, i, ranges.len() - 1)
}

proof fn lemma_ranges_cover_from(ranges: Seq<Range<usize>>, len: nat, i: int, last: int) -> (r: int)
    requires
        are_consecutive(ranges, len),
        0 <= last < ranges.len(),
        0 <= i < ranges[last].end,
    ensures
        0 <= r <= last,
        ranges[r].start <= i < ranges[r].end,
    decreases last,
{
    if ranges[last].start <= i {
        last
    } else {
        assert(last > 0);
        assert(ranges[last - 1].end == ranges[last].start);
        lemma_ranges_cover_from(ranges, len, i, last - 1)
    }
}

/// An order of rows lists every row.
pub(crate) proof fn lemma_row_order_lists_all(order: Seq<u32>, rows: nat, row: int) -> (i: int)
    requires
        is_row_order(order, rows),
        0 <= row < rows,
    ensures
        0 <= i < order.len(),
        order[i] == row,
{
    let listed = order.map_values(|r: u32| r as int);
    let i = lemma_numbering_lists_all(listed, rows, row);
    assert(listed[i] == order[i] as int);
    i
}

/// Numbers below `rows`, as many as that and none twice, are all of them.
pub(crate) proof fn lemma_numbering_lists_all(listed: Seq<int>, rows: nat, row: int) -> (i: int)
    requires
        listed.len() == rows,
        forall|k: int| 0 <= k < listed.len() ==> 0 <= #[trigger] listed[k] < rows,
        listed.no_duplicates(),
        0 <= row < rows,
    ensures
        0 <= i < listed.len(),
        listed[i] == row,
{
    listed.unique_seq_to_set();
    let all = vstd::set_lib::set_int_range(0, rows as int);
    vstd::set_lib::lemma_int_range(0, rows as int);
    assert(listed.to_set().subset_of(all)) by {
        assert forall|x: int| listed.to_set().contains(x) implies all.contains(x) by {
            let k = choose|k: int| 0 <= k < listed.len() && listed[k] == x;
            assert(listed[k] < rows);
        }
    }
    vstd::set_lib::lemma_subset_equality(listed.to_set(), all);
    assert(listed.to_set().contains(row));
    choose|k: int| 0 <= k < listed.len() && listed[k] == row
}

/// Calls `arrow::compute::max`: the greatest timestamp of the column, nulls
/// aside, or nothing where every slot is null.
#[verifier::external_body]
pub(crate) fn max_timestamp(column: &Vec<TimeSlot>) -> (r: Option<i64>)
    ensures
        r is Some <==> has_timestamp(column@),
        r matches Some(t) ==> is_max_timestamp(column@, t),
{
    let nulls = NullBuffer::from_iter(column.iter().map(|slot| slot.valid));
    let array = TimestampNanosecondArray::new(column.iter().map(|slot| slot.value).collect(), Some(nulls));
    max(&array)
}

/// Calls `arrow::compute::min`: the least timestamp of the column, nulls aside,
/// or nothing where every slot is null.
#[verifier::external_body]
pub(crate) fn min_timestamp(column: &Vec<TimeSlot>) -> (r: Option<i64>)
    ensures
        r is Some <==> has_timestamp(column@),
        r matches Some(t) ==> is_min_timestamp(column@, t),
{
    let nulls = NullBuffer::from_iter(column.iter().map(|slot| slot.valid));
    let array = TimestampNanosecondArray::new(column.iter().map(|slot| slot.value).collect(), Some(nulls));
    min(&array)
}

/// Calls `arrow::compute::sort_to_indices` with its default options: the rows of
/// the column by ascending timestamp, nulls first. Sorting a timestamp column
/// does not fail. The kernel numbers rows by `u32`, so the column may hold no
/// more rows than that type can count.
#[verifier::external_body]
pub(crate) fn sort_rows(column: &Vec<TimeSlot>) -> (r: Result<Vec<u32>, ArrowError>)
    requires
        column@.len() <= u32::MAX,
    ensures
        r is Ok,
        r matches Ok(order) ==> is_time_order(column@, order@),
{
    let nulls = NullBuffer::from_iter(column.iter().map(|slot| slot.valid));
    let array = TimestampNanosecondArray::new(column.iter().map(|slot| slot.value).collect(), Some(nulls));
    sort_to_indices(&array, None, None).map(|indices| indices.values().to_vec())
}

/// Calls `arrow::compute::take`: the slots of the column at the given rows, in
/// the order in which these are given. Taking rows that the column has does not
/// fail.
#[verifier::external_body]
pub(crate) fn take_rows(column: &Vec<TimeSlot>, order: &Vec<u32>) -> (r: Result<Vec<TimeSlot>, ArrowError>)
    requires
        forall|i: int| 0 <= i < order@.len() ==> #[trigger] order@[i] < column@.len(),
    ensures
        r is Ok,
        r matches Ok(slots) ==> slots@ == taken(column@, order@),
{
    let nulls = NullBuffer::from_iter(column.iter().map(|slot| slot.valid));
    let array = TimestampNanosecondArray::new(column.iter().map(|slot| slot.value).collect(), Some(nulls));
    let sorted = take(&array, &UInt32Array::from(order.clone()), None)?;
    let sorted = sorted.as_primitive::<TimestampNanosecondType>();
    Ok((0..sorted.len()).map(|i| TimeSlot { value: sorted.value(i), valid: sorted.is_valid(i) }).collect())
}

/// Calls `arrow::compute::partition` on this one column: the longest runs of
/// consecutive slots that do not differ. Partitioning one timestamp column does
/// not fail.
#[verifier::external_body]
pub(crate) fn partition_rows(slots: &Vec<TimeSlot>) -> (r: Result<Vec<Range<usize>>, ArrowError>)
    ensures
        r is Ok,
        r matches Ok(ranges) ==> are_runs(slots@, ranges@),
{
    let nulls = NullBuffer::from_iter(slots.iter().map(|slot| slot.valid));
    let array = TimestampNanosecondArray::new(slots.iter().map(|slot| slot.value).collect(), Some(nulls));
    Ok(partition(&[std::sync::Arc::new(array)])?.ranges())
}

} // verus!
