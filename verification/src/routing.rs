//! How the rows of an arriving batch are routed: which event time each row
//! belongs to, and when a batch is refused.
use std::ops::Range;

use vstd::prelude::*;

use crate::timestamps::{
    are_consecutive, are_runs, distinct, earliest, has_timestamp, is_reordering, is_row_order, is_time_order, latest,
    max_timestamp, min_timestamp, nulls_agree, partition_rows, slot_le, sort_rows, taken, take_rows, TimeSlot,
};
use crate::timestamps::{
    lemma_extremes_are_unique, lemma_extremes_exist, lemma_extremes_of_reordering, lemma_numbering_lists_all,
    lemma_ranges_ascend, lemma_ranges_cover, lemma_row_order_lists_all, lemma_run_is_uniform,
    timestamps_lie_between_the_extremes,
};

verus! {

/// The two inputs of a join.
#[derive(Debug, Copy, Clone, Eq, PartialEq, Structural)]
pub enum Side {
    Left,
    Right,
}

impl Side {
    /// The name of the state table that keeps this side's batches.
    pub fn name(&self) -> (name: &'static str)
        ensures
            name@ == side_name(*self),
            *self is Left ==> name@ == "left"@,
            *self is Right ==> name@ == "right"@,
    {
        match self {
            Side::Left => "left",
            Side::Right => "right",
        }
    }
}

/// The name of a side, as characters.
pub open spec fn side_name(side: Side) -> Seq<char> {
    match side {
        Side::Left => "left"@,
        Side::Right => "right"@,
    }
}

/// The side of an input among all inputs of the operator: the first half of them
/// is the left side, the second half the right.
pub fn input_side(index: usize, total_inputs: usize) -> (side: Side)
    requires
        index < 2 * (total_inputs / 2),
    ensures
        side == (if index < total_inputs / 2 {
            Side::Left
        } else {
            Side::Right
        }),
{
    let half: usize = total_inputs / 2;
    proof {
        if index < half {
            vstd::arithmetic::div_mod::lemma_basic_div(index as int, half as int);
        } else {
            vstd::arithmetic::div_mod::lemma_fundamental_div_mod_converse(
                index as int,
                half as int,
                1,
                index - half,
            );
        }
    }
    match index / half {
        0 => Side::Left,
        _ => Side::Right,
    }
}

/// The event time of a timestamp, in nanoseconds since the epoch. A timestamp
/// before the epoch wraps around, to a time after all that do not.
pub open spec fn event_time(timestamp: i64) -> u128 {
    #[verifier::truncate]
    (timestamp as u128)
}

/// Rows of one event time: a range of positions in the routed order.
#[derive(Debug)]
pub struct Part {
    pub time: u128,
    pub rows: Range<usize>,
}

/// What becomes of the rows of a batch.
#[derive(Debug)]
pub enum Routing {
    /// The batch holds a timestamp before the watermark and is refused.
    Late { min_timestamp: i64, watermark: u128 },
    /// The rows go on, part by part. `order` lists the rows of the batch in the
    /// order in which the parts count them; without it they count as they stand.
    Rows { order: Option<Vec<u32>>, parts: Vec<Part> },
}

/// What is done with a batch that arrived on one side: it is kept in the side's
/// state table under `state_time`, and then routed.
#[derive(Debug)]
pub struct SidePlan {
    pub side: Side,
    pub state_time: u128,
    pub routing: Routing,
}

/// The watermark has passed the least timestamp of a batch.
pub open spec fn is_late(watermark: Option<u128>, min_timestamp: i64) -> bool {
    watermark matches Some(w) && w > event_time(min_timestamp)
}

/// The positions of the parts.
pub open spec fn part_rows(parts: Seq<Part>) -> Seq<Range<usize>> {
    parts.map_values(|part: Part| part.rows)
}

/// The parts are the runs of equal slots, each under the time of its first slot.
pub open spec fn are_parts_of(slots: Seq<TimeSlot>, parts: Seq<Part>) -> bool {
    &&& are_runs(slots, part_rows(parts))
    &&& forall|p: int|
        0 <= p < parts.len() ==> (#[trigger] parts[p]).time == event_time(
            slots[parts[p].rows.start as int].value,
        )
}

/// `routing` is how a batch with this timestamp column is routed.
///
/// It is refused when the watermark has passed its least timestamp. A batch of a
/// single timestamp goes on whole. Any other is sorted and cut into one part for
/// each timestamp, with the rows that have none in a part of their own at the
/// front, under the value that the column's buffer holds for the first of them.
pub open spec fn is_routing(column: Seq<TimeSlot>, watermark: Option<u128>, routing: Routing) -> bool {
    match routing {
        Routing::Late { min_timestamp, watermark: passed } => {
            &&& min_timestamp == earliest(column)
            &&& watermark == Some(passed)
            &&& is_late(watermark, earliest(column))
        },
        Routing::Rows { order: None, parts } => {
            &&& !is_late(watermark, earliest(column))
            &&& earliest(column) == latest(column)
            &&& parts@.len() == 1
            &&& parts@[0].time == event_time(latest(column))
            &&& parts@[0].rows.start == 0
            &&& parts@[0].rows.end == column.len()
        },
        Routing::Rows { order: Some(order), parts } => {
            &&& !is_late(watermark, earliest(column))
            &&& earliest(column) != latest(column)
            &&& is_time_order(column, order@)
            &&& are_parts_of(taken(column, order@), parts@)
        },
    }
}

/// The row that stands at a position of the routed order.
pub open spec fn row_at(order: Option<Vec<u32>>, position: int) -> int {
    match order {
        None => position,
        Some(order) => order@[position] as int,
    }
}

/// The part delivers the row.
pub open spec fn delivers(order: Option<Vec<u32>>, part: Part, row: int) -> bool {
    exists|position: int|
        part.rows.start <= position < part.rows.end && #[trigger] row_at(order, position) == row
}

/// Decides what is done with a batch that arrived on one side, from the
/// timestamp column of the batch and the last watermark that is known.
pub fn process_side(side: Side, column: &Vec<TimeSlot>, watermark: Option<u128>) -> (plan: SidePlan)
    requires
        has_timestamp(column@),
        earliest(column@) != latest(column@) ==> column@.len() <= u32::MAX,
    ensures
        plan.side == side,
        plan.state_time == event_time(latest(column@)),
        is_routing(column@, watermark, plan.routing),
        plan.routing is Late <==> (watermark matches Some(passed) && event_time(earliest(column@)) < passed),
{
    proof {
        lemma_extremes_are_unique(column@);
    }
    let max_timestamp: i64 = max_timestamp(column).unwrap();
    let state_time: u128 = #[verifier::truncate] (max_timestamp as u128);
    let min_timestamp: i64 = min_timestamp(column).unwrap();
    if let Some(passed) = watermark {
        if passed > #[verifier::truncate] (min_timestamp as u128) {
            let routing = Routing::Late { min_timestamp, watermark: passed };
            return SidePlan { side, state_time, routing };
        }
    }
    // We expect that a batch will usually hold a single timestamp, so we special case that.
    if max_timestamp == min_timestamp {
        let mut parts: Vec<Part> = Vec::new();
        parts.push(Part { time: state_time, rows: 0..column.len() });
        return SidePlan { side, state_time, routing: Routing::Rows { order: None, parts } };
    }
    // Otherwise, partition by time.
    let order = sort_rows(column).unwrap();
    let slots = take_rows(column, &order).unwrap();
    let ranges = partition_rows(&slots).unwrap();
    let mut parts: Vec<Part> = Vec::new();
    for r in 0..ranges.len()
        invariant
            are_runs(slots@, ranges@),
            part_rows(parts@) == ranges@.take(r as int),
            forall|p: int|
                0 <= p < parts@.len() ==> (#[trigger] parts@[p]).time == event_time(
                    slots@[parts@[p].rows.start as int].value,
                ),
    {
        let rows: Range<usize> = ranges[r].start..ranges[r].end;
        let time: u128 = #[verifier::truncate] (slots[rows.start].value as u128);
        let ghost before = parts@;
        parts.push(Part { time, rows });
        assert(part_rows(parts@) =~= part_rows(before).push(ranges@[r as int]));
        assert(ranges@.take(r + 1) =~= ranges@.take(r as int).push(ranges@[r as int]));
    }
    assert(ranges@.take(ranges@.len() as int) =~= ranges@);
    SidePlan { side, state_time, routing: Routing::Rows { order: Some(order), parts } }
}

/// Event times agree with timestamps from the epoch on. Earlier timestamps wrap
/// around.
pub proof fn event_time_value(timestamp: i64)
    ensures
        timestamp >= 0 ==> event_time(timestamp) == timestamp,
        timestamp < 0 ==> event_time(timestamp) == timestamp
            + 0x1_0000_0000_0000_0000_0000_0000_0000_0000,
{
    assert(timestamp < 0 ==> (timestamp as u128) == timestamp
        + 0x1_0000_0000_0000_0000_0000_0000_0000_0000) by (bit_vector);
}

/// The positions of the parts of an accepted batch are consecutive, from the
/// first row to the last.
proof fn lemma_parts_are_consecutive(
    column: Seq<TimeSlot>,
    watermark: Option<u128>,
    order: Option<Vec<u32>>,
    parts: Vec<Part>,
)
    requires
        has_timestamp(column),
        is_routing(column, watermark, Routing::Rows { order, parts }),
    ensures
        are_consecutive(part_rows(parts@), column.len()),
        order matches Some(order) ==> is_row_order(order@, column.len()),
{
}

/// Every row of an accepted batch is delivered.
pub proof fn every_row_is_delivered(
    column: Seq<TimeSlot>,
    watermark: Option<u128>,
    order: Option<Vec<u32>>,
    parts: Vec<Part>,
    row: int,
)
    requires
        has_timestamp(column),
        is_routing(column, watermark, Routing::Rows { order, parts }),
        0 <= row < column.len(),
    ensures
        exists|p: int| 0 <= p < parts@.len() && delivers(order, #[trigger] parts@[p], row),
{
    lemma_parts_are_consecutive(column, watermark, order, parts);
    let position = match order {
        None => row,
        Some(order) => lemma_row_order_lists_all(order@, column.len(), row),
    };
    let p = lemma_ranges_cover(part_rows(parts@), column.len(), position);
    assert(row_at(order, position) == row);
    assert(delivers(order, parts@[p], row));
}

/// A row of an accepted batch is delivered once: two positions of the parts that
/// hold the same row are the same position of the same part.
pub proof fn rows_are_delivered_once(
    column: Seq<TimeSlot>,
    watermark: Option<u128>,
    order: Option<Vec<u32>>,
    parts: Vec<Part>,
    p: int,
    q: int,
    i: int,
    j: int,
)
    requires
        has_timestamp(column),
        is_routing(column, watermark, Routing::Rows { order, parts }),
        0 <= p < parts@.len(),
        0 <= q < parts@.len(),
        parts@[p].rows.start <= i < parts@[p].rows.end,
        parts@[q].rows.start <= j < parts@[q].rows.end,
        row_at(order, i) == row_at(order, j),
    ensures
        p == q && i == j,
{
    lemma_parts_are_consecutive(column, watermark, order, parts);
    let ranges = part_rows(parts@);
    assert(ranges[p] == parts@[p].rows && ranges[q] == parts@[q].rows);
    if p < q {
        lemma_ranges_ascend(ranges, column.len(), p, q);
    } else if q < p {
        lemma_ranges_ascend(ranges, column.len(), q, p);
    }
}

/// A row of an accepted batch that has a timestamp is delivered under the event
/// time of that timestamp.
pub proof fn rows_are_delivered_under_their_time(
    column: Seq<TimeSlot>,
    watermark: Option<u128>,
    order: Option<Vec<u32>>,
    parts: Vec<Part>,
    p: int,
    row: int,
)
    requires
        has_timestamp(column),
        is_routing(column, watermark, Routing::Rows { order, parts }),
        0 <= p < parts@.len(),
        delivers(order, parts@[p], row),
        0 <= row < column.len(),
        column[row].valid,
    ensures
        parts@[p].time == event_time(column[row].value),
{
    lemma_parts_are_consecutive(column, watermark, order, parts);
    let position = choose|position: int|
        parts@[p].rows.start <= position < parts@[p].rows.end && #[trigger] row_at(order, position)
            == row;
    let ranges = part_rows(parts@);
    assert(ranges[p] == parts@[p].rows);
    match order {
        None => {
            lemma_extremes_exist(column);
        },
        Some(order) => {
            let slots = taken(column, order@);
            lemma_run_is_uniform(slots, ranges, p, ranges[p].start as int, position);
        },
    }
}

/// The slot with which a part starts.
pub open spec fn first_slot(column: Seq<TimeSlot>, order: Option<Vec<u32>>, part: Part) -> TimeSlot {
    column[row_at(order, part.rows.start as int)]
}

/// Two timestamps lie on the same side of the epoch, so that their event times
/// are ordered as they are.
pub open spec fn same_side_of_epoch(a: i64, b: i64) -> bool {
    a < 0 <==> b < 0
}

/// No part of an accepted batch lies before the watermark. Where the batch was
/// cut, this is said of a part that has timestamps, on the same side of the epoch
/// as the least of the batch. So a time that the watermark has passed gets no more
/// rows.
pub proof fn no_part_before_the_watermark(
    column: Seq<TimeSlot>,
    watermark: u128,
    order: Option<Vec<u32>>,
    parts: Vec<Part>,
    p: int,
)
    requires
        has_timestamp(column),
        is_routing(column, Some(watermark), Routing::Rows { order, parts }),
        0 <= p < parts@.len(),
        order is Some ==> {
            &&& first_slot(column, order, parts@[p]).valid
            &&& same_side_of_epoch(earliest(column), first_slot(column, order, parts@[p]).value)
        },
    ensures
        parts@[p].time >= watermark,
{
    lemma_extremes_exist(column);
    lemma_parts_are_consecutive(column, Some(watermark), order, parts);
    if let Some(order) = order {
        let row = order@[part_rows(parts@)[p].start as int] as int;
        event_time_value(earliest(column));
        event_time_value(column[row].value);
    }
}

/// The parts of an accepted batch have different times, in ascending order, where
/// they have timestamps on the same side of the epoch.
pub proof fn part_times_ascend(
    column: Seq<TimeSlot>,
    watermark: Option<u128>,
    order: Option<Vec<u32>>,
    parts: Vec<Part>,
    p: int,
    q: int,
)
    requires
        has_timestamp(column),
        is_routing(column, watermark, Routing::Rows { order, parts }),
        0 <= p < q < parts@.len(),
        first_slot(column, order, parts@[p]).valid,
        same_side_of_epoch(
            first_slot(column, order, parts@[p]).value,
            first_slot(column, order, parts@[q]).value,
        ),
    ensures
        parts@[p].time < parts@[q].time,
{
    lemma_parts_are_consecutive(column, watermark, order, parts);
    let ranges = part_rows(parts@);
    lemma_ranges_ascend(ranges, column.len(), p, q);
    if let Some(order) = order {
        let first = ranges[p].start as int;
        let before = ranges[q].start - 1;
        let second = ranges[q].start as int;
        let slots = taken(column, order@);
        assert(ranges[p].start < ranges[p].end);
        assert(distinct(slots[before], slots[second]));
        assert(slot_le(column[order@[before] as int], column[order@[second] as int]));
        if first < before {
            assert(slot_le(column[order@[first] as int], column[order@[before] as int]));
        }
        event_time_value(slots[first].value);
        event_time_value(slots[second].value);
    }
}

/// The time under which a batch is kept is no earlier than that of any of its
/// parts, so that it is kept for as long as one of them can be open. Where the
/// batch was cut, this is said of a part that has timestamps, on the same side of
/// the epoch as the greatest of the batch.
pub proof fn batch_is_kept_for_its_parts(
    column: Seq<TimeSlot>,
    watermark: Option<u128>,
    order: Option<Vec<u32>>,
    parts: Vec<Part>,
    p: int,
)
    requires
        has_timestamp(column),
        is_routing(column, watermark, Routing::Rows { order, parts }),
        0 <= p < parts@.len(),
        order is Some ==> {
            &&& first_slot(column, order, parts@[p]).valid
            &&& same_side_of_epoch(latest(column), first_slot(column, order, parts@[p]).value)
        },
    ensures
        parts@[p].time <= event_time(latest(column)),
{
    lemma_extremes_exist(column);
    lemma_parts_are_consecutive(column, watermark, order, parts);
    if let Some(order) = order {
        let row = order@[part_rows(parts@)[p].start as int] as int;
        event_time_value(latest(column));
        event_time_value(column[row].value);
    }
}

/// The row goes on under the given time.
pub open spec fn routed_under(routing: Routing, row: int, time: u128) -> bool {
    routing matches Routing::Rows { order, parts } && exists|p: int|
        0 <= p < parts@.len() && delivers(order, #[trigger] parts@[p], row) && parts@[p].time == time
}

/// Some part of the batch goes on under the given time.
pub open spec fn has_part_at(routing: Routing, time: u128) -> bool {
    routing matches Routing::Rows { parts, .. } && exists|p: int|
        0 <= p < parts@.len() && (#[trigger] parts@[p]).time == time
}

/// The order of its rows does not change where a batch goes: with its rows in
/// another order it is refused as before, or each row goes on under the time that it
/// had before, and the parts have the same times. Nulls that the buffer gives
/// different values are left out where the batch is cut: the first of them gives its
/// value to the others.
pub proof fn row_order_does_not_matter(
    a: Seq<TimeSlot>,
    b: Seq<TimeSlot>,
    moved: Seq<int>,
    watermark: Option<u128>,
    routing_a: Routing,
    routing_b: Routing,
)
    requires
        has_timestamp(a),
        is_reordering(a, b, moved),
        earliest(a) != latest(a) ==> nulls_agree(a),
        is_routing(a, watermark, routing_a),
        is_routing(b, watermark, routing_b),
    ensures
        latest(b) == latest(a),
        routing_b is Late <==> routing_a is Late,
        routing_a is Late ==> routing_b == routing_a,
        forall|row: int, time: u128|
            0 <= row < b.len() ==> (#[trigger] routed_under(routing_b, row, time) <==> routed_under(
                routing_a,
                moved[row],
                time,
            )),
        forall|time: u128| #[trigger] has_part_at(routing_b, time) <==> has_part_at(routing_a, time),
{
    lemma_extremes_of_reordering(a, b, moved);
    assert(earliest(b) != latest(b) ==> nulls_agree(b)) by {
        if earliest(b) != latest(b) {
            assert forall|i: int, j: int|
                0 <= i < b.len() && 0 <= j < b.len() && !(#[trigger] b[i]).valid && !(
                #[trigger] b[j]).valid implies b[i].value == b[j].value by {
                assert(b[i] == a[moved[i]]);
                assert(b[j] == a[moved[j]]);
            }
        }
    }
    assert forall|row: int, time: u128| 0 <= row < b.len() implies (#[trigger] routed_under(
        routing_b,
        row,
        time,
    ) <==> routed_under(routing_a, moved[row], time)) by {
        if routing_a is Rows {
            lemma_row_goes_under_its_time(a, watermark, routing_a, moved[row], time);
            lemma_row_goes_under_its_time(b, watermark, routing_b, row, time);
        }
    }
    assert forall|time: u128| #[trigger] has_part_at(routing_b, time) <==> has_part_at(routing_a, time) by {
        if routing_a is Rows {
            if has_part_at(routing_b, time) {
                let row = lemma_parts_deliver(b, watermark, routing_b, time);
                assert(routed_under(routing_a, moved[row], time));
            }
            if has_part_at(routing_a, time) {
                let row = lemma_parts_deliver(a, watermark, routing_a, time);
                let i = lemma_numbering_lists_all(moved, a.len(), row);
                assert(routed_under(routing_b, i, time));
            }
        }
    }
}

/// The time under which a row goes on, where nulls agree or the batch is not cut.
spec fn row_time(column: Seq<TimeSlot>, row: int) -> u128 {
    if earliest(column) == latest(column) {
        event_time(latest(column))
    } else {
        event_time(column[row].value)
    }
}

/// A row goes on under its time and no other.
proof fn lemma_row_goes_under_its_time(
    column: Seq<TimeSlot>,
    watermark: Option<u128>,
    routing: Routing,
    row: int,
    time: u128,
)
    requires
        has_timestamp(column),
        earliest(column) != latest(column) ==> nulls_agree(column),
        is_routing(column, watermark, routing),
        routing is Rows,
        0 <= row < column.len(),
    ensures
        routed_under(routing, row, time) <==> time == row_time(column, row),
{
    if let Routing::Rows { order, parts } = routing {
        lemma_parts_are_consecutive(column, watermark, order, parts);
        let ranges = part_rows(parts@);
        assert forall|p: int| 0 <= p < parts@.len() && delivers(order, #[trigger] parts@[p], row) implies parts@[p].time
            == row_time(column, row) by {
            assert(ranges[p] == parts@[p].rows);
            let position = choose|position: int|
                parts@[p].rows.start <= position < parts@[p].rows.end && #[trigger] row_at(order, position) == row;
            if let Some(order) = order {
                let slots = taken(column, order@);
                lemma_run_is_uniform(slots, ranges, p, ranges[p].start as int, position);
                assert(order@[ranges[p].start as int] < column.len());
            }
        }
        every_row_is_delivered(column, watermark, order, parts, row);
        let p = choose|p: int| 0 <= p < parts@.len() && delivers(order, #[trigger] parts@[p], row);
        assert(parts@[p].time == row_time(column, row));
    }
}

/// A part delivers a row under its time.
proof fn lemma_parts_deliver(column: Seq<TimeSlot>, watermark: Option<u128>, routing: Routing, time: u128) -> (row: int)
    requires
        has_timestamp(column),
        is_routing(column, watermark, routing),
        has_part_at(routing, time),
    ensures
        0 <= row < column.len(),
        routed_under(routing, row, time),
{
    if let Routing::Rows { order, parts } = routing {
        lemma_parts_are_consecutive(column, watermark, order, parts);
        let p = choose|p: int| 0 <= p < parts@.len() && (#[trigger] parts@[p]).time == time;
        assert(part_rows(parts@)[p] == parts@[p].rows);
        let start = parts@[p].rows.start as int;
        let row = row_at(order, start);
        assert(delivers(order, parts@[p], row));
        row
    } else {
        0
    }
}

/// A batch is refused exactly where the event time of its least timestamp lies before
/// the watermark. So it is refused only where a row of it is late, it is accepted
/// where every row is on time and where no watermark is known, and it is refused where
/// every row is late. Where no timestamp is before the epoch, one late row is enough.
pub proof fn only_late_batches_are_refused(column: Seq<TimeSlot>, watermark: Option<u128>, routing: Routing)
    requires
        exists|i: int| 0 <= i < column.len() && (#[trigger] column[i]).valid,
        is_routing(column, watermark, routing),
    ensures
        watermark is None ==> routing is Rows,
        watermark matches Some(passed) ==> {
            &&& routing is Late <==> exists|i: int|
                0 <= i < column.len() && (#[trigger] column[i]).valid && event_time(column[i].value) < passed && (
                forall|j: int|
                    0 <= j < column.len() && (#[trigger] column[j]).valid ==> column[i].value <= column[j].value)
            &&& (forall|i: int|
                0 <= i < column.len() && (#[trigger] column[i]).valid ==> event_time(column[i].value) >= passed)
                ==> routing is Rows
            &&& (forall|i: int|
                0 <= i < column.len() && (#[trigger] column[i]).valid ==> event_time(column[i].value) < passed)
                ==> routing is Late
            &&& (forall|i: int| 0 <= i < column.len() && (#[trigger] column[i]).valid ==> column[i].value >= 0) ==> (
            routing is Late <==> exists|i: int|
                0 <= i < column.len() && (#[trigger] column[i]).valid && column[i].value < passed)
        },
        routing matches Routing::Late { min_timestamp, watermark: passed } ==> {
            &&& watermark == Some(passed)
            &&& event_time(min_timestamp) < passed
            &&& exists|i: int|
                0 <= i < column.len() && (#[trigger] column[i]).valid && column[i].value == min_timestamp
            &&& forall|i: int|
                0 <= i < column.len() && (#[trigger] column[i]).valid ==> min_timestamp <= column[i].value
        },
{
    timestamps_lie_between_the_extremes(column);
    let least = choose|i: int|
        0 <= i < column.len() && (#[trigger] column[i]).valid && column[i].value == earliest(column);
    assert(column[least].valid);
    event_time_value(earliest(column));
}

/// Each row of an accepted batch stands at one place of one part, which the law gives.
/// A row that has a timestamp is there under the event time of that timestamp. Where
/// the batch was not cut, all its rows are under the one timestamp that there is.
pub proof fn each_row_has_its_place(
    column: Seq<TimeSlot>,
    watermark: Option<u128>,
    order: Option<Vec<u32>>,
    parts: Vec<Part>,
    row: int,
) -> (place: (int, int))
    requires
        exists|i: int| 0 <= i < column.len() && (#[trigger] column[i]).valid,
        is_routing(column, watermark, Routing::Rows { order, parts }),
        0 <= row < column.len(),
    ensures
        0 <= place.0 < parts@.len(),
        parts@[place.0].rows.start <= place.1 < parts@[place.0].rows.end <= column.len(),
        match order {
            None => place.1 == row,
            Some(order) => order@.len() == column.len() && order@[place.1] == row,
        },
        forall|p: int|
            0 <= p < parts@.len() && (#[trigger] parts@[p]).rows.start <= place.1 < parts@[p].rows.end ==> p
                == place.0,
        order matches Some(order) ==> forall|j: int| 0 <= j < order@.len() && #[trigger] order@[j] == row ==> j
            == place.1,
        column[row].valid ==> parts@[place.0].time == event_time(column[row].value),
        order is None ==> forall|i: int|
            0 <= i < column.len() && (#[trigger] column[i]).valid ==> parts@[place.0].time == event_time(
                column[i].value,
            ),
{
    timestamps_lie_between_the_extremes(column);
    lemma_parts_are_consecutive(column, watermark, order, parts);
    let ranges = part_rows(parts@);
    let position = match order {
        None => row,
        Some(order) => lemma_row_order_lists_all(order@, column.len(), row),
    };
    let p = lemma_ranges_cover(ranges, column.len(), position);
    assert(ranges[p] == parts@[p].rows);
    assert(row_at(order, position) == row);
    assert(delivers(order, parts@[p], row));
    if column[row].valid {
        rows_are_delivered_under_their_time(column, watermark, order, parts, p, row);
    }
    assert forall|q: int|
        0 <= q < parts@.len() && (#[trigger] parts@[q]).rows.start <= position < parts@[q].rows.end implies q
        == p by {
        rows_are_delivered_once(column, watermark, order, parts, q, p, position, position);
    }
    (p, position)
}

/// The parts of an accepted batch cut its rows from the first place to the last, one
/// behind the other and none of them empty. A batch is left whole exactly where it has
/// a single timestamp. Otherwise its rows are sorted, those without a timestamp first
/// and from the first row on; two places are in one part exactly where their rows have
/// the same timestamp or both have none; and rows without a timestamp are under what
/// the buffer holds for the first of them.
pub proof fn parts_are_the_rows_of_one_time(
    column: Seq<TimeSlot>,
    watermark: Option<u128>,
    order: Option<Vec<u32>>,
    parts: Vec<Part>,
)
    requires
        exists|i: int| 0 <= i < column.len() && (#[trigger] column[i]).valid,
        is_routing(column, watermark, Routing::Rows { order, parts }),
    ensures
        parts@.len() > 0,
        parts@[0].rows.start == 0,
        parts@[parts@.len() - 1].rows.end == column.len(),
        forall|p: int| 0 <= p < parts@.len() ==> (#[trigger] parts@[p]).rows.start < parts@[p].rows.end,
        forall|p: int, q: int|
            0 <= p && q == p + 1 && q < parts@.len() ==> (#[trigger] parts@[p]).rows.end == (
            #[trigger] parts@[q]).rows.start,
        order is None <==> forall|i: int, j: int|
            0 <= i < column.len() && 0 <= j < column.len() && (#[trigger] column[i]).valid && (
            #[trigger] column[j]).valid ==> column[i].value == column[j].value,
        order is None ==> parts@.len() == 1,
        order matches Some(order) ==> {
            &&& order@.len() == column.len()
            &&& forall|i: int| 0 <= i < order@.len() ==> #[trigger] order@[i] < column.len()
            &&& forall|i: int, j: int| 0 <= i < j < order@.len() ==> #[trigger] order@[i] != #[trigger] order@[j]
            &&& forall|i: int, j: int|
                0 <= i < j < order@.len() && !column[(#[trigger] order@[j]) as int].valid ==> !column[(
                #[trigger] order@[i]) as int].valid && order@[i] < order@[j]
            &&& forall|i: int, j: int|
                0 <= i < j < order@.len() && column[(#[trigger] order@[i]) as int].valid ==> column[(
                #[trigger] order@[j]) as int].valid && column[order@[i] as int].value <= column[order@[j] as int].value
            &&& forall|p: int, i: int, j: int|
                0 <= p < parts@.len() && (#[trigger] parts@[p]).rows.start <= i <= j < parts@[p].rows.end ==> {
                    let a = column[(#[trigger] order@[i]) as int];
                    let b = column[(#[trigger] order@[j]) as int];
                    a.valid == b.valid && (a.valid ==> a.value == b.value)
                }
            &&& forall|p: int, q: int, i: int, j: int|
                0 <= p < q < parts@.len() && (#[trigger] parts@[p]).rows.start <= i < parts@[p].rows.end && (
                #[trigger] parts@[q]).rows.start <= j < parts@[q].rows.end ==> {
                    let a = column[(#[trigger] order@[i]) as int];
                    let b = column[(#[trigger] order@[j]) as int];
                    a.valid != b.valid || (a.valid && a.value < b.value)
                }
            &&& !column[order@[0] as int].valid ==> parts@[0].time == event_time(column[order@[0] as int].value)
        },
{
    timestamps_lie_between_the_extremes(column);
    lemma_parts_are_consecutive(column, watermark, order, parts);
    let ranges = part_rows(parts@);
    assert forall|p: int| 0 <= p < parts@.len() implies (#[trigger] parts@[p]).rows.start < parts@[p].rows.end by {
        assert(ranges[p] == parts@[p].rows);
    }
    assert forall|p: int, q: int| 0 <= p && q == p + 1 && q < parts@.len() implies (#[trigger] parts@[p]).rows.end == (
    #[trigger] parts@[q]).rows.start by {
        assert(ranges[p] == parts@[p].rows && ranges[q] == parts@[q].rows);
    }
    assert(ranges[0] == parts@[0].rows);
    assert(ranges.last() == parts@[parts@.len() - 1].rows);
    assert(order is None ==> forall|i: int, j: int|
        0 <= i < column.len() && 0 <= j < column.len() && (#[trigger] column[i]).valid && (
        #[trigger] column[j]).valid ==> column[i].value == column[j].value);
    if order is Some {
        let i = choose|i: int|
            0 <= i < column.len() && (#[trigger] column[i]).valid && column[i].value == earliest(column);
        let j = choose|j: int|
            0 <= j < column.len() && (#[trigger] column[j]).valid && column[j].value == latest(column);
        assert(column[i].value != column[j].value);
    }
    if let Some(order) = order {
        let slots = taken(column, order@);
        assert forall|p: int, i: int, j: int|
            0 <= p < parts@.len() && (#[trigger] parts@[p]).rows.start <= i <= j < parts@[p].rows.end implies {
            let a = column[(#[trigger] order@[i]) as int];
            let b = column[(#[trigger] order@[j]) as int];
            a.valid == b.valid && (a.valid ==> a.value == b.value)
        } by {
            assert(ranges[p] == parts@[p].rows);
            lemma_run_is_uniform(slots, ranges, p, i, j);
        }
        assert forall|p: int, q: int, i: int, j: int|
            0 <= p < q < parts@.len() && (#[trigger] parts@[p]).rows.start <= i < parts@[p].rows.end && (
            #[trigger] parts@[q]).rows.start <= j < parts@[q].rows.end implies {
            let a = column[(#[trigger] order@[i]) as int];
            let b = column[(#[trigger] order@[j]) as int];
            a.valid != b.valid || (a.valid && a.value < b.value)
        } by {
            assert(ranges[p] == parts@[p].rows && ranges[q] == parts@[q].rows);
            lemma_parts_differ(column, order@, ranges, p, q, i, j);
        }
    }
}

/// Slots of different runs differ, and ascend.
proof fn lemma_parts_differ(
    column: Seq<TimeSlot>,
    order: Seq<u32>,
    ranges: Seq<Range<usize>>,
    p: int,
    q: int,
    i: int,
    j: int,
)
    requires
        is_time_order(column, order),
        are_runs(taken(column, order), ranges),
        0 <= p < q < ranges.len(),
        ranges[p].start <= i < ranges[p].end,
        ranges[q].start <= j < ranges[q].end,
    ensures
        ({
            let a = column[order[i] as int];
            let b = column[order[j] as int];
            a.valid != b.valid || (a.valid && a.value < b.value)
        }),
{
    let slots = taken(column, order);
    lemma_ranges_ascend(ranges, slots.len(), p, q);
    let second = ranges[q].start as int;
    let before = second - 1;
    assert(distinct(slots[before], slots[second]));
    assert(slot_le(column[order[before] as int], column[order[second] as int]));
    lemma_run_is_uniform(slots, ranges, q, second, j);
    if i < before {
        assert(slot_le(column[order[i] as int], column[order[before] as int]));
    }
}

} // verus!
