//! A join of two inputs on equal event time. Each event time has a join
//! execution of its own, which is fed with the rows of that time and drained
//! when the watermark has passed it.
use std::collections::BTreeMap;

use datafusion_proto::protobuf::PhysicalPlanNode;
use prost::DecodeError;
use vstd::prelude::*;

use crate::join_plan::{decode_plan, decoded_plan};
use crate::routing::{
    event_time, first_slot, has_part_at, input_side, is_routing, no_part_before_the_watermark, process_side,
    row_order_does_not_matter, same_side_of_epoch, side_name, Part, Routing, Side, SidePlan,
};
use crate::timestamps::{earliest, has_timestamp, is_reordering, latest, nulls_agree, TimeSlot};

verus! {

/// The execution of one event time: the future of its next output batch, and the
/// channels that feed its two inputs.
pub struct InstantComputeHolder<F, S> {
    pub active_exec: F,
    pub left_sender: S,
    pub right_sender: S,
}

impl<F, S> InstantComputeHolder<F, S> {
    /// The channel into which rows of one side go.
    pub fn sender(&self, side: Side) -> (sender: &S)
        ensures
            *sender == (match side {
                Side::Left => self.left_sender,
                Side::Right => self.right_sender,
            }),
    {
        match side {
            Side::Left => &self.left_sender,
            Side::Right => &self.right_sender,
        }
    }
}

/// Calls `BTreeMap::first_key_value`: the entry with the least key, or nothing
/// where the map is empty.
#[verifier::external_body]
fn first_key_value<V>(map: &BTreeMap<u128, V>) -> (r: Option<(&u128, &V)>)
    ensures
        r is None <==> map@.dom() =~= Set::<u128>::empty(),
        r matches Some((key, value)) ==> {
            &&& map@.contains_key(*key)
            &&& map@[*key] == *value
            &&& forall|k: u128| #[trigger] map@.contains_key(k) ==> *key <= k
        },
{
    map.first_key_value()
}

/// Calls `BTreeMap::pop_first`: removes the entry with the least key and returns
/// it, or returns nothing where the map is empty.
#[verifier::external_body]
fn pop_first<V>(map: &mut BTreeMap<u128, V>) -> (r: Option<(u128, V)>)
    ensures
        r is None <==> old(map)@.dom() =~= Set::<u128>::empty(),
        r is None ==> final(map)@ == old(map)@,
        r matches Some((key, value)) ==> {
            &&& old(map)@.contains_key(key)
            &&& old(map)@[key] == value
            &&& forall|k: u128| #[trigger] old(map)@.contains_key(k) ==> key <= k
            &&& final(map)@ == old(map)@.remove(key)
        },
{
    map.pop_first()
}

/// A watermark, as it travels between operators. Event times are in nanoseconds
/// since the epoch.
#[derive(Debug, Copy, Clone, Eq, PartialEq, Structural)]
pub enum Watermark {
    EventTime(u128),
    Idle,
}

/// What is done next with the output of an execution.
#[derive(Debug)]
pub enum OutputStep<B, E, F> {
    /// There is no more of it, or it was taken elsewhere.
    Finished,
    /// A batch goes on, and the future of the next one is polled.
    Emit { batch: B, future: F },
    /// The execution failed.
    Failed { error: E },
}

/// The step that follows on what a future of an execution gave.
pub open spec fn output_step<B, E, F>(polled: Option<(Result<B, E>, F)>) -> OutputStep<B, E, F> {
    match polled {
        None => OutputStep::Finished,
        Some((Ok(batch), future)) => OutputStep::Emit { batch, future },
        Some((Err(error), _)) => OutputStep::Failed { error },
    }
}

/// Decides how the draining of an execution goes on.
pub fn drain_step<B, E, F>(polled: Option<(Result<B, E>, F)>) -> (step: OutputStep<B, E, F>)
    ensures
        step == output_step(polled),
        polled is None <==> step is Finished,
        polled matches Some((Ok(batch), future)) ==> step == (OutputStep::<B, E, F>::Emit { batch, future }),
        polled matches Some((Err(error), _)) ==> step == (OutputStep::<B, E, F>::Failed { error }),
{
    match polled {
        None => OutputStep::Finished,
        Some((Ok(batch), future)) => OutputStep::Emit { batch, future },
        Some((Err(error), _)) => OutputStep::Failed { error },
    }
}

/// The join operator: the schemas of its inputs, the plan that each execution
/// runs, and the executions by their event time.
pub struct InstantJoin<P, F, S> {
    left_input_schema: P,
    right_input_schema: P,
    join_plan: PhysicalPlanNode,
    execs: BTreeMap<u128, InstantComputeHolder<F, S>>,
}

impl<P, F, S> View for InstantJoin<P, F, S> {
    type V = Map<u128, InstantComputeHolder<F, S>>;

    /// The executions by their event time.
    closed spec fn view(&self) -> Map<u128, InstantComputeHolder<F, S>> {
        self.execs@
    }
}

/// The executions whose time the watermark has not passed.
pub open spec fn not_passed<H>(execs: Map<u128, H>, watermark: u128) -> Map<u128, H> {
    execs.restrict(Set::new(|time: u128| time >= watermark))
}

/// `times` lists, in ascending order, the times of the executions that the
/// watermark has passed.
pub open spec fn are_passed_times<H>(execs: Map<u128, H>, watermark: u128, times: Seq<u128>) -> bool {
    &&& forall|i: int, j: int| 0 <= i < j < times.len() ==> times[i] < times[j]
    &&& forall|time: u128| #[trigger]
        times.contains(time) <==> execs.contains_key(time) && time < watermark
}

impl<P, F, S> InstantJoin<P, F, S> {
    /// The schema of one input.
    pub closed spec fn schema(&self, side: Side) -> P {
        match side {
            Side::Left => self.left_input_schema,
            Side::Right => self.right_input_schema,
        }
    }

    /// The plan that each execution runs.
    pub closed spec fn plan(&self) -> PhysicalPlanNode {
        self.join_plan
    }

    /// The operator has the same schemas and plan as `other`.
    pub open spec fn same_setup(&self, other: &Self) -> bool {
        &&& self.schema(Side::Left) == other.schema(Side::Left)
        &&& self.schema(Side::Right) == other.schema(Side::Right)
        &&& self.plan() == other.plan()
    }

    /// The schema of the given input.
    pub fn input_schema(&self, side: Side) -> (schema: &P)
        ensures
            *schema == self.schema(side),
    {
        match side {
            Side::Left => &self.left_input_schema,
            Side::Right => &self.right_input_schema,
        }
    }

    /// The plan that each execution runs.
    pub fn join_plan(&self) -> (plan: &PhysicalPlanNode)
        ensures
            *plan == self.plan(),
    {
        &self.join_plan
    }

    /// The execution of an event time, where there is one.
    pub fn exec(&self, time: u128) -> (exec: Option<&InstantComputeHolder<F, S>>)
        ensures
            exec == (if self@.contains_key(time) {
                Some(&self@[time])
            } else {
                None
            }),
    {
        broadcast use {vstd::std_specs::btree::group_btree_axioms, vstd::laws_cmp::group_laws_cmp};

        self.execs.get(&time)
    }

    /// Adds the execution of an event time that has none.
    pub fn insert_exec(&mut self, time: u128, exec: InstantComputeHolder<F, S>)
        requires
            !old(self)@.contains_key(time),
        ensures
            final(self)@ == old(self)@.insert(time, exec),
            final(self).same_setup(old(self)),
    {
        broadcast use {vstd::std_specs::btree::group_btree_axioms, vstd::laws_cmp::group_laws_cmp};

        self.execs.insert(time, exec);
    }

    /// Removes the executions whose time the watermark has passed, and returns
    /// their futures by ascending time, to be drained, with the watermark that
    /// goes on. Without a known watermark all stays as it is, and the watermark
    /// that came goes on.
    pub fn handle_watermark(&mut self, watermark: Watermark, last_present_watermark: Option<u128>) -> (r: (
        Vec<F>,
        Option<Watermark>,
    ))
        ensures
            final(self).same_setup(old(self)),
            match last_present_watermark {
                None => {
                    &&& final(self)@ == old(self)@
                    &&& r.0@.len() == 0
                    &&& r.1 == Some(watermark)
                },
                Some(passed) => {
                    &&& final(self)@ == not_passed(old(self)@, passed)
                    &&& exists|times: Seq<u128>| #[trigger]
                        are_passed_times(old(self)@, passed, times) && r.0@ == times.map_values(
                            |time: u128| old(self)@[time].active_exec,
                        )
                    &&& r.1 == Some(Watermark::EventTime(passed))
                    &&& forall|time: u128| #[trigger]
                        final(self)@.contains_key(time) <==> old(self)@.contains_key(time) && time >= passed
                    &&& forall|time: u128| #[trigger]
                        final(self)@.contains_key(time) ==> final(self)@[time] == old(self)@[time]
                    &&& r.0@.len() == old(self)@.dom().filter(|time: u128| time < passed).len()
                },
            },
    {
        broadcast use {vstd::std_specs::btree::group_btree_axioms, vstd::laws_cmp::group_laws_cmp};

        let mut futures_to_drain: Vec<F> = Vec::new();
        let passed: u128 = match last_present_watermark {
            None => {
                return (futures_to_drain, Some(watermark));
            },
            Some(passed) => passed,
        };
        let ghost execs = self@;
        let ghost mut times: Seq<u128> = Seq::empty();
        let ghost future_at = |time: u128| execs[time].active_exec;
        assert(times.map_values(future_at) =~= futures_to_drain@);
        while !self.execs.is_empty()
            invariant
                execs == old(self)@,
                self.same_setup(old(self)),
                future_at == (|time: u128| execs[time].active_exec),
                futures_to_drain@ == times.map_values(future_at),
                forall|i: int, j: int| 0 <= i < j < times.len() ==> times[i] < times[j],
                forall|i: int| 0 <= i < times.len() ==> execs.contains_key(#[trigger] times[i]) && times[i] < passed,
                forall|time: u128| #[trigger] self@.contains_key(time) <==> execs.contains_key(time) && !times.contains(time),
                forall|time: u128| #[trigger] self@.contains_key(time) ==> self@[time] == execs[time],
                forall|time: u128, i: int| #[trigger] self@.contains_key(time) && 0 <= i < times.len() ==> #[trigger] times[i] < time,
            ensures
                forall|time: u128| #[trigger] self@.contains_key(time) ==> time >= passed,
            decreases self@.len(),
        {
            let first: u128 = *first_key_value(&self.execs).unwrap().0;
            if first >= passed {
                break;
            }
            let (_time, exec) = pop_first(&mut self.execs).unwrap();
            futures_to_drain.push(exec.active_exec);
            proof {
                let before = times;
                times = times.push(first);
                assert(times.map_values(future_at) =~= before.map_values(future_at).push(future_at(first)));
                assert forall|time: u128| times.contains(time) <==> before.contains(time) || time == first by {
                    if before.contains(time) {
                        let i = choose|i: int| 0 <= i < before.len() && before[i] == time;
                        assert(times[i] == time);
                    }
                    assert(times[times.len() - 1] == first);
                }
            }
        }
        proof {
            assert(self@ =~= not_passed(execs, passed));
            assert forall|time: u128| #[trigger] times.contains(time) <==> execs.contains_key(time) && time < passed by {
                if execs.contains_key(time) && time < passed {
                    assert(!self@.contains_key(time));
                }
            }
            assert(are_passed_times(execs, passed, times));
            drained_are_the_passed(execs, passed, times);
        }
        (futures_to_drain, Some(Watermark::EventTime(passed)))
    }

    /// Decides what is done with a batch of the left input.
    pub fn process_left(&self, column: &Vec<TimeSlot>, watermark: Option<u128>) -> (plan: SidePlan)
        requires
            has_timestamp(column@),
            earliest(column@) != latest(column@) ==> column@.len() <= u32::MAX,
        ensures
            plan.side == Side::Left,
            plan.state_time == event_time(latest(column@)),
            is_routing(column@, watermark, plan.routing),
            plan.routing is Late <==> (watermark matches Some(passed) && event_time(earliest(column@)) < passed),
    {
        process_side(Side::Left, column, watermark)
    }

    /// Decides what is done with a batch of the right input.
    pub fn process_right(&self, column: &Vec<TimeSlot>, watermark: Option<u128>) -> (plan: SidePlan)
        requires
            has_timestamp(column@),
            earliest(column@) != latest(column@) ==> column@.len() <= u32::MAX,
        ensures
            plan.side == Side::Right,
            plan.state_time == event_time(latest(column@)),
            is_routing(column@, watermark, plan.routing),
            plan.routing is Late <==> (watermark matches Some(passed) && event_time(earliest(column@)) < passed),
    {
        process_side(Side::Right, column, watermark)
    }

    /// Decides what is done with a batch of the input of the given index.
    pub fn process_batch_index(
        &self,
        index: usize,
        total_inputs: usize,
        column: &Vec<TimeSlot>,
        watermark: Option<u128>,
    ) -> (plan: SidePlan)
        requires
            index < 2 * (total_inputs / 2),
            has_timestamp(column@),
            earliest(column@) != latest(column@) ==> column@.len() <= u32::MAX,
        ensures
            plan.side == (if index < total_inputs / 2 {
                Side::Left
            } else {
                Side::Right
            }),
            plan.state_time == event_time(latest(column@)),
            is_routing(column@, watermark, plan.routing),
            plan.routing is Late <==> (watermark matches Some(passed) && event_time(earliest(column@)) < passed),
    {
        match input_side(index, total_inputs) {
            Side::Left => self.process_left(column, watermark),
            Side::Right => self.process_right(column, watermark),
        }
    }

    /// Takes in what a polled future gave, together with the event time of its
    /// execution. Where it gave a batch, its successor becomes the future of that
    /// execution and is polled in turn.
    pub fn handle_future_result<B, E>(&mut self, result: Option<(u128, Option<(Result<B, E>, F)>)>) -> (step: Option<
        OutputStep<B, E, F>,
    >) where F: Clone
        requires
            result matches Some((bin, Some(_))) ==> old(self)@.contains_key(bin),
        ensures
            final(self).same_setup(old(self)),
            step == (match result {
                None => None,
                Some((_, polled)) => Some(output_step(polled)),
            }),
            result is None <==> step is None,
            result matches Some((_, None)) ==> step == Some(OutputStep::<B, E, F>::Finished),
            result matches Some((_, Some((Ok(batch), future)))) ==> step == Some(
                OutputStep::<B, E, F>::Emit { batch, future },
            ),
            result matches Some((_, Some((Err(error), _)))) ==> step == Some(OutputStep::<B, E, F>::Failed { error }),
            match result {
                Some((bin, Some((_, future)))) => {
                    &&& final(self)@ == old(self)@.insert(bin, final(self)@[bin])
                    &&& cloned(future, final(self)@[bin].active_exec)
                    &&& final(self)@[bin].left_sender == old(self)@[bin].left_sender
                    &&& final(self)@[bin].right_sender == old(self)@[bin].right_sender
                },
                _ => final(self)@ == old(self)@,
            },
    {
        broadcast use {vstd::std_specs::btree::group_btree_axioms, vstd::laws_cmp::group_laws_cmp};

        let (bin, polled) = match result {
            None => {
                return None;
            },
            Some(data) => data,
        };
        if let Some((_, future)) = &polled {
            let mut exec = self.execs.remove(&bin).unwrap();
            exec.active_exec = future.clone();
            self.execs.insert(bin, exec);
        }
        Some(drain_step(polled))
    }

    /// The name of the operator.
    pub fn name(&self) -> (name: String)
        ensures
            name@ == "InstantJoin"@,
    {
        "InstantJoin".to_owned()
    }

    /// How the operator is shown, given its execution plan in words.
    pub fn display(&self, join_execution_plan: String) -> (display: DisplayableOperator)
        ensures
            display.name@ == "InstantJoin"@,
            display.fields@.len() == 1,
            display.fields@[0].0@ == "join_execution_plan"@,
            display.fields@[0].1@ == join_execution_plan@,
    {
        let mut fields: Vec<(String, String)> = Vec::new();
        fields.push(("join_execution_plan".to_owned(), join_execution_plan));
        DisplayableOperator { name: "InstantJoin".to_owned(), fields }
    }

    /// The state tables of the operator, one for each side.
    pub fn tables(&self) -> (tables: Vec<TimestampTable<'_, P>>)
        ensures
            tables@.len() == 2,
            tables@[0].describes(Side::Left, "left join data"@, self.schema(Side::Left)),
            tables@[1].describes(Side::Right, "right join data"@, self.schema(Side::Right)),
            tables@[0].name@ == "left"@ && tables@[0].description@ == "left join data"@,
            tables@[1].name@ == "right"@ && tables@[1].description@ == "right join data"@,
            *tables@[0].schema == self.schema(Side::Left) && *tables@[1].schema == self.schema(Side::Right),
            forall|i: int| 0 <= i < 2 ==> (#[trigger] tables@[i]).retention_nanos == 0 && !tables@[i].generational,
    {
        let mut tables: Vec<TimestampTable<'_, P>> = Vec::new();
        tables.push(
            TimestampTable {
                name: Side::Left.name().to_owned(),
                description: "left join data".to_owned(),
                retention_nanos: 0,
                generational: false,
                schema: &self.left_input_schema,
            },
        );
        tables.push(
            TimestampTable {
                name: Side::Right.name().to_owned(),
                description: "right join data".to_owned(),
                retention_nanos: 0,
                generational: false,
                schema: &self.right_input_schema,
            },
        );
        tables
    }

    /// The batches that are processed again on a start, from what the state
    /// tables of the two sides hold by time: those of the left side first.
    pub fn on_start<B>(&self, left: Vec<(u128, Vec<B>)>, right: Vec<(u128, Vec<B>)>) -> (batches: Vec<(
        Side,
        B,
    )>)
        ensures
            batches@ == on_side(Side::Left, kept_batches(left@)) + on_side(
                Side::Right,
                kept_batches(right@),
            ),
            batches@ == left@.map_values(|group: (u128, Vec<B>)| group.1@).flatten().map_values(
                |batch: B| (Side::Left, batch),
            ) + right@.map_values(|group: (u128, Vec<B>)| group.1@).flatten().map_values(
                |batch: B| (Side::Right, batch),
            ),
    {
        proof {
            lemma_kept_batches_are_flattened(left@);
            lemma_kept_batches_are_flattened(right@);
        }
        let mut batches: Vec<(Side, B)> = Vec::new();
        restore(&mut batches, Side::Left, left);
        restore(&mut batches, Side::Right, right);
        batches
    }

    /// The flushes of state tables that a checkpoint asks for, in their order.
    pub fn handle_checkpoint(&self, watermark: Option<u128>) -> (flushes: Vec<TableFlush>)
        ensures
            flushes@.len() == 2,
            flushes@[0].table@ == side_name(Side::Left),
            flushes@[0].watermark == watermark,
            flushes@[1].table@ == side_name(Side::Right),
            flushes@[1].watermark == watermark,
            flushes@[0].table@ == "left"@ && flushes@[1].table@ == "right"@,
    {
        let mut flushes: Vec<TableFlush> = Vec::new();
        flushes.push(TableFlush { table: Side::Left.name(), watermark });
        flushes.push(TableFlush { table: Side::Right.name(), watermark });
        flushes
    }
}

/// How an operator is shown: its name, and labelled facts about it.
#[derive(Debug)]
pub struct DisplayableOperator {
    pub name: String,
    pub fields: Vec<(String, String)>,
}

/// The flush of a state table, with the last watermark that is known.
#[derive(Debug)]
pub struct TableFlush {
    pub table: &'static str,
    pub watermark: Option<u128>,
}

/// The configuration of a state table that is keyed by time.
#[derive(Debug)]
pub struct TimestampTable<'a, P> {
    pub name: String,
    pub description: String,
    pub retention_nanos: u64,
    pub generational: bool,
    pub schema: &'a P,
}

impl<'a, P> TimestampTable<'a, P> {
    /// The table keeps batches of `schema` for one side, for no time past the
    /// watermark, and is not generational.
    pub open spec fn describes(&self, side: Side, description: Seq<char>, schema: P) -> bool {
        &&& self.name@ == side_name(side)
        &&& self.description@ == description
        &&& self.retention_nanos == 0
        &&& !self.generational
        &&& *self.schema == schema
    }
}

/// The batches of a state table, one time after the other.
pub open spec fn kept_batches<B>(groups: Seq<(u128, Vec<B>)>) -> Seq<B>
    decreases groups.len(),
{
    if groups.len() == 0 {
        Seq::empty()
    } else {
        kept_batches(groups.drop_last()) + groups.last().1@
    }
}

/// The batches, each with its side.
pub open spec fn on_side<B>(side: Side, batches: Seq<B>) -> Seq<(Side, B)> {
    batches.map_values(|batch: B| (side, batch))
}

/// The batches of a state table are the concatenation of its groups.
proof fn lemma_kept_batches_are_flattened<B>(groups: Seq<(u128, Vec<B>)>)
    ensures
        kept_batches(groups) == groups.map_values(|group: (u128, Vec<B>)| group.1@).flatten(),
    decreases groups.len(),
{
    let all = groups.map_values(|group: (u128, Vec<B>)| group.1@);
    if groups.len() == 0 {
        assert(all =~= Seq::empty());
    } else {
        let rest = groups.drop_last().map_values(|group: (u128, Vec<B>)| group.1@);
        lemma_kept_batches_are_flattened(groups.drop_last());
        rest.lemma_flatten_push(groups.last().1@);
        assert(all =~= rest.push(groups.last().1@));
    }
}

/// Appends what a state table holds.
fn restore<B>(batches: &mut Vec<(Side, B)>, side: Side, groups: Vec<(u128, Vec<B>)>)
    ensures
        final(batches)@ == old(batches)@ + on_side(side, kept_batches(groups@)),
{
    let ghost start = batches@;
    let ghost all = groups@;
    assert(all.take(0) =~= Seq::empty());
    assert(batches@ =~= start + on_side(side, kept_batches(all.take(0))));
    for group in outer: groups
        invariant
            outer.seq() == all,
            batches@ == start + on_side(side, kept_batches(all.take(outer.index()))),
    {
        let ghost index = outer.index();
        let ghost kept = group.1@;
        let ghost before = batches@;
        for batch in inner: group.1
            invariant
                inner.seq() == kept,
                batches@ == before + on_side(side, kept.take(inner.index())),
        {
            batches.push((side, batch));
            assert(kept.take(inner.index() + 1) =~= kept.take(inner.index()).push(batch));
        }
        assert(kept.take(kept.len() as int) =~= kept);
        assert(all.take(index + 1).drop_last() =~= all.take(index));
        assert(on_side(side, kept_batches(all.take(index + 1))) =~= on_side(
            side,
            kept_batches(all.take(index)),
        ) + on_side(side, kept));
    }
    assert(all.take(all.len() as int) =~= all);
}

/// The next thing to do to deliver the parts of a batch.
#[derive(Debug)]
pub enum DeliveryStep {
    /// The time has no execution yet: one is made and added, and the delivery
    /// asked again.
    CreateExec { time: u128 },
    /// The rows of one part go to one input of the execution of their time.
    Send { side: Side, part: Part },
    /// All parts have been sent.
    Done,
}

/// The delivery of the parts of a batch, one by one.
#[derive(Debug)]
pub struct Delivery {
    side: Side,
    parts: Vec<Part>,
    sent: usize,
}

/// What is done next, with the given number of parts sent, where executions
/// exist for the given times.
pub open spec fn delivery_step(side: Side, parts: Seq<Part>, sent: int, times: Set<u128>) -> DeliveryStep {
    if sent >= parts.len() {
        DeliveryStep::Done
    } else if !times.contains(parts[sent].time) {
        DeliveryStep::CreateExec { time: parts[sent].time }
    } else {
        DeliveryStep::Send { side, part: parts[sent] }
    }
}

impl Delivery {
    /// The side on which the batch arrived.
    pub closed spec fn side(&self) -> Side {
        self.side
    }

    /// The parts of the batch.
    pub closed spec fn parts(&self) -> Seq<Part> {
        self.parts@
    }

    /// How many parts have been sent.
    pub closed spec fn sent(&self) -> int {
        self.sent as int
    }

    /// No more parts have been sent than there are.
    pub open spec fn wf(&self) -> bool {
        0 <= self.sent() <= self.parts().len()
    }

    /// Starts the delivery of the parts of a batch.
    pub fn new(side: Side, parts: Vec<Part>) -> (delivery: Self)
        ensures
            delivery.wf(),
            delivery.side() == side,
            delivery.parts() == parts@,
            delivery.sent() == 0,
    {
        Delivery { side, parts, sent: 0 }
    }

    /// Decides what is done next. A part counts as sent once it is handed out.
    pub fn next_step<P, F, S>(&mut self, join: &InstantJoin<P, F, S>) -> (step: DeliveryStep)
        requires
            old(self).wf(),
        ensures
            final(self).wf(),
            final(self).side() == old(self).side(),
            final(self).parts() == old(self).parts(),
            step == delivery_step(old(self).side(), old(self).parts(), old(self).sent(), join@.dom()),
            step is Done <==> old(self).sent() == old(self).parts().len(),
            step matches DeliveryStep::CreateExec { time } ==> time == old(self).parts()[old(self).sent()].time
                && !join@.contains_key(time),
            step matches DeliveryStep::Send { side, part } ==> side == old(self).side() && part
                == old(self).parts()[old(self).sent()] && join@.contains_key(part.time),
            final(self).sent() == old(self).sent() + (if step is Send {
                1int
            } else {
                0int
            }),
    {
        broadcast use {vstd::std_specs::btree::group_btree_axioms, vstd::laws_cmp::group_laws_cmp};

        if self.sent == self.parts.len() {
            return DeliveryStep::Done;
        }
        let part = &self.parts[self.sent];
        if !join.execs.contains_key(&part.time) {
            return DeliveryStep::CreateExec { time: part.time };
        }
        let part = Part { time: part.time, rows: part.rows.start..part.rows.end };
        self.sent = self.sent + 1;
        DeliveryStep::Send { side: self.side, part }
    }
}

/// The configuration of a join: its encoded plan, and the schema of each input as
/// its conversion gave it, where there is one.
#[derive(Debug)]
pub struct JoinOperator<P, E> {
    pub join_plan: Vec<u8>,
    pub left_schema: Option<Result<P, E>>,
    pub right_schema: Option<Result<P, E>>,
}

/// Why a join cannot be built from its configuration.
#[derive(Debug)]
pub enum JoinConfigError<E> {
    /// The plan does not decode.
    Plan(DecodeError),
    /// The schema of an input is missing.
    MissingSchema(Side),
    /// The schema of an input does not convert.
    Schema(E),
}

/// Builds the operator from its configuration.
pub struct InstantJoinConstructor;

/// The schema of one input, or why there is none.
pub open spec fn schema_of<P, E>(side: Side, schema: Option<Result<P, E>>) -> Result<P, JoinConfigError<E>> {
    match schema {
        None => Err(JoinConfigError::MissingSchema(side)),
        Some(Err(error)) => Err(JoinConfigError::Schema(error)),
        Some(Ok(schema)) => Ok(schema),
    }
}

/// The first of these that applies is the error of a configuration: the plan does
/// not decode; there is no left schema; there is no right schema.
pub open spec fn join_config_error<P, E>(
    plan: Result<PhysicalPlanNode, DecodeError>,
    left: Option<Result<P, E>>,
    right: Option<Result<P, E>>,
) -> Option<JoinConfigError<E>> {
    match (plan, schema_of(Side::Left, left), schema_of(Side::Right, right)) {
        (Err(error), _, _) => Some(JoinConfigError::Plan(error)),
        (Ok(_), Err(error), _) => Some(error),
        (Ok(_), Ok(_), Err(error)) => Some(error),
        (Ok(_), Ok(_), Ok(_)) => None,
    }
}

impl InstantJoinConstructor {
    /// Builds an operator without executions from its configuration.
    pub fn with_config<P, F, S, E>(&self, config: JoinOperator<P, E>) -> (r: Result<
        InstantJoin<P, F, S>,
        JoinConfigError<E>,
    >)
        ensures
            r is Ok <==> decoded_plan(config.join_plan@) is Ok && (config.left_schema matches Some(schema) && schema is Ok) && (config.right_schema matches Some(schema)
                && schema is Ok),
            join_config_error(decoded_plan(config.join_plan@), config.left_schema, config.right_schema)
                == (match r {
                Ok(_) => None,
                Err(error) => Some(error),
            }),
            r matches Ok(join) ==> {
                &&& join@ == Map::<u128, InstantComputeHolder<F, S>>::empty()
                &&& decoded_plan(config.join_plan@) == Ok::<PhysicalPlanNode, DecodeError>(join.plan())
                &&& config.left_schema == Some(Ok::<P, E>(join.schema(Side::Left)))
                &&& config.right_schema == Some(Ok::<P, E>(join.schema(Side::Right)))
            },
    {
        let plan = decode_plan(&config.join_plan);
        Self::with_plan(plan, config.left_schema, config.right_schema)
    }

    /// Builds an operator without executions from its decoded plan.
    pub fn with_plan<P, F, S, E>(
        plan: Result<PhysicalPlanNode, DecodeError>,
        left_schema: Option<Result<P, E>>,
        right_schema: Option<Result<P, E>>,
    ) -> (r: Result<InstantJoin<P, F, S>, JoinConfigError<E>>)
        ensures
            r is Ok <==> plan is Ok && (left_schema matches Some(schema) && schema is Ok) && (right_schema matches Some(schema)
                && schema is Ok),
            join_config_error(plan, left_schema, right_schema) == (match r {
                Ok(_) => None,
                Err(error) => Some(error),
            }),
            r matches Ok(join) ==> {
                &&& join@ == Map::<u128, InstantComputeHolder<F, S>>::empty()
                &&& plan == Ok::<PhysicalPlanNode, DecodeError>(join.plan())
                &&& left_schema == Some(Ok::<P, E>(join.schema(Side::Left)))
                &&& right_schema == Some(Ok::<P, E>(join.schema(Side::Right)))
            },
    {
        broadcast use {vstd::std_specs::btree::group_btree_axioms, vstd::laws_cmp::group_laws_cmp};

        let join_plan = match plan {
            Err(error) => {
                return Err(JoinConfigError::Plan(error));
            },
            Ok(plan) => plan,
        };
        let left_input_schema = match left_schema {
            None => {
                return Err(JoinConfigError::MissingSchema(Side::Left));
            },
            Some(Err(error)) => {
                return Err(JoinConfigError::Schema(error));
            },
            Some(Ok(schema)) => schema,
        };
        let right_input_schema = match right_schema {
            None => {
                return Err(JoinConfigError::MissingSchema(Side::Right));
            },
            Some(Err(error)) => {
                return Err(JoinConfigError::Schema(error));
            },
            Some(Ok(schema)) => schema,
        };
        Ok(InstantJoin { left_input_schema, right_input_schema, join_plan, execs: BTreeMap::new() })
    }
}

/// A watermark splits the executions: each one is either drained or stays as it
/// is, and those that stay have not been passed.
pub proof fn watermark_splits_execs<H>(execs: Map<u128, H>, watermark: u128, times: Seq<u128>, time: u128)
    requires
        are_passed_times(execs, watermark, times),
        execs.contains_key(time),
    ensures
        times.contains(time) <==> !not_passed(execs, watermark).contains_key(time),
        not_passed(execs, watermark).contains_key(time) ==> not_passed(execs, watermark)[time]
            == execs[time] && time >= watermark,
{
}

/// The times that a watermark drains, and their order, follow from the
/// executions and the watermark.
pub proof fn passed_times_are_unique<H>(execs: Map<u128, H>, watermark: u128, a: Seq<u128>, b: Seq<u128>)
    requires
        are_passed_times(execs, watermark, a),
        are_passed_times(execs, watermark, b),
    ensures
        a == b,
{
    assert forall|time: u128| #[trigger] a.contains(time) <==> b.contains(time) by {
        assert(a.contains(time) <==> execs.contains_key(time) && time < watermark);
    }
    lemma_ascending_seqs_agree(a, b);
}

/// Two ascending sequences of the same times are the same.
proof fn lemma_ascending_seqs_agree(a: Seq<u128>, b: Seq<u128>)
    requires
        forall|i: int, j: int| 0 <= i < j < a.len() ==> a[i] < a[j],
        forall|i: int, j: int| 0 <= i < j < b.len() ==> b[i] < b[j],
        forall|time: u128| #[trigger] a.contains(time) <==> b.contains(time),
    ensures
        a == b,
    decreases a.len(),
{
    if a.len() == 0 {
        if b.len() > 0 {
            assert(b.contains(b[0]));
            assert(a.contains(b[0]));
        }
    } else {
        let i = lemma_other_lists(a, b, a.len() - 1);
        let j = lemma_other_lists(b, a, b.len() - 1);
        assert(a[j] <= a[a.len() - 1]);
        assert(b[i] <= b[b.len() - 1]);
        let rest_a = a.drop_last();
        let rest_b = b.drop_last();
        assert forall|time: u128| #[trigger] rest_a.contains(time) <==> rest_b.contains(time) by {
            if rest_a.contains(time) {
                let k = choose|k: int| 0 <= k < rest_a.len() && rest_a[k] == time;
                let m = lemma_other_lists(a, b, k);
                assert(rest_b[m] == time);
            }
            if rest_b.contains(time) {
                let k = choose|k: int| 0 <= k < rest_b.len() && rest_b[k] == time;
                let m = lemma_other_lists(b, a, k);
                assert(rest_a[m] == time);
            }
        }
        lemma_ascending_seqs_agree(rest_a, rest_b);
        assert(a =~= rest_a.push(a.last()));
        assert(b =~= rest_b.push(b.last()));
    }
}

/// Of two sequences of the same times, each lists what the other does.
proof fn lemma_other_lists(a: Seq<u128>, b: Seq<u128>, i: int) -> (j: int)
    requires
        forall|time: u128| #[trigger] a.contains(time) <==> b.contains(time),
        0 <= i < a.len(),
    ensures
        0 <= j < b.len(),
        b[j] == a[i],
{
    let time = a[i];
    assert(a.contains(time));
    assert(b.contains(time));
    choose|j: int| 0 <= j < b.len() && b[j] == time
}

/// A watermark that comes again drains nothing and changes nothing.
pub proof fn watermark_is_idempotent<H>(execs: Map<u128, H>, watermark: u128, times: Seq<u128>)
    requires
        are_passed_times(not_passed(execs, watermark), watermark, times),
    ensures
        times.len() == 0,
        not_passed(not_passed(execs, watermark), watermark) == not_passed(execs, watermark),
{
    if times.len() > 0 {
        assert(times.contains(times[0]));
    }
    assert(not_passed(not_passed(execs, watermark), watermark) =~= not_passed(execs, watermark));
}

/// Once an execution that the delivery of a part asked for has been added, the
/// part is sent: no time is asked for twice.
pub proof fn created_exec_is_fed(side: Side, parts: Seq<Part>, sent: int, times: Set<u128>, time: u128)
    requires
        0 <= sent,
        delivery_step(side, parts, sent, times) == (DeliveryStep::CreateExec { time }),
    ensures
        delivery_step(side, parts, sent, times.insert(time)) == (DeliveryStep::Send {
            side,
            part: parts[sent],
        }),
{
}

/// The steps of a delivery from the given number of parts sent to its end, where
/// each execution that it asks for is added.
pub open spec fn delivery_run(side: Side, parts: Seq<Part>, sent: int, times: Set<u128>) -> Seq<DeliveryStep>
    decreases
            parts.len() - sent,
            (if times.contains(parts[sent].time) {
                0int
            } else {
                1int
            }),
{
    let step = delivery_step(side, parts, sent, times);
    match step {
        DeliveryStep::Done => seq![step],
        DeliveryStep::CreateExec { time } => seq![step] + delivery_run(side, parts, sent, times.insert(time)),
        DeliveryStep::Send { .. } => seq![step] + delivery_run(side, parts, sent + 1, times),
    }
}

/// The parts that the steps send, in order, each with its side.
pub open spec fn handed_out(steps: Seq<DeliveryStep>) -> Seq<(Side, Part)>
    decreases steps.len(),
{
    if steps.len() == 0 {
        Seq::empty()
    } else {
        let rest = handed_out(steps.drop_first());
        match steps[0] {
            DeliveryStep::Send { side, part } => seq![(side, part)] + rest,
            _ => rest,
        }
    }
}

/// The times for which the steps ask for an execution, in order.
pub open spec fn asked_for(steps: Seq<DeliveryStep>) -> Seq<u128>
    decreases steps.len(),
{
    if steps.len() == 0 {
        Seq::empty()
    } else {
        let rest = asked_for(steps.drop_first());
        match steps[0] {
            DeliveryStep::CreateExec { time } => seq![time] + rest,
            _ => rest,
        }
    }
}

/// The times of the parts.
pub open spec fn part_times(parts: Seq<Part>) -> Set<u128> {
    parts.map_values(|part: Part| part.time).to_set()
}

/// A delivery comes to its end. On the way it hands out every part once, in order,
/// and on its side; it asks for each time that has no execution once, and for no
/// other; and then there are executions for the times that had one before and for
/// those of the parts.
pub proof fn delivery_hands_out_every_part(side: Side, parts: Seq<Part>, times: Set<u128>)
    ensures
        handed_out(delivery_run(side, parts, 0, times)) == parts.map_values(|part: Part| (side, part)),
        asked_for(delivery_run(side, parts, 0, times)).no_duplicates(),
        asked_for(delivery_run(side, parts, 0, times)).to_set() == part_times(parts).difference(times),
        times.union(asked_for(delivery_run(side, parts, 0, times)).to_set()) == times.union(part_times(parts)),
        delivery_run(side, parts, 0, times).last() is Done,
        delivery_run(side, parts, 0, times).len() == parts.len() + asked_for(
            delivery_run(side, parts, 0, times),
        ).len() + 1,
{
    let asked = asked_for(delivery_run(side, parts, 0, times));
    lemma_rest_of_delivery(side, parts, 0, times);
    assert(parts.skip(0) =~= parts);
    assert(asked.to_set() =~= part_times(parts).difference(times)) by {
        assert forall|time: u128| asked.to_set().contains(time) <==> part_times(parts).difference(times).contains(
            time,
        ) by {
            assert(asked.contains(time) <==> !times.contains(time) && lies_ahead(parts, 0, time));
            lemma_part_times(parts, time);
        }
    }
    assert(times.union(asked.to_set()) =~= times.union(part_times(parts)));
}

/// A part that has not been sent has the given time.
spec fn lies_ahead(parts: Seq<Part>, sent: int, time: u128) -> bool {
    exists|k: int| sent <= k < parts.len() && (#[trigger] parts[k]).time == time
}

/// A time is that of a part where some part has it.
proof fn lemma_part_times(parts: Seq<Part>, time: u128)
    ensures
        part_times(parts).contains(time) <==> lies_ahead(parts, 0, time),
{
    let listed = parts.map_values(|part: Part| part.time);
    if listed.contains(time) {
        let k = choose|k: int| 0 <= k < listed.len() && listed[k] == time;
        assert(parts[k].time == time);
    }
    if lies_ahead(parts, 0, time) {
        let k = choose|k: int| 0 <= k < parts.len() && (#[trigger] parts[k]).time == time;
        assert(listed[k] == time);
    }
}

/// What a delivery does with the parts that it has not sent.
proof fn lemma_rest_of_delivery(side: Side, parts: Seq<Part>, sent: int, times: Set<u128>)
    requires
        0 <= sent <= parts.len(),
    ensures
        handed_out(delivery_run(side, parts, sent, times)) == parts.skip(sent).map_values(|part: Part| (side, part)),
        asked_for(delivery_run(side, parts, sent, times)).no_duplicates(),
        forall|time: u128| #[trigger]
            asked_for(delivery_run(side, parts, sent, times)).contains(time) <==> !times.contains(time) && lies_ahead(
                parts,
                sent,
                time,
            ),
        delivery_run(side, parts, sent, times).len() > 0,
        delivery_run(side, parts, sent, times).last() is Done,
        delivery_run(side, parts, sent, times).len() == parts.len() - sent + asked_for(
            delivery_run(side, parts, sent, times),
        ).len() + 1,
    decreases
            parts.len() - sent,
            (if times.contains(parts[sent].time) {
                0int
            } else {
                1int
            }),
{
    let run = delivery_run(side, parts, sent, times);
    let step = delivery_step(side, parts, sent, times);
    let asked = asked_for(run);
    match step {
        DeliveryStep::Done => {
            assert(run.drop_first() =~= Seq::empty());
            assert(asked_for(run.drop_first()) =~= Seq::empty());
            assert(handed_out(run.drop_first()) =~= Seq::empty());
            assert(handed_out(run) =~= parts.skip(sent).map_values(|part: Part| (side, part)));
        },
        DeliveryStep::CreateExec { time } => {
            let rest = delivery_run(side, parts, sent, times.insert(time));
            lemma_rest_of_delivery(side, parts, sent, times.insert(time));
            assert(run.drop_first() =~= rest);
            assert(run.last() == rest.last());
            let later = asked_for(rest);
            assert(asked =~= seq![time] + later);
            assert(!later.contains(time));
            assert(lies_ahead(parts, sent, time)) by {
                assert(parts[sent].time == time);
            }
            assert forall|i: int, j: int| 0 <= i < asked.len() && 0 <= j < asked.len() && i != j implies asked[i]
                != asked[j] by {
                if i == 0 {
                    assert(later[j - 1] == asked[j]);
                } else if j == 0 {
                    assert(later[i - 1] == asked[i]);
                } else {
                    assert(later[i - 1] != later[j - 1]);
                }
            }
            assert forall|t: u128| #[trigger] asked.contains(t) <==> !times.contains(t) && lies_ahead(
                parts,
                sent,
                t,
            ) by {
                lemma_contains_in_front(time, later, t);
                assert(later.contains(t) <==> !times.insert(time).contains(t) && lies_ahead(parts, sent, t));
            }
        },
        DeliveryStep::Send { .. } => {
            let rest = delivery_run(side, parts, sent + 1, times);
            lemma_rest_of_delivery(side, parts, sent + 1, times);
            assert(run.drop_first() =~= rest);
            assert(run.last() == rest.last());
            assert(asked == asked_for(rest));
            assert(handed_out(run) =~= parts.skip(sent).map_values(|part: Part| (side, part)));
            assert forall|t: u128| #[trigger] asked.contains(t) <==> !times.contains(t) && lies_ahead(
                parts,
                sent,
                t,
            ) by {
                assert(asked.contains(t) <==> !times.contains(t) && lies_ahead(parts, sent + 1, t));
                if lies_ahead(parts, sent + 1, t) {
                    let k = choose|k: int| sent + 1 <= k < parts.len() && (#[trigger] parts[k]).time == t;
                    assert(parts[k].time == t);
                }
            }
        },
    }
}

/// What a sequence holds with one more time in front.
proof fn lemma_contains_in_front(first: u128, rest: Seq<u128>, time: u128)
    ensures
        (seq![first] + rest).contains(time) <==> time == first || rest.contains(time),
{
    let all = seq![first] + rest;
    assert(all[0] == first);
    if rest.contains(time) {
        let k = choose|k: int| 0 <= k < rest.len() && rest[k] == time;
        assert(all[k + 1] == time);
    }
    if all.contains(time) {
        let k = choose|k: int| 0 <= k < all.len() && all[k] == time;
        if k > 0 {
            assert(rest[k - 1] == time);
        }
    }
}

/// The order of the rows of a batch does not change for which times there are
/// executions once its parts have been delivered. Nulls that the buffer gives
/// different values are left out where the batch is cut.
pub proof fn row_order_does_not_change_execs(
    a: Seq<TimeSlot>,
    b: Seq<TimeSlot>,
    moved: Seq<int>,
    watermark: Option<u128>,
    order_a: Option<Vec<u32>>,
    parts_a: Vec<Part>,
    order_b: Option<Vec<u32>>,
    parts_b: Vec<Part>,
    side: Side,
    times: Set<u128>,
)
    requires
        has_timestamp(a),
        is_reordering(a, b, moved),
        earliest(a) != latest(a) ==> nulls_agree(a),
        is_routing(a, watermark, Routing::Rows { order: order_a, parts: parts_a }),
        is_routing(b, watermark, Routing::Rows { order: order_b, parts: parts_b }),
    ensures
        times.union(asked_for(delivery_run(side, parts_a@, 0, times)).to_set()) == times.union(
            asked_for(delivery_run(side, parts_b@, 0, times)).to_set(),
        ),
{
    let routing_a = Routing::Rows { order: order_a, parts: parts_a };
    let routing_b = Routing::Rows { order: order_b, parts: parts_b };
    row_order_does_not_matter(a, b, moved, watermark, routing_a, routing_b);
    delivery_hands_out_every_part(side, parts_a@, times);
    delivery_hands_out_every_part(side, parts_b@, times);
    assert(part_times(parts_a@) =~= part_times(parts_b@)) by {
        assert forall|time: u128| part_times(parts_a@).contains(time) <==> part_times(parts_b@).contains(time) by {
            lemma_part_times(parts_a@, time);
            lemma_part_times(parts_b@, time);
            assert(has_part_at(routing_b, time) <==> has_part_at(routing_a, time));
            assert(has_part_at(routing_a, time) <==> lies_ahead(parts_a@, 0, time));
            assert(has_part_at(routing_b, time) <==> lies_ahead(parts_b@, 0, time));
        }
    }
}

/// A part of a batch that was accepted under the watermark asks for an execution,
/// where there are executions for the given times. Where the batch was cut, the part
/// has timestamps, on the same side of the epoch as the least of the batch.
pub open spec fn asks_for_exec(
    times: Set<u128>,
    watermark: Option<u128>,
    column: Seq<TimeSlot>,
    order: Option<Vec<u32>>,
    parts: Vec<Part>,
    side: Side,
    sent: int,
    time: u128,
) -> bool {
    &&& has_timestamp(column)
    &&& is_routing(column, watermark, Routing::Rows { order, parts })
    &&& 0 <= sent
    &&& delivery_step(side, parts@, sent, times) == (DeliveryStep::CreateExec { time })
    &&& order is Some ==> {
        &&& first_slot(column, order, parts@[sent]).valid
        &&& same_side_of_epoch(earliest(column), first_slot(column, order, parts@[sent]).value)
    }
}

/// A time that the watermark has passed gets no execution again: if no execution
/// is before the watermark, adding the one that a part of an accepted batch asks
/// for leaves none before it.
pub proof fn passed_times_stay_closed<H>(
    execs: Map<u128, H>,
    watermark: u128,
    column: Seq<TimeSlot>,
    order: Option<Vec<u32>>,
    parts: Vec<Part>,
    side: Side,
    sent: int,
    time: u128,
    exec: H,
)
    requires
        not_passed(execs, watermark) == execs,
        asks_for_exec(execs.dom(), Some(watermark), column, order, parts, side, sent, time),
    ensures
        not_passed(execs.insert(time, exec), watermark) == execs.insert(time, exec),
{
    no_part_before_the_watermark(column, watermark, order, parts, sent);
    assert(not_passed(execs.insert(time, exec), watermark) =~= execs.insert(time, exec)) by {
        assert forall|t: u128| execs.contains_key(t) implies t >= watermark by {
            assert(not_passed(execs, watermark).contains_key(t));
        }
    }
}

/// One point of a run of calls: the executions, the watermark that the last call
/// saw, and the one under which executions were last drained.
pub struct RunPoint<H> {
    pub execs: Map<u128, H>,
    pub present: Option<u128>,
    pub drained: Option<u128>,
}

/// A watermark that is known does not become unknown, nor go back.
pub open spec fn does_not_go_back(before: Option<u128>, after: Option<u128>) -> bool {
    before matches Some(earlier) ==> after matches Some(later) && later >= earlier
}

/// A watermark comes: where one is known, what it has passed is drained.
pub open spec fn drains<H>(before: RunPoint<H>, after: RunPoint<H>) -> bool {
    match after.present {
        None => after.execs == before.execs && after.drained == before.drained,
        Some(watermark) => {
            &&& after.execs == not_passed(before.execs, watermark)
            &&& after.drained == Some(watermark)
        },
    }
}

/// The result of a future comes, and moves on an execution that there is, or none.
pub open spec fn moves_on<H>(before: RunPoint<H>, after: RunPoint<H>) -> bool {
    &&& after.drained == before.drained
    &&& after.execs == before.execs || exists|bin: u128| #[trigger]
        before.execs.contains_key(bin) && after.execs == before.execs.insert(bin, after.execs[bin])
}

/// The execution that a part of a batch asks for is added.
pub open spec fn adds_exec<H>(before: RunPoint<H>, after: RunPoint<H>) -> bool {
    &&& after.drained == before.drained
    &&& exists|
        column: Seq<TimeSlot>,
        order: Option<Vec<u32>>,
        parts: Vec<Part>,
        side: Side,
        sent: int,
        time: u128,
    | #[trigger]
        asks_for_exec(before.execs.dom(), after.present, column, order, parts, side, sent, time) && after.execs
            == before.execs.insert(time, after.execs[time])
}

/// One call leads from the point `before` to the point `after`.
pub open spec fn may_follow<H>(before: RunPoint<H>, after: RunPoint<H>) -> bool {
    &&& does_not_go_back(before.present, after.present)
    &&& drains(before, after) || moves_on(before, after) || adds_exec(before, after)
}

/// Whatever calls a new operator has seen, under watermarks that do not go back, it
/// has no execution before the watermark under which it last drained.
pub proof fn no_execution_before_the_watermark<H>(run: Seq<RunPoint<H>>)
    requires
        run.len() > 0,
        run[0].execs == Map::<u128, H>::empty(),
        run[0].drained is None,
        forall|i: int, j: int|
            0 <= i && j == i + 1 && j < run.len() ==> may_follow(#[trigger] run[i], #[trigger] run[j]),
    ensures
        does_not_go_back(run.last().drained, run.last().present),
        run.last().drained matches Some(watermark) ==> {
            &&& forall|time: u128| #[trigger] run.last().execs.contains_key(time) ==> time >= watermark
            &&& not_passed(run.last().execs, watermark) == run.last().execs
        },
    decreases run.len(),
{
    if run.len() > 1 {
        let earlier = run.drop_last();
        assert forall|i: int, j: int| 0 <= i && j == i + 1 && j < earlier.len() implies may_follow(
            #[trigger] earlier[i],
            #[trigger] earlier[j],
        ) by {
            assert(may_follow(run[i], run[j]));
        }
        no_execution_before_the_watermark(earlier);
        let before = run[run.len() - 2];
        let after = run[run.len() - 1];
        assert(earlier.last() == before);
        assert(may_follow(before, after));
        lemma_call_keeps_to_the_watermark(before, after);
    }
    if let Some(watermark) = run.last().drained {
        assert(not_passed(run.last().execs, watermark) =~= run.last().execs);
    }
}

/// A call leaves no execution before the watermark of the last draining.
proof fn lemma_call_keeps_to_the_watermark<H>(before: RunPoint<H>, after: RunPoint<H>)
    requires
        may_follow(before, after),
        does_not_go_back(before.drained, before.present),
        before.drained matches Some(watermark) ==> forall|time: u128| #[trigger]
            before.execs.contains_key(time) ==> time >= watermark,
    ensures
        does_not_go_back(after.drained, after.present),
        after.drained matches Some(watermark) ==> forall|time: u128| #[trigger]
            after.execs.contains_key(time) ==> time >= watermark,
{
    if !drains(before, after) && !moves_on(before, after) {
        let (column, order, parts, side, sent, time) = choose|
            column: Seq<TimeSlot>,
            order: Option<Vec<u32>>,
            parts: Vec<Part>,
            side: Side,
            sent: int,
            time: u128,
        | #[trigger]
            asks_for_exec(before.execs.dom(), after.present, column, order, parts, side, sent, time) && after.execs
                == before.execs.insert(time, after.execs[time]);
        if let Some(present) = after.present {
            no_part_before_the_watermark(column, present, order, parts, sent);
        }
    }
}

/// An execution stays, and stays what it is, exactly where its time is at or past the
/// watermark, whatever other executions there are; and none comes into being.
pub proof fn unpassed_executions_stay<H>(execs: Map<u128, H>, watermark: u128, time: u128)
    ensures
        not_passed(execs, watermark).contains_key(time) <==> execs.contains_key(time) && time >= watermark,
        execs.contains_key(time) && time >= watermark ==> not_passed(execs, watermark)[time] == execs[time],
{
}

/// What a watermark drains are the executions of the times before it: each of them
/// once, in ascending order, and as many as there are.
pub proof fn drained_are_the_passed<H>(execs: Map<u128, H>, watermark: u128, times: Seq<u128>)
    requires
        are_passed_times(execs, watermark, times),
    ensures
        forall|i: int, j: int| 0 <= i < j < times.len() ==> times[i] < times[j],
        forall|i: int| 0 <= i < times.len() ==> execs.contains_key(#[trigger] times[i]) && times[i] < watermark,
        forall|time: u128| #[trigger] execs.contains_key(time) && time < watermark ==> times.contains(time),
        times.len() == execs.dom().filter(|time: u128| time < watermark).len(),
{
    assert forall|i: int| 0 <= i < times.len() implies execs.contains_key(#[trigger] times[i]) && times[i]
        < watermark by {
        assert(times.contains(times[i]));
    }
    let passed = execs.dom().filter(|time: u128| time < watermark);
    assert(times.no_duplicates());
    times.unique_seq_to_set();
    assert(times.to_set() =~= passed) by {
        assert forall|time: u128| times.to_set().contains(time) <==> passed.contains(time) by {
            assert(times.contains(time) <==> execs.contains_key(time) && time < watermark);
        }
    }
}

/// To drain under one watermark and then under a later one leaves what the later one
/// alone leaves.
pub proof fn later_watermark_decides<H>(execs: Map<u128, H>, watermark: u128, later: u128)
    requires
        watermark <= later,
    ensures
        not_passed(not_passed(execs, watermark), later) == not_passed(execs, later),
{
    assert(not_passed(not_passed(execs, watermark), later) =~= not_passed(execs, later));
}

/// Every batch that the state tables hold is processed again, once: there are as many
/// as the groups of both tables have, and each stands at the place that the groups
/// before its own give it, with its side, those of the right side behind all of the
/// left. `left_starts` and `right_starts` count the batches before each group.
pub proof fn every_kept_batch_is_processed_again<B>(
    left: Seq<(u128, Vec<B>)>,
    right: Seq<(u128, Vec<B>)>,
    batches: Seq<(Side, B)>,
    left_starts: Seq<int>,
    right_starts: Seq<int>,
)
    requires
        batches == on_side(Side::Left, kept_batches(left)) + on_side(Side::Right, kept_batches(right)),
        left_starts.len() == left.len() + 1,
        left_starts[0] == 0,
        forall|g: int, h: int|
            0 <= g < left.len() && h == g + 1 ==> #[trigger] left_starts[h] == #[trigger] left_starts[g]
                + left[g].1@.len(),
        right_starts.len() == right.len() + 1,
        right_starts[0] == 0,
        forall|g: int, h: int|
            0 <= g < right.len() && h == g + 1 ==> #[trigger] right_starts[h] == #[trigger] right_starts[g]
                + right[g].1@.len(),
    ensures
        batches.len() == left_starts[left.len() as int] + right_starts[right.len() as int],
        forall|g: int, i: int|
            0 <= g < left.len() && 0 <= i < left[g].1@.len() ==> batches[left_starts[g] + i] == (
                Side::Left,
                #[trigger] left[g].1@[i],
            ),
        forall|g: int, i: int|
            0 <= g < right.len() && 0 <= i < right[g].1@.len() ==> batches[left_starts[left.len() as int]
                + right_starts[g] + i] == (Side::Right, #[trigger] right[g].1@[i]),
{
    lemma_places_of_kept_batches(left, left_starts);
    lemma_places_of_kept_batches(right, right_starts);
    assert forall|g: int, i: int| 0 <= g < left.len() && 0 <= i < left[g].1@.len() implies batches[left_starts[g] + i]
        == (Side::Left, #[trigger] left[g].1@[i]) by {
        assert(stands_at(kept_batches(left), left_starts[g] + i, left[g].1@[i]));
    }
    assert forall|g: int, i: int| 0 <= g < right.len() && 0 <= i < right[g].1@.len() implies batches[left_starts[left.len() as int]
        + right_starts[g] + i] == (Side::Right, #[trigger] right[g].1@[i]) by {
        assert(stands_at(kept_batches(right), right_starts[g] + i, right[g].1@[i]));
    }
}

/// The batch stands at the place.
spec fn stands_at<B>(batches: Seq<B>, place: int, batch: B) -> bool {
    0 <= place < batches.len() && batches[place] == batch
}

/// Where the batches of one state table stand.
proof fn lemma_places_of_kept_batches<B>(groups: Seq<(u128, Vec<B>)>, starts: Seq<int>)
    requires
        starts.len() == groups.len() + 1,
        starts[0] == 0,
        forall|g: int, h: int|
            0 <= g < groups.len() && h == g + 1 ==> #[trigger] starts[h] == #[trigger] starts[g]
                + groups[g].1@.len(),
    ensures
        kept_batches(groups).len() == starts[groups.len() as int],
        forall|g: int, i: int|
            0 <= g < groups.len() && 0 <= i < groups[g].1@.len() ==> stands_at(
                kept_batches(groups),
                starts[g] + i,
                #[trigger] groups[g].1@[i],
            ),
    decreases groups.len(),
{
    if groups.len() > 0 {
        let rest = groups.drop_last();
        let last = groups.len() - 1;
        assert forall|g: int, h: int| 0 <= g < rest.len() && h == g + 1 implies #[trigger] starts.drop_last()[h]
            == #[trigger] starts.drop_last()[g] + rest[g].1@.len() by {
            assert(starts[h] == starts[g] + groups[g].1@.len());
        }
        lemma_places_of_kept_batches(rest, starts.drop_last());
        assert(starts[last + 1] == starts[last] + groups[last].1@.len());
        assert forall|g: int, i: int| 0 <= g < groups.len() && 0 <= i < groups[g].1@.len() implies stands_at(
            kept_batches(groups),
            starts[g] + i,
            #[trigger] groups[g].1@[i],
        ) by {
            if g < last {
                assert(stands_at(kept_batches(rest), starts.drop_last()[g] + i, rest[g].1@[i]));
            }
        }
    }
}

/// The delivery of a batch is over exactly when every part has been sent. Until then
/// it goes on with the first part that has not been sent: that part itself is sent, on
/// the side of the batch, exactly where its time has an execution, and otherwise one
/// is asked for at its time.
pub proof fn delivery_goes_on_with_the_next_part(side: Side, parts: Seq<Part>, sent: int, times: Set<u128>)
    requires
        0 <= sent,
    ensures
        delivery_step(side, parts, sent, times) is Done <==> sent >= parts.len(),
        delivery_step(side, parts, sent, times) is Send <==> sent < parts.len() && times.contains(parts[sent].time),
        delivery_step(side, parts, sent, times) matches DeliveryStep::Send { side: to, part } ==> to == side && part
            == parts[sent],
        delivery_step(side, parts, sent, times) matches DeliveryStep::CreateExec { time } ==> time
            == parts[sent].time && !times.contains(time),
{
}

/// A run of a delivery that has come to its end has sent every part, each of them in
/// its turn and while its time had an execution, and has left executions for the times
/// that had one before and for those of the parts, and for no other. `steps[k]` is what
/// is done with `sent[k]` parts sent and executions for `times[k]`.
pub proof fn finished_deliveries_have_sent_every_part(
    side: Side,
    parts: Seq<Part>,
    steps: Seq<DeliveryStep>,
    sent: Seq<int>,
    times: Seq<Set<u128>>,
)
    requires
        steps.len() > 0,
        sent.len() == steps.len(),
        times.len() == steps.len(),
        sent[0] == 0,
        forall|k: int|
            0 <= k < steps.len() ==> #[trigger] steps[k] == delivery_step(side, parts, sent[k], times[k]),
        forall|k: int, m: int|
            0 <= k && m == k + 1 && m < steps.len() ==> #[trigger] sent[m] == #[trigger] sent[k] + (if steps[k] is Send {
                1int
            } else {
                0int
            }),
        forall|k: int, m: int|
            0 <= k && m == k + 1 && m < steps.len() ==> #[trigger] times[m] == (match steps[k] {
                DeliveryStep::CreateExec { time } => (#[trigger] times[k]).insert(time),
                _ => times[k],
            }),
        steps.last() is Done,
    ensures
        forall|i: int|
            0 <= i < parts.len() ==> exists|k: int|
                0 <= k < steps.len() && sent[k] == i && #[trigger] steps[k] == (DeliveryStep::Send {
                    side,
                    part: #[trigger] parts[i],
                }) && times[k].contains(parts[i].time),
        forall|time: u128| #[trigger]
            times.last().contains(time) <==> times[0].contains(time) || exists|i: int|
                0 <= i < parts.len() && (#[trigger] parts[i]).time == time,
{
    let end = steps.len() - 1;
    lemma_sent_so_far(side, parts, steps, sent, times, end);
    assert(steps[end] == delivery_step(side, parts, sent[end], times[end]));
    assert(sent[end] == parts.len());
    assert forall|time: u128| #[trigger] times.last().contains(time) <==> times[0].contains(time) || exists|i: int|
        0 <= i < parts.len() && (#[trigger] parts[i]).time == time by {
        if exists|i: int| 0 <= i < parts.len() && (#[trigger] parts[i]).time == time {
            let i = choose|i: int| 0 <= i < parts.len() && (#[trigger] parts[i]).time == time;
            assert(times[end].contains(parts[i].time));
        }
    }
}

/// What a delivery has done after some of its steps.
proof fn lemma_sent_so_far(
    side: Side,
    parts: Seq<Part>,
    steps: Seq<DeliveryStep>,
    sent: Seq<int>,
    times: Seq<Set<u128>>,
    end: int,
)
    requires
        0 <= end < steps.len(),
        sent.len() == steps.len(),
        times.len() == steps.len(),
        sent[0] == 0,
        forall|k: int|
            0 <= k < steps.len() ==> #[trigger] steps[k] == delivery_step(side, parts, sent[k], times[k]),
        forall|k: int, m: int|
            0 <= k && m == k + 1 && m < steps.len() ==> #[trigger] sent[m] == #[trigger] sent[k] + (if steps[k] is Send {
                1int
            } else {
                0int
            }),
        forall|k: int, m: int|
            0 <= k && m == k + 1 && m < steps.len() ==> #[trigger] times[m] == (match steps[k] {
                DeliveryStep::CreateExec { time } => (#[trigger] times[k]).insert(time),
                _ => times[k],
            }),
    ensures
        0 <= sent[end] <= parts.len(),
        forall|i: int|
            0 <= i < sent[end] ==> exists|k: int|
                0 <= k < end && sent[k] == i && #[trigger] steps[k] == (DeliveryStep::Send {
                    side,
                    part: #[trigger] parts[i],
                }) && times[k].contains(parts[i].time),
        forall|i: int| 0 <= i < sent[end] ==> times[end].contains((#[trigger] parts[i]).time),
        forall|time: u128| #[trigger] times[0].contains(time) ==> times[end].contains(time),
        forall|time: u128| #[trigger]
            times[end].contains(time) ==> times[0].contains(time) || exists|i: int|
                0 <= i < parts.len() && (#[trigger] parts[i]).time == time,
    decreases end,
{
    if end > 0 {
        let before = end - 1;
        lemma_sent_so_far(side, parts, steps, sent, times, before);
        let step = steps[before];
        assert(step == delivery_step(side, parts, sent[before], times[before]));
        assert(sent[end] == sent[before] + (if step is Send {
            1int
        } else {
            0int
        }));
        assert(times[end] == (match step {
            DeliveryStep::CreateExec { time } => times[before].insert(time),
            _ => times[before],
        }));
        assert forall|i: int| 0 <= i < sent[end] implies exists|k: int|
            0 <= k < end && sent[k] == i && #[trigger] steps[k] == (DeliveryStep::Send {
                side,
                part: #[trigger] parts[i],
            }) && times[k].contains(parts[i].time) by {
            if i == sent[before] {
                assert(steps[before] == (DeliveryStep::Send { side, part: parts[i] }));
                assert(times[before].contains(parts[i].time));
            } else {
                let k = choose|k: int|
                    0 <= k < before && sent[k] == i && #[trigger] steps[k] == (DeliveryStep::Send {
                        side,
                        part: parts[i],
                    }) && times[k].contains(parts[i].time);
                assert(steps[k] == (DeliveryStep::Send { side, part: parts[i] }));
            }
        }
        if let DeliveryStep::CreateExec { time } = step {
            assert(parts[sent[before]].time == time);
        }
    }
}

/// A configuration makes an operator exactly where its plan decodes and both schemas
/// are there and convert. Otherwise a plan that does not decode comes before the
/// schemas, and the left schema before the right.
pub proof fn first_fault_is_reported<P, E>(
    plan: Result<PhysicalPlanNode, DecodeError>,
    left: Option<Result<P, E>>,
    right: Option<Result<P, E>>,
)
    ensures
        join_config_error(plan, left, right) is None <==> plan is Ok && (left matches Some(schema) && schema is Ok) && (
        right matches Some(schema) && schema is Ok),
        plan matches Err(error) ==> join_config_error(plan, left, right) == Some(JoinConfigError::<E>::Plan(error)),
        plan is Ok && left is None ==> join_config_error(plan, left, right) == Some(
            JoinConfigError::<E>::MissingSchema(Side::Left),
        ),
        plan is Ok ==> (left matches Some(Err(error)) ==> join_config_error(plan, left, right) == Some(
            JoinConfigError::<E>::Schema(error),
        )),
        plan is Ok && (left matches Some(schema) && schema is Ok) && right is None ==> join_config_error(
            plan,
            left,
            right,
        ) == Some(JoinConfigError::<E>::MissingSchema(Side::Right)),
        plan is Ok && (left matches Some(schema) && schema is Ok) ==> (right matches Some(Err(error))
            ==> join_config_error(plan, left, right) == Some(JoinConfigError::<E>::Schema(error))),
{
}

} // verus!
