use arroyo_worker::instant_join::{
    drain_step, Delivery, DeliveryStep, InstantComputeHolder, InstantJoin, InstantJoinConstructor,
    JoinConfigError, JoinOperator, OutputStep, Watermark,
};
use arroyo_worker::routing::{Part, Routing, Side};
use arroyo_worker::timestamps::TimeSlot;
use datafusion_proto::protobuf::physical_plan_node::PhysicalPlanType;
use datafusion_proto::protobuf::{EmptyExecNode, PhysicalPlanNode};
use prost::Message;

type Join = InstantJoin<&'static str, String, u32>;

fn plan() -> PhysicalPlanNode {
    PhysicalPlanNode {
        physical_plan_type: Some(PhysicalPlanType::Empty(EmptyExecNode { schema: None })),
    }
}

fn config(join_plan: Vec<u8>) -> JoinOperator<&'static str, u8> {
    JoinOperator {
        join_plan,
        left_schema: Some(Ok("left schema")),
        right_schema: Some(Ok("right schema")),
    }
}

fn join() -> Join {
    InstantJoinConstructor
        .with_config(config(plan().encode_to_vec()))
        .unwrap_or_else(|_| panic!("the configuration is valid"))
}

fn holder(future: &str) -> InstantComputeHolder<String, u32> {
    InstantComputeHolder { active_exec: future.to_string(), left_sender: 1, right_sender: 2 }
}

fn column(timestamps: &[i64]) -> Vec<TimeSlot> {
    timestamps.iter().map(|value| TimeSlot { value: *value, valid: true }).collect()
}

#[test]
fn config_gives_schemas_and_plan() {
    let join = join();
    assert_eq!(*join.input_schema(Side::Left), "left schema");
    assert_eq!(*join.input_schema(Side::Right), "right schema");
    assert_eq!(*join.join_plan(), plan());
    assert!(join.exec(0).is_none());
}

#[test]
fn config_with_a_broken_plan_is_refused() {
    let mut broken = config(vec![0xff]);
    broken.left_schema = None;
    let r: Result<Join, _> = InstantJoinConstructor.with_config(broken);
    assert!(matches!(r, Err(JoinConfigError::Plan(_))));
}

#[test]
fn config_without_a_schema_is_refused() {
    let mut missing = config(plan().encode_to_vec());
    missing.right_schema = None;
    let r: Result<Join, _> = InstantJoinConstructor.with_config(missing);
    assert!(matches!(r, Err(JoinConfigError::MissingSchema(Side::Right))));
    let mut missing = config(plan().encode_to_vec());
    missing.left_schema = None;
    missing.right_schema = Some(Err(3));
    let r: Result<Join, _> = InstantJoinConstructor.with_config(missing);
    assert!(matches!(r, Err(JoinConfigError::MissingSchema(Side::Left))));
}

#[test]
fn config_with_a_bad_schema_is_refused() {
    let mut bad = config(plan().encode_to_vec());
    bad.left_schema = Some(Err(7));
    bad.right_schema = None;
    let r: Result<Join, _> = InstantJoinConstructor.with_config(bad);
    assert!(matches!(r, Err(JoinConfigError::Schema(7))));
}

#[test]
fn plan_decides_before_schemas() {
    let r: Result<Join, JoinConfigError<u8>> =
        InstantJoinConstructor::with_plan(Ok(plan()), None, None);
    assert!(matches!(r, Err(JoinConfigError::MissingSchema(Side::Left))));
    let broken = PhysicalPlanNode::decode([0xffu8].as_slice()).unwrap_err();
    let r: Result<Join, JoinConfigError<u8>> =
        InstantJoinConstructor::with_plan(Err(broken), None, None);
    assert!(matches!(r, Err(JoinConfigError::Plan(_))));
}

#[test]
fn operator_is_named_and_shown() {
    let join = join();
    assert_eq!(join.name(), "InstantJoin");
    let display = join.display("HashJoinExec".to_string());
    assert_eq!(display.name, "InstantJoin");
    assert_eq!(
        display.fields,
        vec![("join_execution_plan".to_string(), "HashJoinExec".to_string())]
    );
}

#[test]
fn each_side_has_a_table() {
    let join = join();
    let tables = join.tables();
    assert_eq!(tables.len(), 2);
    assert_eq!(tables[0].name, "left");
    assert_eq!(tables[0].description, "left join data");
    assert_eq!(*tables[0].schema, "left schema");
    assert_eq!(tables[1].name, "right");
    assert_eq!(tables[1].description, "right join data");
    assert_eq!(*tables[1].schema, "right schema");
    for table in tables {
        assert_eq!(table.retention_nanos, 0);
        assert!(!table.generational);
    }
}

#[test]
fn senders_belong_to_sides() {
    let holder = holder("f");
    assert_eq!(*holder.sender(Side::Left), 1);
    assert_eq!(*holder.sender(Side::Right), 2);
}

#[test]
fn first_half_of_the_inputs_is_left() {
    let join = join();
    let sides: Vec<Side> = (0..6)
        .map(|index| join.process_batch_index(index, 6, &column(&[1]), None).side)
        .collect();
    assert_eq!(
        sides,
        vec![Side::Left, Side::Left, Side::Left, Side::Right, Side::Right, Side::Right]
    );
    assert_eq!(join.process_batch_index(1, 3, &column(&[1]), None).side, Side::Right);
    assert_eq!(join.process_left(&column(&[4, 2]), None).state_time, 4);
    assert_eq!(join.process_right(&column(&[4, 2]), None).side, Side::Right);
}

#[test]
fn watermark_drains_passed_executions_in_order() {
    let mut join = join();
    for (time, future) in [(30, "c"), (10, "a"), (40, "d"), (20, "b")] {
        join.insert_exec(time, holder(future));
    }
    let (futures, watermark) = join.handle_watermark(Watermark::Idle, Some(30));
    assert_eq!(futures, vec!["a".to_string(), "b".to_string()]);
    assert_eq!(watermark, Some(Watermark::EventTime(30)));
    assert!(join.exec(10).is_none());
    assert!(join.exec(20).is_none());
    assert_eq!(join.exec(30).unwrap().active_exec, "c");
    assert_eq!(join.exec(40).unwrap().active_exec, "d");
}

#[test]
fn watermark_that_comes_again_drains_nothing() {
    let mut join = join();
    join.insert_exec(10, holder("a"));
    join.insert_exec(50, holder("e"));
    assert_eq!(join.handle_watermark(Watermark::EventTime(20), Some(20)).0.len(), 1);
    assert_eq!(join.handle_watermark(Watermark::EventTime(20), Some(20)).0.len(), 0);
    assert!(join.exec(50).is_some());
    assert_eq!(join.handle_watermark(Watermark::EventTime(60), Some(60)).0.len(), 1);
    assert_eq!(join.handle_watermark(Watermark::EventTime(70), Some(70)).0.len(), 0);
}

#[test]
fn watermark_that_is_not_known_goes_on_as_it_came() {
    let mut join = join();
    join.insert_exec(10, holder("a"));
    let (futures, watermark) = join.handle_watermark(Watermark::Idle, None);
    assert!(futures.is_empty());
    assert_eq!(watermark, Some(Watermark::Idle));
    assert!(join.exec(10).is_some());
}

#[test]
fn delivery_creates_what_is_missing_and_feeds_it() {
    let mut join = join();
    join.insert_exec(20, holder("b"));
    let plan = join.process_left(&column(&[20, 10, 20]), None);
    let parts: Vec<Part> = match plan.routing {
        Routing::Rows { parts, .. } => parts,
        Routing::Late { .. } => panic!("the batch is not late"),
    };
    let mut delivery = Delivery::new(plan.side, parts);
    assert!(matches!(delivery.next_step(&join), DeliveryStep::CreateExec { time: 10 }));
    join.insert_exec(10, holder("a"));
    match delivery.next_step(&join) {
        DeliveryStep::Send { side, part } => {
            assert_eq!((side, part.time, part.rows), (Side::Left, 10, 0..1));
        }
        _ => panic!("the part is sent"),
    }
    match delivery.next_step(&join) {
        DeliveryStep::Send { side, part } => {
            assert_eq!((side, part.time, part.rows), (Side::Left, 20, 1..3));
        }
        _ => panic!("the part is sent"),
    }
    assert!(matches!(delivery.next_step(&join), DeliveryStep::Done));
    assert!(matches!(delivery.next_step(&join), DeliveryStep::Done));
}

#[test]
fn passed_times_are_not_opened_again() {
    let mut join = join();
    join.insert_exec(10, holder("a"));
    join.handle_watermark(Watermark::EventTime(20), Some(20));
    let plan = join.process_left(&column(&[10, 25]), Some(20));
    assert!(matches!(plan.routing, Routing::Late { min_timestamp: 10, watermark: 20 }));
}

#[test]
fn future_result_moves_the_execution_on() {
    let mut join = join();
    join.insert_exec(10, holder("a"));
    let step = join.handle_future_result::<&str, &str>(Some((10, Some((Ok("batch"), "next".to_string())))));
    match step {
        Some(OutputStep::Emit { batch, future }) => {
            assert_eq!(batch, "batch");
            assert_eq!(future, "next");
        }
        _ => panic!("the batch goes on"),
    }
    let exec = join.exec(10).unwrap();
    assert_eq!(exec.active_exec, "next");
    assert_eq!((exec.left_sender, exec.right_sender), (1, 2));
}

#[test]
fn future_result_without_a_batch_changes_nothing() {
    let mut join = join();
    join.insert_exec(10, holder("a"));
    assert!(join.handle_future_result::<u8, u8>(None).is_none());
    assert!(matches!(
        join.handle_future_result::<u8, u8>(Some((99, None))),
        Some(OutputStep::Finished)
    ));
    assert!(join.exec(99).is_none());
    assert_eq!(join.exec(10).unwrap().active_exec, "a");
}

#[test]
fn future_result_can_fail() {
    let mut join = join();
    join.insert_exec(10, holder("a"));
    let step = join.handle_future_result::<u8, &str>(Some((10, Some((Err("broken"), "next".to_string())))));
    assert!(matches!(step, Some(OutputStep::Failed { error: "broken" })));
    assert_eq!(join.exec(10).unwrap().active_exec, "next");
}

#[test]
fn draining_goes_on_until_there_is_no_more() {
    assert!(matches!(
        drain_step::<u8, u8, u8>(Some((Ok(1), 2))),
        OutputStep::Emit { batch: 1, future: 2 }
    ));
    assert!(matches!(
        drain_step::<u8, u8, u8>(Some((Err(3), 2))),
        OutputStep::Failed { error: 3 }
    ));
    assert!(matches!(drain_step::<u8, u8, u8>(None), OutputStep::Finished));
}

#[test]
fn left_batches_are_restored_first() {
    let join = join();
    let left = vec![(1, vec!["a", "b"]), (2, vec![]), (3, vec!["c"])];
    let right = vec![(1, vec!["d"])];
    assert_eq!(
        join.on_start(left, right),
        vec![
            (Side::Left, "a"),
            (Side::Left, "b"),
            (Side::Left, "c"),
            (Side::Right, "d")
        ]
    );
}

#[test]
fn checkpoint_flushes_both_tables() {
    let flushes = join().handle_checkpoint(Some(8));
    assert_eq!(flushes.len(), 2);
    assert_eq!((flushes[0].table, flushes[0].watermark), ("left", Some(8)));
    assert_eq!((flushes[1].table, flushes[1].watermark), ("right", Some(8)));
}

/// Delivers a batch whole: the times that were asked for, and the parts that were sent.
fn deliver(join: &mut Join, timestamps: &[i64], watermark: Option<u128>) -> (Vec<u128>, Vec<u128>) {
    let plan = join.process_right(&column(timestamps), watermark);
    let parts: Vec<Part> = match plan.routing {
        Routing::Rows { parts, .. } => parts,
        Routing::Late { .. } => panic!("the batch is not late"),
    };
    let mut delivery = Delivery::new(plan.side, parts);
    let (mut asked, mut sent) = (Vec::new(), Vec::new());
    loop {
        match delivery.next_step(join) {
            DeliveryStep::CreateExec { time } => {
                asked.push(time);
                join.insert_exec(time, holder("new"));
            }
            DeliveryStep::Send { side, part } => {
                assert_eq!(side, Side::Right);
                sent.push(part.time);
            }
            DeliveryStep::Done => return (asked, sent),
        }
    }
}

#[test]
fn delivery_hands_out_every_part_once() {
    let mut join = join();
    join.insert_exec(20, holder("b"));
    join.insert_exec(90, holder("i"));
    assert_eq!(
        deliver(&mut join, &[30, 20, 10, 30, 40], None),
        (vec![10, 30, 40], vec![10, 20, 30, 40])
    );
    assert_eq!(deliver(&mut join, &[40, 10], None), (vec![], vec![10, 40]));
    let (futures, _) = join.handle_watermark(Watermark::Idle, Some(100));
    assert_eq!(futures, ["new", "b", "new", "new", "i"]);
}

#[test]
fn row_order_does_not_change_executions() {
    let (mut one, mut other) = (join(), join());
    let first = deliver(&mut one, &[7, 5, 9, 5], Some(5));
    let second = deliver(&mut other, &[5, 9, 5, 7], Some(5));
    assert_eq!(first, second);
    assert_eq!(first, (vec![5, 7, 9], vec![5, 7, 9]));
}

#[test]
fn run_of_calls_keeps_to_the_watermark() {
    let mut join = join();
    deliver(&mut join, &[10, 20, 30], None);
    assert_eq!(join.handle_watermark(Watermark::Idle, Some(20)).0.len(), 1);
    deliver(&mut join, &[25, 20], Some(20));
    join.handle_future_result::<&str, &str>(Some((20, Some((Ok("batch"), "next".to_string())))));
    deliver(&mut join, &[28], Some(27));
    assert!((0..20).all(|time| join.exec(time).is_none()));
    let (futures, _) = join.handle_watermark(Watermark::Idle, Some(28));
    assert_eq!(futures, ["next", "new"]);
    assert!((0..28).all(|time| join.exec(time).is_none()));
    assert!(join.exec(28).is_some() && join.exec(30).is_some());
}
