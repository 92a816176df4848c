use arroyo_worker::routing::{input_side, process_side, Routing, Side};
use arroyo_worker::timestamps::TimeSlot;

fn column(timestamps: &[i64]) -> Vec<TimeSlot> {
    timestamps.iter().map(|value| TimeSlot { value: *value, valid: true }).collect()
}

/// The rows of each part, sorted, under the time of the part.
fn delivered(routing: Routing) -> Vec<(u128, Vec<u32>)> {
    match routing {
        Routing::Late { .. } => panic!("the batch is late"),
        Routing::Rows { order, parts } => parts
            .iter()
            .map(|part| {
                let mut rows: Vec<u32> = match &order {
                    None => part.rows.clone().map(|row| row as u32).collect(),
                    Some(order) => order[part.rows.clone()].to_vec(),
                };
                rows.sort();
                (part.time, rows)
            })
            .collect(),
    }
}

#[test]
fn sides_have_their_names() {
    assert_eq!(Side::Left.name(), "left");
    assert_eq!(Side::Right.name(), "right");
}

#[test]
fn single_timestamp_goes_on_whole() {
    let plan = process_side(Side::Left, &column(&[7, 7, 7]), None);
    assert_eq!(plan.side, Side::Left);
    assert_eq!(plan.state_time, 7);
    match plan.routing {
        Routing::Rows { order, parts } => {
            assert!(order.is_none());
            assert_eq!(parts.len(), 1);
            assert_eq!(parts[0].time, 7);
            assert_eq!(parts[0].rows, 0..3);
        }
        Routing::Late { .. } => panic!("the batch is not late"),
    }
}

#[test]
fn rows_are_split_by_time() {
    let plan = process_side(Side::Right, &column(&[30, 10, 20, 10, 30, 10]), None);
    assert_eq!(plan.side, Side::Right);
    assert_eq!(plan.state_time, 30);
    assert_eq!(
        delivered(plan.routing),
        vec![(10, vec![1, 3, 5]), (20, vec![2]), (30, vec![0, 4])]
    );
}

#[test]
fn positions_of_parts_are_consecutive() {
    match process_side(Side::Left, &column(&[5, 4, 4, 3]), None).routing {
        Routing::Rows { order, parts } => {
            assert_eq!(order.unwrap().len(), 4);
            let rows: Vec<_> = parts.iter().map(|part| part.rows.clone()).collect();
            assert_eq!(rows, vec![0..1, 1..3, 3..4]);
            let times: Vec<_> = parts.iter().map(|part| part.time).collect();
            assert_eq!(times, vec![3, 4, 5]);
        }
        Routing::Late { .. } => panic!("the batch is not late"),
    }
}

#[test]
fn batch_before_the_watermark_is_refused() {
    let plan = process_side(Side::Left, &column(&[12, 9, 15]), Some(10));
    assert_eq!(plan.state_time, 15);
    match plan.routing {
        Routing::Late { min_timestamp, watermark } => {
            assert_eq!(min_timestamp, 9);
            assert_eq!(watermark, 10);
        }
        Routing::Rows { .. } => panic!("the batch is late"),
    }
}

#[test]
fn batch_at_the_watermark_goes_on() {
    let plan = process_side(Side::Left, &column(&[12, 10]), Some(10));
    assert_eq!(delivered(plan.routing), vec![(10, vec![1]), (12, vec![0])]);
}

#[test]
fn parts_do_not_lie_before_the_watermark() {
    let parts = delivered(process_side(Side::Left, &column(&[44, 41, 43]), Some(41)).routing);
    assert!(parts.iter().all(|(time, _)| *time >= 41));
    let parts = delivered(process_side(Side::Left, &column(&[-1, -3, -2]), Some(41)).routing);
    assert_eq!(
        parts,
        vec![(u128::MAX - 2, vec![1]), (u128::MAX - 1, vec![2]), (u128::MAX, vec![0])]
    );
}

#[test]
fn batch_is_kept_under_its_greatest_time() {
    let plan = process_side(Side::Right, &column(&[44, 41, 43]), None);
    assert_eq!(plan.state_time, 44);
    assert!(delivered(plan.routing).iter().all(|(time, _)| *time <= 44));
    let plan = process_side(Side::Right, &column(&[-7, -2]), None);
    assert_eq!(plan.state_time, u128::MAX - 1);
    assert!(delivered(plan.routing).iter().all(|(time, _)| *time < u128::MAX));
}

#[test]
fn rows_without_a_timestamp_come_first() {
    let column = vec![
        TimeSlot { value: 8, valid: true },
        TimeSlot { value: 77, valid: false },
        TimeSlot { value: 6, valid: true },
        TimeSlot { value: 99, valid: false },
    ];
    let plan = process_side(Side::Left, &column, None);
    assert_eq!(plan.state_time, 8);
    assert_eq!(
        delivered(plan.routing),
        vec![(77, vec![1, 3]), (6, vec![2]), (8, vec![0])]
    );
}

#[test]
fn rows_without_a_timestamp_stay_with_a_single_one() {
    let column = vec![
        TimeSlot { value: 1, valid: false },
        TimeSlot { value: 6, valid: true },
    ];
    let plan = process_side(Side::Left, &column, None);
    assert_eq!(plan.state_time, 6);
    assert_eq!(delivered(plan.routing), vec![(6, vec![0, 1])]);
}

#[test]
fn timestamps_before_the_epoch_wrap_around() {
    let plan = process_side(Side::Left, &column(&[-1, 0]), Some(5));
    assert_eq!(plan.state_time, 0);
    assert_eq!(
        delivered(plan.routing),
        vec![(u128::MAX, vec![0]), (0, vec![1])]
    );
}

#[test]
fn inputs_are_halved() {
    assert_eq!(input_side(0, 2), Side::Left);
    assert_eq!(input_side(1, 2), Side::Right);
    assert_eq!(input_side(3, 8), Side::Left);
    assert_eq!(input_side(4, 8), Side::Right);
    assert_eq!(input_side(1, 3), Side::Right);
}

#[test]
fn row_order_does_not_matter() {
    // Row `i` of the second column is row `moved[i]` of the first.
    let moved = [2, 0, 3, 1];
    let timestamps = [30, 10, 20, 10];
    let reordered: Vec<i64> = moved.iter().map(|row| timestamps[*row]).collect();
    let first = process_side(Side::Left, &column(&timestamps), Some(10));
    let second = process_side(Side::Left, &column(&reordered), Some(10));
    assert_eq!(first.state_time, second.state_time);
    let images: Vec<(u128, Vec<u32>)> = delivered(second.routing)
        .into_iter()
        .map(|(time, rows)| {
            let mut rows: Vec<u32> = rows.iter().map(|row| moved[*row as usize] as u32).collect();
            rows.sort();
            (time, rows)
        })
        .collect();
    assert_eq!(images, delivered(first.routing));
    assert!(matches!(
        process_side(Side::Left, &column(&reordered), Some(11)).routing,
        Routing::Late { min_timestamp: 10, watermark: 11 }
    ));
}

#[test]
fn first_null_gives_its_value_to_the_others() {
    let slot = |value: i64, valid: bool| TimeSlot { value, valid };
    let one = vec![slot(1, true), slot(7, false), slot(8, false), slot(2, true)];
    let other = vec![slot(1, true), slot(8, false), slot(7, false), slot(2, true)];
    assert_eq!(delivered(process_side(Side::Left, &one, None).routing)[0], (7, vec![1, 2]));
    assert_eq!(delivered(process_side(Side::Left, &other, None).routing)[0], (8, vec![1, 2]));
}
