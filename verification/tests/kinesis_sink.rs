use arroyo_worker::kinesis_sink::{
    flush_with_retries, AttemptStep, BatchRecordPreparer, FlushStart, KinesisSinkFunc, KinesisTable,
    PutRecordsReply, ReplyError, SentBatch, SinkStep, TableType,
};
use aws_sdk_kinesis::client::fluent_builders::PutRecords;
use aws_sdk_kinesis::{Client, Config};

const SECOND: u128 = 1_000_000_000;

fn record(key: &str, value: &str) -> (String, String) {
    (key.to_string(), value.to_string())
}

fn sink() -> KinesisSinkFunc {
    let table = KinesisTable { stream_name: "clicks".to_string(), type_: TableType::Sink };
    let mut sink = KinesisSinkFunc::from_config(table).unwrap();
    sink.on_start(Client::from_conf(Config::builder().build()));
    sink
}

fn add(sink: &mut KinesisSinkFunc, key: &str, value: &str, now: u128) -> SinkStep {
    sink.process_record(key.to_string(), value.to_string(), now, now)
}

fn send(batch: BatchRecordPreparer) -> (PutRecords, SentBatch) {
    match batch.start_flush() {
        FlushStart::Send { call, batch } => (call, batch),
        FlushStart::Nothing => panic!("the batch holds records"),
    }
}

/// A batch of the records `a`, `b`, and `c`.
fn sent() -> SentBatch {
    let mut sink = sink();
    add(&mut sink, "a", "1", 0);
    add(&mut sink, "b", "2", 0);
    add(&mut sink, "c", "3", 0);
    send(sink.handle_checkpoint().unwrap()).1
}

fn reply(failed: i32, has_error_code: &[bool]) -> PutRecordsReply {
    PutRecordsReply {
        failed_record_count: Some(failed),
        has_error_code: Some(has_error_code.to_vec()),
    }
}

#[test]
fn only_sink_tables_make_a_sink() {
    let table = KinesisTable { stream_name: "clicks".to_string(), type_: TableType::Source };
    assert!(KinesisSinkFunc::from_config(table).is_none());
    let table = KinesisTable { stream_name: "clicks".to_string(), type_: TableType::Sink };
    let sink = KinesisSinkFunc::from_config(table).unwrap();
    assert_eq!(sink.name(), "kinesis-producer-clicks");
    assert!(!sink.is_ready());
}

#[test]
fn request_holds_the_records_of_the_batch() {
    let mut sink = sink();
    assert!(sink.is_ready());
    add(&mut sink, "first key", "AB", 0);
    add(&mut sink, "second key", "é", 0);
    let (call, _) = send(sink.handle_checkpoint().unwrap());
    let shown = format!("{:?}", call);
    assert!(shown.contains("stream_name: Some(\"clicks\")"));
    assert_eq!(shown.matches("partition_key").count(), 2);
    let first = shown.find("data: Some(Blob { inner: [65, 66] })").unwrap();
    let first_key = shown.find("partition_key: Some(\"first key\")").unwrap();
    let second = shown.find("data: Some(Blob { inner: [195, 169] })").unwrap();
    let second_key = shown.find("partition_key: Some(\"second key\")").unwrap();
    assert!(first < first_key && first_key < second && second < second_key);
}

#[test]
fn record_without_a_key_gets_a_random_one() {
    let mut sink = sink();
    sink.process_element(None, "1".to_string(), 0, 0);
    sink.process_element(None, "2".to_string(), 0, 0);
    sink.process_element(Some("\"k\"".to_string()), "3".to_string(), 0, 0);
    let (_, batch) = send(sink.handle_checkpoint().unwrap());
    let failed = batch.flush(reply(3, &[true, true, true])).unwrap();
    assert_eq!(failed[2], record("\"k\"", "3"));
    assert_ne!(failed[0].0, failed[1].0);
    for (key, _) in &failed[..2] {
        let chars: Vec<char> = key.chars().collect();
        assert_eq!(chars.len(), 36);
        for (i, c) in chars.iter().enumerate() {
            if [8, 13, 18, 23].contains(&i) {
                assert_eq!(*c, '-');
            } else {
                assert!(c.is_ascii_digit() || ('a'..='f').contains(c));
            }
        }
        assert_eq!(chars[14], '4');
        assert!(['8', '9', 'a', 'b'].contains(&chars[19]));
    }
}

#[test]
fn batch_is_due_with_its_last_record() {
    let mut sink = sink();
    for i in 0..499 {
        assert!(matches!(add(&mut sink, "k", &i.to_string(), 0), SinkStep::Hold));
    }
    match add(&mut sink, "k", "499", 0) {
        SinkStep::Flush(batch) => {
            let failed = send(batch).1.flush(reply(500, &[true; 500])).unwrap();
            assert_eq!(failed.len(), 500);
            assert_eq!(failed[0], record("k", "0"));
            assert_eq!(failed[499], record("k", "499"));
        }
        _ => panic!("the batch is due"),
    }
    assert!(sink.handle_checkpoint().is_none());
}

#[test]
fn batch_is_due_with_its_last_byte() {
    let mut held = sink();
    assert!(matches!(add(&mut held, "k", &"x".repeat(4_499_999), 0), SinkStep::Hold));
    assert!(matches!(add(&mut held, "k", "", 0), SinkStep::Hold));
    assert!(matches!(add(&mut held, "k", "x", 0), SinkStep::Flush(_)));
    let mut wide = sink();
    assert!(matches!(add(&mut wide, "k", &"é".repeat(2_250_000), 0), SinkStep::Flush(_)));
}

#[test]
fn batch_is_due_after_a_second() {
    let mut sink = sink();
    assert!(matches!(add(&mut sink, "a", "1", SECOND), SinkStep::Hold));
    assert!(matches!(sink.handle_tick(2 * SECOND - 1), SinkStep::Hold));
    match add(&mut sink, "b", "2", 2 * SECOND) {
        SinkStep::Flush(batch) => {
            assert_eq!(batch.should_flush(2 * SECOND - 1), Some(false));
            assert_eq!(batch.should_flush(2 * SECOND), Some(true));
            assert_eq!(batch.should_flush(9 * SECOND), Some(true));
            assert_eq!(batch.should_flush(SECOND - 1), None);
        }
        _ => panic!("the batch is due"),
    }
    assert!(matches!(sink.handle_tick(9 * SECOND), SinkStep::Hold));
}

#[test]
fn tick_takes_a_batch_that_is_due() {
    let mut sink = sink();
    add(&mut sink, "a", "1", 0);
    match sink.handle_tick(SECOND) {
        SinkStep::Flush(batch) => {
            let failed = send(batch).1.flush(reply(1, &[true])).unwrap();
            assert_eq!(failed, vec![record("a", "1")]);
        }
        _ => panic!("the batch is due"),
    }
    assert!(sink.handle_checkpoint().is_none());
}

#[test]
fn age_cannot_be_told_when_the_clock_went_back() {
    let mut sink = sink();
    add(&mut sink, "a", "1", SECOND);
    assert!(matches!(sink.handle_tick(0), SinkStep::ClockWentBack));
    assert!(matches!(add(&mut sink, "b", "2", 0), SinkStep::ClockWentBack));
    assert!(sink.handle_checkpoint().is_none());
}

#[test]
fn empty_batch_sends_nothing() {
    let mut sink = sink();
    let batch = sink.take_or_create_batch_preparer(0);
    assert!(matches!(batch.start_flush(), FlushStart::Nothing));
}

#[test]
fn failed_records_are_returned_in_order() {
    assert_eq!(
        sent().flush(reply(2, &[true, false, true])).unwrap(),
        vec![record("a", "1"), record("c", "3")]
    );
    assert_eq!(sent().flush(reply(1, &[false, true])).unwrap(), vec![record("b", "2")]);
    assert_eq!(
        sent().flush(reply(1, &[false, false, true, false, false])).unwrap(),
        vec![record("c", "3")]
    );
}

#[test]
fn error_codes_are_not_looked_at_without_failures() {
    assert!(sent().flush(reply(0, &[true, true, true])).unwrap().is_empty());
    assert!(sent().flush(reply(-1, &[true])).unwrap().is_empty());
    let silent = PutRecordsReply { failed_record_count: None, has_error_code: None };
    assert!(sent().flush(silent).unwrap().is_empty());
}

#[test]
fn reply_that_makes_no_sense_is_refused() {
    let missing = PutRecordsReply { failed_record_count: Some(1), has_error_code: None };
    assert_eq!(sent().flush(missing), Err(ReplyError::MissingRecords));
    assert_eq!(
        sent().flush(reply(1, &[true, false, false, false, true, true])),
        Err(ReplyError::UnknownRecord { index: 4 })
    );
}

#[test]
fn retry_holds_the_failed_records() {
    let mut sink = sink();
    let batch = sink.retry_batch(vec![record("b", "2"), record("c", "3")], 5);
    assert_eq!(batch.should_flush(5), Some(false));
    let (call, batch) = send(batch);
    assert_eq!(format!("{:?}", call).matches("partition_key").count(), 2);
    assert_eq!(
        batch.flush(reply(2, &[true, true])).unwrap(),
        vec![record("b", "2"), record("c", "3")]
    );
}

#[test]
fn retry_goes_behind_what_waits() {
    let mut sink = sink();
    add(&mut sink, "w", "0", 0);
    let batch = sink.retry_batch(vec![record("b", "2")], 5);
    assert_eq!(
        send(batch).1.flush(reply(2, &[true, true])).unwrap(),
        vec![record("w", "0"), record("b", "2")]
    );
    assert!(sink.handle_checkpoint().is_none());
}

#[test]
fn flush_ends_when_nothing_failed() {
    assert_eq!(flush_with_retries(0, &vec![]), AttemptStep::Done);
    assert_eq!(flush_with_retries(70, &vec![]), AttemptStep::Done);
}

#[test]
fn waits_grow_up_to_a_limit() {
    let failed = vec![record("a", "1")];
    let delays: Vec<u64> = (0..63)
        .map(|retries| match flush_with_retries(retries, &failed) {
            AttemptStep::Retry { retries: next, delay_millis } => {
                assert_eq!(next, retries + 1);
                delay_millis
            }
            AttemptStep::Done => panic!("a record failed"),
        })
        .collect();
    assert_eq!(delays[..4], [200, 400, 800, 1600]);
    assert!(delays[4..61].iter().all(|delay| *delay == 2000));
    assert_eq!(delays[61..], [0, 0]);
}

#[test]
fn retried_flush_writes_every_record() {
    let mut sink = sink();
    let values = ["1", "2", "3", "4"];
    for value in values {
        add(&mut sink, "k", value, 0);
    }
    let mut batch = sink.handle_checkpoint().unwrap();
    let mut written: Vec<String> = Vec::new();
    let mut retries: u32 = 0;
    for codes in [vec![true, false, true, true], vec![true, true, false], vec![false, true], vec![false]] {
        let (call, sent) = send(batch);
        let shown = format!("{:?}", call);
        assert_eq!(shown.matches("partition_key").count(), codes.len());
        let count = codes.iter().filter(|code| **code).count() as i32;
        let failed = sent.flush(reply(count, &codes)).unwrap();
        for value in values {
            let data = format!("inner: {:?}", value.as_bytes());
            if shown.contains(&data) && !failed.contains(&record("k", value)) {
                written.push(value.to_string());
            }
        }
        match flush_with_retries(retries, &failed) {
            AttemptStep::Done => assert!(failed.is_empty()),
            AttemptStep::Retry { retries: next, .. } => retries = next,
        }
        batch = sink.retry_batch(failed, 0);
    }
    assert_eq!(retries, 3);
    assert!(matches!(batch.start_flush(), FlushStart::Nothing));
    assert_eq!(written, ["2", "4", "1", "3"]);
}

#[test]
fn waiting_batches_are_neither_empty_nor_full() {
    let mut sink = sink();
    assert!(sink.handle_checkpoint().is_none());
    let value = "x".repeat(1_500_000);
    for now in 0..10 {
        let step = add(&mut sink, "k", &value, now);
        if now % 3 == 2 {
            assert!(matches!(step, SinkStep::Flush(_)));
            assert!(matches!(sink.handle_tick(now + SECOND), SinkStep::Hold));
        } else {
            assert!(matches!(step, SinkStep::Hold));
        }
    }
    let (call, _) = send(sink.handle_checkpoint().unwrap());
    assert_eq!(format!("{:?}", call).matches("partition_key").count(), 1);
    assert!(sink.handle_checkpoint().is_none());
}

#[test]
fn clock_is_read_again_for_the_age() {
    let take = |sink: &mut KinesisSinkFunc, opened: u128, now: u128| {
        sink.process_record("k".to_string(), "1".to_string(), opened, now)
    };
    let mut slow = sink();
    match take(&mut slow, 0, SECOND) {
        SinkStep::Flush(batch) => assert_eq!(send(batch).1.record_count(), 1),
        _ => panic!("the batch is due"),
    }
    let mut back = sink();
    assert!(matches!(take(&mut back, 5, 4), SinkStep::ClockWentBack));
    let mut held = sink();
    assert!(matches!(take(&mut held, 5, SECOND + 4), SinkStep::Hold));
    assert!(matches!(held.handle_tick(SECOND + 4), SinkStep::Hold));
    assert!(matches!(take(&mut held, 7 * SECOND, SECOND + 5), SinkStep::Flush(_)));
}
