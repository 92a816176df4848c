//! A sink that buffers records and writes them to a Kinesis stream in batches.
use aws_sdk_kinesis::client::fluent_builders::PutRecords;
use aws_sdk_kinesis::Client as KinesisClient;
use vstd::arithmetic::power2::pow2;
use vstd::multiset::Multiset;
use vstd::prelude::*;
use vstd::utf8::encode_utf8;

use crate::put_records::{
    append_record, blob_len, blob_new, call_client, call_records, call_stream, is_random_uuid, put_records,
    random_key, stream_name,
};

verus! {

/// A batch is flushed once it holds this many records.
pub const MAX_BATCH_RECORDS: usize = 500;

/// A batch is flushed once its data has this many bytes.
pub const MAX_BATCH_BYTES: usize = 4_500_000;

/// A batch is flushed once it is this many seconds old.
pub const MAX_BATCH_AGE_SECS: u64 = 1;

/// The longest wait before a flush is tried again, in milliseconds.
pub const MAX_BACKOFF_MILLIS: u64 = 2000;

/// The key and the value of each record, as characters.
pub open spec fn record_views(records: Seq<(String, String)>) -> Seq<(Seq<char>, Seq<char>)> {
    records.map_values(|record: (String, String)| (record.0@, record.1@))
}

/// The number of bytes of the values of the records.
pub open spec fn data_bytes(records: Seq<(Seq<char>, Seq<char>)>) -> nat
    decreases records.len(),
{
    if records.len() == 0 {
        0
    } else {
        data_bytes(records.drop_last()) + encode_utf8(records.last().1).len()
    }
}

/// The records as the entries of a request: partition key and data.
pub open spec fn request_entries(records: Seq<(Seq<char>, Seq<char>)>) -> Seq<(Seq<char>, Seq<u8>)> {
    records.map_values(|record: (Seq<char>, Seq<char>)| (record.0, encode_utf8(record.1)))
}

/// Whether a batch is flushed: once it holds enough records or bytes, or is old
/// enough. There is no answer where that comes down to its age and the clock has
/// gone back to before the batch was made. Times are in nanoseconds.
pub open spec fn flush_due(records: nat, bytes: nat, created: u128, now: u128) -> Option<bool> {
    if records >= MAX_BATCH_RECORDS || bytes >= MAX_BATCH_BYTES {
        Some(true)
    } else if now < created {
        None
    } else {
        Some((now - created) / 1_000_000_000 >= MAX_BATCH_AGE_SECS)
    }
}

/// A batch of records, with the request that will write them.
pub struct BatchRecordPreparer {
    put_records_call: Option<PutRecords>,
    buffered_records: Vec<(String, String)>,
    record_count: usize,
    data_size: usize,
    creation_time: u128,
}

impl BatchRecordPreparer {
    /// The records of the batch, oldest first.
    pub closed spec fn records(&self) -> Seq<(Seq<char>, Seq<char>)> {
        record_views(self.buffered_records@)
    }

    /// The stream to which the batch goes, where it has been set.
    pub closed spec fn stream(&self) -> Option<Seq<char>> {
        call_stream(self.put_records_call->0)
    }

    /// The client through which the batch is sent.
    pub closed spec fn client(&self) -> KinesisClient {
        call_client(self.put_records_call->0)
    }

    /// When the batch was made.
    pub closed spec fn created(&self) -> u128 {
        self.creation_time
    }

    /// The request holds the records of the batch, and the counters count them.
    pub closed spec fn wf(&self) -> bool {
        &&& self.put_records_call is Some
        &&& call_records(self.put_records_call->0) == request_entries(self.records())
        &&& self.record_count == self.records().len()
        &&& self.data_size == data_bytes(self.records())
    }

    /// The batch holds fewer records and bytes than a flush asks for.
    pub open spec fn has_room(&self) -> bool {
        &&& self.records().len() < MAX_BATCH_RECORDS
        &&& data_bytes(self.records()) < MAX_BATCH_BYTES
    }

    /// An empty batch, made at the time `now`, for a request without records.
    fn new(put_records_call: PutRecords, now: u128) -> (batch: Self)
        requires
            call_records(put_records_call) == Seq::<(Seq<char>, Seq<u8>)>::empty(),
        ensures
            batch.wf(),
            batch.records() == Seq::<(Seq<char>, Seq<char>)>::empty(),
            batch.stream() == call_stream(put_records_call),
            batch.client() == call_client(put_records_call),
            batch.created() == now,
    {
        let batch = BatchRecordPreparer {
            put_records_call: Some(put_records_call),
            buffered_records: Vec::new(),
            record_count: 0,
            data_size: 0,
            creation_time: now,
        };
        assert(batch.records() =~= Seq::empty());
        assert(request_entries(batch.records()) =~= Seq::empty());
        batch
    }

    /// Appends a record.
    pub fn add_record(&mut self, key: String, value: String)
        requires
            old(self).wf(),
            old(self).records().len() < usize::MAX,
            data_bytes(old(self).records()) + encode_utf8(value@).len() <= usize::MAX,
        ensures
            final(self).wf(),
            final(self).records() == old(self).records().push((key@, value@)),
            final(self).stream() == old(self).stream(),
            final(self).client() == old(self).client(),
            final(self).created() == old(self).created(),
    {
        let ghost before = self.records();
        let ghost record = (key@, value@);
        self.buffered_records.push((key.clone(), value.clone()));
        let blob = blob_new(value);
        self.data_size = self.data_size + blob_len(&blob);
        let call = self.put_records_call.take().unwrap();
        self.put_records_call = Some(append_record(call, key, blob));
        self.record_count = self.record_count + 1;
        proof {
            assert(self.records() =~= before.push(record));
            assert(before.push(record).drop_last() =~= before);
            assert(request_entries(before.push(record)) =~= request_entries(before).push(
                (record.0, encode_utf8(record.1)),
            ));
        }
    }

    /// Whether the batch is to be flushed at the time `now`. There is no answer
    /// where that comes down to its age and the clock has gone back to before the
    /// batch was made.
    pub fn should_flush(&self, now: u128) -> (due: Option<bool>)
        requires
            self.wf(),
        ensures
            due == flush_due(self.records().len(), data_bytes(self.records()), self.created(), now),
            due == Some(true) <==> self.records().len() >= 500 || data_bytes(self.records()) >= 4_500_000 || now
                - self.created() >= 1_000_000_000,
            due is None <==> self.records().len() < 500 && data_bytes(self.records()) < 4_500_000 && now
                < self.created(),
    {
        if self.record_count >= MAX_BATCH_RECORDS || self.data_size >= MAX_BATCH_BYTES {
            return Some(true);
        }
        if now < self.creation_time {
            return None;
        }
        Some((now - self.creation_time) / 1_000_000_000 >= MAX_BATCH_AGE_SECS as u128)
    }

    /// Starts the flush of the batch: hands out its request, unless it is empty.
    pub fn start_flush(self) -> (start: FlushStart)
        requires
            self.wf(),
        ensures
            match start {
                FlushStart::Nothing => self.records().len() == 0,
                FlushStart::Send { call, batch } => {
                    &&& self.records().len() > 0
                    &&& call_records(call) == request_entries(self.records())
                    &&& call_records(call).len() == self.records().len()
                    &&& forall|i: int|
                        0 <= i < self.records().len() ==> (#[trigger] call_records(call)[i]).0 == self.records()[i].0
                            && call_records(call)[i].1 == encode_utf8(self.records()[i].1)
                    &&& call_stream(call) == self.stream()
                    &&& call_client(call) == self.client()
                    &&& batch.records() == self.records()
                    &&& data_bytes(batch.records()) <= usize::MAX
                },
            },
    {
        if self.record_count == 0 {
            return FlushStart::Nothing;
        }
        let mut batch = self;
        let call = batch.put_records_call.take().unwrap();
        FlushStart::Send { call, batch: SentBatch { buffered_records: batch.buffered_records } }
    }
}

/// How the flush of a batch starts.
pub enum FlushStart {
    /// The batch is empty, and nothing is sent.
    Nothing,
    /// The request is sent, and its reply given to the sent batch.
    Send { call: PutRecords, batch: SentBatch },
}

/// The records of a batch whose request has been sent.
pub struct SentBatch {
    buffered_records: Vec<(String, String)>,
}

/// What the service replies to a request: how many records failed, and for each
/// record whether it has an error code.
#[derive(Debug)]
pub struct PutRecordsReply {
    pub failed_record_count: Option<i32>,
    pub has_error_code: Option<Vec<bool>>,
}

/// Why a reply makes no sense for the request.
#[derive(Debug, Copy, Clone, Eq, PartialEq, Structural)]
pub enum ReplyError {
    /// Records failed, and the reply does not say which.
    MissingRecords,
    /// A record failed that the request did not have, the first such at `index`.
    UnknownRecord { index: usize },
}

/// The service says that records failed.
pub open spec fn reports_failures(reply: PutRecordsReply) -> bool {
    reply.failed_record_count matches Some(count) && count > 0
}

/// The records that are marked, in order.
pub open spec fn marked<R>(records: Seq<R>, marks: Seq<bool>) -> Seq<R>
    decreases records.len(),
{
    if records.len() == 0 {
        Seq::empty()
    } else {
        let last = records.len() - 1;
        let rest = marked(records.drop_last(), marks);
        if last < marks.len() && marks[last] {
            rest.push(records.last())
        } else {
            rest
        }
    }
}

/// The records that are not marked, in order.
pub open spec fn unmarked<R>(records: Seq<R>, marks: Seq<bool>) -> Seq<R>
    decreases records.len(),
{
    if records.len() == 0 {
        Seq::empty()
    } else {
        let last = records.len() - 1;
        let rest = unmarked(records.drop_last(), marks);
        if last < marks.len() && marks[last] {
            rest
        } else {
            rest.push(records.last())
        }
    }
}

/// `index` is the first mark that belongs to none of `records` records.
pub open spec fn is_first_unknown(records: nat, marks: Seq<bool>, index: int) -> bool {
    &&& records <= index < marks.len()
    &&& marks[index]
    &&& forall|i: int| records <= i < index ==> !#[trigger] marks[i]
}

/// Every mark belongs to one of `records` records.
pub open spec fn marks_are_known(records: nat, marks: Seq<bool>) -> bool {
    forall|i: int| records <= i < marks.len() ==> !#[trigger] marks[i]
}

impl SentBatch {
    /// The records of the batch, oldest first.
    pub closed spec fn records(&self) -> Seq<(Seq<char>, Seq<char>)> {
        record_views(self.buffered_records@)
    }

    /// The number of records of the batch.
    pub fn record_count(&self) -> (count: usize)
        ensures
            count == self.records().len(),
    {
        self.buffered_records.len()
    }

    /// Ends the flush: the records that the service says it did not take, in the
    /// order in which they were sent. Where it counts no failed record, error
    /// codes are not looked at.
    pub fn flush(self, reply: PutRecordsReply) -> (r: Result<Vec<(String, String)>, ReplyError>)
        ensures
            match r {
                Ok(failed) => if reports_failures(reply) {
                    &&& reply.has_error_code is Some
                    &&& marks_are_known(self.records().len(), reply.has_error_code->0@)
                    &&& record_views(failed@) == marked(self.records(), reply.has_error_code->0@)
                } else {
                    failed@.len() == 0
                },
                Err(ReplyError::MissingRecords) => {
                    &&& reports_failures(reply)
                    &&& reply.has_error_code is None
                },
                Err(ReplyError::UnknownRecord { index }) => {
                    &&& reports_failures(reply)
                    &&& reply.has_error_code is Some
                    &&& is_first_unknown(
                        self.records().len(),
                        reply.has_error_code->0@,
                        index as int,
                    )
                },
            },
            reply.failed_record_count is None || reply.failed_record_count->0 <= 0 ==> r is Ok && r->Ok_0@.len() == 0,
            reply.failed_record_count matches Some(count) ==> count > 0 ==> match reply.has_error_code {
                None => r == Err::<Vec<(String, String)>, ReplyError>(ReplyError::MissingRecords),
                Some(codes) => match r {
                    Ok(failed) => {
                        &&& forall|i: int| self.records().len() <= i < codes@.len() ==> !#[trigger] codes@[i]
                        &&& failed@.len() == codes@.filter(|code: bool| code).len()
                        &&& forall|i: int|
                            0 <= i < self.records().len() && i < codes@.len() && #[trigger] codes@[i] ==> exists|k: int|
                                0 <= k < failed@.len() && (#[trigger] failed@[k]).0@ == self.records()[i].0
                                    && failed@[k].1@ == self.records()[i].1
                    },
                    Err(error) => {
                        &&& error matches ReplyError::UnknownRecord { index }
                        &&& self.records().len() <= index < codes@.len()
                        &&& codes@[index as int]
                        &&& forall|i: int| self.records().len() <= i < index ==> !#[trigger] codes@[i]
                    },
                },
            },
    {
        let mut failed: Vec<(String, String)> = Vec::new();
        let failed_record_count: i32 = reply.failed_record_count.unwrap_or(0);
        if failed_record_count <= 0 {
            return Ok(failed);
        }
        let marks = match reply.has_error_code {
            None => {
                return Err(ReplyError::MissingRecords);
            },
            Some(marks) => marks,
        };
        let ghost records = self.records();
        assert(records.take(0) =~= Seq::empty());
        assert(record_views(failed@) =~= marked(records.take(0), marks@));
        for i in 0..marks.len()
            invariant
                records == self.records(),
                reports_failures(reply),
                reply.has_error_code == Some(marks),
                record_views(failed@) == marked(
                    records.take(if i <= records.len() { i as int } else { records.len() as int }),
                    marks@,
                ),
                forall|j: int| records.len() <= j < i ==> !#[trigger] marks@[j],
        {
            let ghost before = failed@;
            if marks[i] {
                if i >= self.buffered_records.len() {
                    return Err(ReplyError::UnknownRecord { index: i });
                }
                let record = &self.buffered_records[i];
                failed.push((record.0.clone(), record.1.clone()));
                assert(record_views(failed@) =~= record_views(before).push(records[i as int]));
            }
            proof {
                if i < records.len() {
                    assert(records.take(i + 1).drop_last() =~= records.take(i as int));
                }
            }
        }
        proof {
            if marks@.len() <= records.len() {
                lemma_marked_takes_marked_prefix(records, marks@);
            } else {
                assert(records.take(records.len() as int) =~= records);
            }
            let at = retries_are_the_failed_records(records, marks@);
            assert forall|i: int| 0 <= i < records.len() && i < marks@.len() && #[trigger] marks@[i] implies exists|k: int|
                0 <= k < failed@.len() && (#[trigger] failed@[k]).0@ == records[i].0 && failed@[k].1@
                    == records[i].1 by {
                let k = choose|k: int| 0 <= k < at.len() && at[k] == i;
                assert(record_views(failed@)[k] == records[at[k]]);
            }
        }
        Ok(failed)
    }
}

/// Records past the last mark are not marked.
proof fn lemma_marked_takes_marked_prefix<R>(records: Seq<R>, marks: Seq<bool>)
    requires
        marks.len() <= records.len(),
    ensures
        marked(records, marks) == marked(records.take(marks.len() as int), marks),
    decreases records.len(),
{
    if records.len() == marks.len() {
        assert(records.take(marks.len() as int) =~= records);
    } else {
        lemma_marked_takes_marked_prefix(records.drop_last(), marks);
        assert(records.drop_last().take(marks.len() as int) =~= records.take(marks.len() as int));
    }
}

/// What a Kinesis table is used for.
#[derive(Debug, Copy, Clone, Eq, PartialEq, Structural)]
pub enum TableType {
    Source,
    Sink,
}

/// The configuration of a Kinesis table.
#[derive(Debug)]
pub struct KinesisTable {
    pub stream_name: String,
    pub type_: TableType,
}

/// What the sink does next.
pub enum SinkStep {
    /// Nothing is written for now.
    Hold,
    /// The batch is flushed, and its failed records tried again until none is
    /// left.
    Flush(BatchRecordPreparer),
    /// The clock has gone back to before the batch was made, and its age cannot
    /// be told.
    ClockWentBack,
}

/// The sink: its client, once it has started, the batch that is being filled, and
/// the stream to which it writes.
pub struct KinesisSinkFunc {
    client: Option<KinesisClient>,
    in_progress_batch: Option<BatchRecordPreparer>,
    name: String,
}

impl KinesisSinkFunc {
    /// The client, once the sink has started.
    pub closed spec fn client(&self) -> Option<KinesisClient> {
        self.client
    }

    /// The batch that is being filled.
    pub closed spec fn in_progress(&self) -> Option<BatchRecordPreparer> {
        self.in_progress_batch
    }

    /// The name of the stream.
    pub closed spec fn stream(&self) -> Seq<char> {
        self.name@
    }

    /// The records that wait in the batch that is being filled.
    pub open spec fn pending(&self) -> Seq<(Seq<char>, Seq<char>)> {
        match self.in_progress() {
            None => Seq::empty(),
            Some(batch) => batch.records(),
        }
    }

    /// When the batch that takes the next record was made, where one that is made
    /// now is made at the time `opened`.
    pub open spec fn batch_created(&self, opened: u128) -> u128 {
        match self.in_progress() {
            None => opened,
            Some(batch) => batch.created(),
        }
    }

    /// The client of the batch that takes the next record.
    pub open spec fn batch_client(&self) -> KinesisClient {
        match self.in_progress() {
            None => self.client()->0,
            Some(batch) => batch.client(),
        }
    }

    /// The sink can make a batch, or has one.
    pub open spec fn can_take_records(&self) -> bool {
        self.client() is Some || self.in_progress() is Some
    }

    /// The batch that is being filled goes to the sink's stream, holds a record,
    /// and has room.
    pub open spec fn wf(&self) -> bool {
        self.in_progress() matches Some(batch) ==> {
            &&& batch.wf()
            &&& batch.records().len() > 0
            &&& batch.has_room()
            &&& batch.stream() == Some(self.stream())
        }
    }

    /// The sink has the same client and stream as `other`.
    pub open spec fn same_target(&self, other: &Self) -> bool {
        &&& self.client() == other.client()
        &&& self.stream() == other.stream()
    }

    /// A sink that writes to the stream of the table. There is none for a table
    /// that is not a sink.
    pub fn from_config(table: KinesisTable) -> (sink: Option<Self>)
        ensures
            sink is Some <==> table.type_ is Sink,
            sink matches Some(sink) ==> {
                &&& sink.wf()
                &&& sink.client() is None
                &&& sink.in_progress() is None
                &&& sink.stream() == table.stream_name@
            },
    {
        match table.type_ {
            TableType::Source => None,
            TableType::Sink => Some(
                KinesisSinkFunc { client: None, in_progress_batch: None, name: table.stream_name },
            ),
        }
    }

    /// The name of the operator.
    pub fn name(&self) -> (name: String)
        ensures
            name@ == "kinesis-producer-"@ + self.stream(),
    {
        "kinesis-producer-".to_owned().concat(self.name.as_str())
    }

    /// Whether the sink can take records: it has started, or has a batch.
    pub fn is_ready(&self) -> (ready: bool)
        ensures
            ready == self.can_take_records(),
            ready <==> self.client() is Some || self.in_progress() is Some,
    {
        self.client.is_some() || self.in_progress_batch.is_some()
    }

    /// Starts the sink with its client.
    pub fn on_start(&mut self, client: KinesisClient)
        requires
            old(self).wf(),
        ensures
            final(self).wf(),
            final(self).client() == Some(client),
            final(self).in_progress() == old(self).in_progress(),
            final(self).stream() == old(self).stream(),
    {
        self.client = Some(client);
    }

    /// Takes the batch that is being filled, to be flushed for a checkpoint. It is
    /// flushed once: what fails then is not tried again.
    pub fn handle_checkpoint(&mut self) -> (batch: Option<BatchRecordPreparer>)
        requires
            old(self).wf(),
        ensures
            final(self).wf(),
            batch == old(self).in_progress(),
            final(self).in_progress() is None,
            final(self).same_target(old(self)),
    {
        self.in_progress_batch.take()
    }

    /// Takes in a record: its key, where it has one, and its value. A record
    /// without a key gets a random one. The clock is read twice: a batch that is
    /// made for the record is made at the time `opened`, and whether the batch is
    /// due is decided at the time `now`.
    pub fn process_element(&mut self, key: Option<String>, value: String, opened: u128, now: u128) -> (step:
        SinkStep)
        requires
            old(self).wf(),
            old(self).can_take_records(),
            data_bytes(old(self).pending()) + encode_utf8(value@).len() <= usize::MAX,
        ensures
            final(self).wf(),
            exists|used: Seq<char>| #[trigger]
                takes_record(*old(self), used, value@, opened, now, *final(self), step) && (match key {
                    Some(key) => used == key@,
                    None => is_random_uuid(used),
                }),
    {
        let ghost before = *self;
        let ghost text = value@;
        let used = match key {
            Some(key) => key,
            None => random_key(),
        };
        let ghost chars = used@;
        let step = self.process_record(used, value, opened, now);
        assert(takes_record(before, chars, text, opened, now, *self, step));
        step
    }

    /// Takes in a record with its partition key. A batch that is made for it is
    /// made at the time `opened`, and whether the batch is due is decided at the
    /// time `now`.
    pub fn process_record(&mut self, key: String, value: String, opened: u128, now: u128) -> (step: SinkStep)
        requires
            old(self).wf(),
            old(self).can_take_records(),
            data_bytes(old(self).pending()) + encode_utf8(value@).len() <= usize::MAX,
        ensures
            final(self).wf(),
            takes_record(*old(self), key@, value@, opened, now, *final(self), step),
    {
        let mut batch = self.take_or_create_batch_preparer(opened);
        batch.add_record(key, value);
        match batch.should_flush(now) {
            Some(true) => SinkStep::Flush(batch),
            Some(false) => {
                self.in_progress_batch = Some(batch);
                SinkStep::Hold
            },
            None => SinkStep::ClockWentBack,
        }
    }

    /// Takes the batch that is being filled, where it is due.
    pub fn handle_tick(&mut self, now: u128) -> (step: SinkStep)
        requires
            old(self).wf(),
        ensures
            final(self).wf(),
            ticks(*old(self), now, *final(self), step),
    {
        let due = match &self.in_progress_batch {
            None => {
                return SinkStep::Hold;
            },
            Some(batch) => batch.should_flush(now),
        };
        match due {
            Some(true) => SinkStep::Flush(self.in_progress_batch.take().unwrap()),
            Some(false) => SinkStep::Hold,
            None => SinkStep::ClockWentBack,
        }
    }

    /// Takes the batch that is being filled, or makes an empty one.
    pub fn take_or_create_batch_preparer(&mut self, now: u128) -> (batch: BatchRecordPreparer)
        requires
            old(self).wf(),
            old(self).can_take_records(),
        ensures
            final(self).wf(),
            final(self).in_progress() is None,
            final(self).same_target(old(self)),
            batch.wf(),
            batch.has_room(),
            batch.records() == old(self).pending(),
            batch.created() == old(self).batch_created(now),
            batch.stream() == Some(old(self).stream()),
            batch.client() == old(self).batch_client(),
            match old(self).in_progress() {
                None => {
                    &&& batch.records().len() == 0
                    &&& batch.created() == now
                    &&& old(self).client() == Some(batch.client())
                },
                Some(waiting) => batch == waiting,
            },
    {
        match self.in_progress_batch.take() {
            None => {
                let call = put_records(self.client.as_ref().unwrap());
                BatchRecordPreparer::new(stream_name(call, self.name.clone()), now)
            },
            Some(batch) => batch,
        }
    }

    /// The batch with which a flush is tried again: it holds the records that
    /// failed, behind those that waited in the batch that was being filled.
    pub fn retry_batch(&mut self, failed: Vec<(String, String)>, now: u128) -> (batch: BatchRecordPreparer)
        requires
            old(self).wf(),
            old(self).can_take_records(),
            old(self).pending().len() + failed@.len() <= usize::MAX,
            data_bytes(old(self).pending()) + data_bytes(record_views(failed@)) <= usize::MAX,
        ensures
            final(self).wf(),
            final(self).in_progress() is None,
            final(self).same_target(old(self)),
            batch.wf(),
            batch.records() == old(self).pending() + record_views(failed@),
            batch.created() == old(self).batch_created(now),
            batch.stream() == Some(old(self).stream()),
            batch.client() == old(self).batch_client(),
            batch.records().len() == old(self).pending().len() + failed@.len(),
            forall|i: int|
                0 <= i < failed@.len() ==> batch.records()[old(self).pending().len() + i].0 == (
                #[trigger] failed@[i]).0@ && batch.records()[old(self).pending().len() + i].1 == failed@[i].1@,
    {
        let ghost all = failed@;
        let mut batch = self.take_or_create_batch_preparer(now);
        let ghost waiting = batch.records();
        assert(waiting + record_views(all.take(0)) =~= waiting);
        for record in iter: failed
            invariant
                iter.seq() == all,
                batch.wf(),
                batch.records() == waiting + record_views(all.take(iter.index())),
                waiting.len() + all.len() <= usize::MAX,
                data_bytes(waiting) + data_bytes(record_views(all)) <= usize::MAX,
                batch.created() == old(self).batch_created(now),
                batch.stream() == Some(old(self).stream()),
                batch.client() == old(self).batch_client(),
        {
            let ghost done = all.take(iter.index());
            let ghost more = all.take(iter.index() + 1);
            proof {
                assert(more =~= done.push(record));
                assert(record_views(more) =~= record_views(done).push((record.0@, record.1@)));
                lemma_data_bytes_add(waiting, record_views(done));
                assert(record_views(more).drop_last() =~= record_views(done));
                assert(record_views(all) =~= record_views(more) + record_views(
                    all.skip(iter.index() + 1),
                ));
                lemma_data_bytes_add(record_views(more), record_views(all.skip(iter.index() + 1)));
            }
            batch.add_record(record.0, record.1);
            assert(batch.records() =~= waiting + record_views(more));
        }
        assert(all.take(all.len() as int) =~= all);
        batch
    }
}

/// The data of two runs of records adds up.
proof fn lemma_data_bytes_add(a: Seq<(Seq<char>, Seq<char>)>, b: Seq<(Seq<char>, Seq<char>)>)
    ensures
        data_bytes(a + b) == data_bytes(a) + data_bytes(b),
    decreases b.len(),
{
    if b.len() == 0 {
        assert(a + b =~= a);
    } else {
        lemma_data_bytes_add(a, b.drop_last());
        assert((a + b).drop_last() =~= a + b.drop_last());
    }
}

/// How the sink takes in a record: it goes behind those that wait, in a batch made
/// at the time `opened` where there is none, and the batch is handed out where it is
/// due at the time `now`, and goes on being filled where it is not.
pub open spec fn takes_record(
    before: KinesisSinkFunc,
    key: Seq<char>,
    value: Seq<char>,
    opened: u128,
    now: u128,
    after: KinesisSinkFunc,
    step: SinkStep,
) -> bool {
    let records = before.pending().push((key, value));
    let created = before.batch_created(opened);
    let is_batch = |batch: BatchRecordPreparer|
        {
            &&& batch.wf()
            &&& batch.records() == records
            &&& batch.created() == created
            &&& batch.stream() == Some(before.stream())
            &&& batch.client() == before.batch_client()
        };
    &&& after.same_target(&before)
    &&& match flush_due(records.len(), data_bytes(records), created, now) {
        Some(true) => {
            &&& step matches SinkStep::Flush(batch) && is_batch(batch)
            &&& after.in_progress() is None
        },
        Some(false) => {
            &&& step is Hold
            &&& after.in_progress() matches Some(batch) && is_batch(batch)
        },
        None => {
            &&& step is ClockWentBack
            &&& after.in_progress() is None
        },
    }
}

/// How the sink takes a tick of the clock: the batch that is being filled is handed
/// out where it is due, and stays where it is not.
pub open spec fn ticks(before: KinesisSinkFunc, now: u128, after: KinesisSinkFunc, step: SinkStep) -> bool {
    &&& after.same_target(&before)
    &&& match before.in_progress() {
        None => step is Hold && after.in_progress() is None,
        Some(batch) => match flush_due(
            batch.records().len(),
            data_bytes(batch.records()),
            batch.created(),
            now,
        ) {
            Some(true) => step == SinkStep::Flush(batch) && after.in_progress() is None,
            Some(false) => step is Hold && after.in_progress() == Some(batch),
            None => step is ClockWentBack && after.in_progress() == Some(batch),
        },
    }
}

/// The wait before the given retry of a flush, in milliseconds: it doubles from
/// one retry to the next, in a 64-bit register, up to a limit.
pub open spec fn backoff_millis(retries: nat) -> int {
    let doubled = (100 * pow2(retries)) % 0x1_0000_0000_0000_0000;
    if doubled < MAX_BACKOFF_MILLIS {
        doubled as int
    } else {
        MAX_BACKOFF_MILLIS as int
    }
}

/// How a flush goes on after one attempt.
#[derive(Debug, Copy, Clone, Eq, PartialEq, Structural)]
pub enum AttemptStep {
    /// Every record was taken.
    Done,
    /// After the wait, the failed records are tried again.
    Retry { retries: u32, delay_millis: u64 },
}

/// Decides how a flush goes on after an attempt that left these records, with the
/// given number of retries before it.
pub fn flush_with_retries(retries: u32, failed: &Vec<(String, String)>) -> (step: AttemptStep)
    requires
        failed@.len() > 0 ==> retries < 63,
    ensures
        failed@.len() == 0 ==> step is Done,
        failed@.len() > 0 ==> (step matches AttemptStep::Retry { retries: next, delay_millis } && next
            == retries + 1 && delay_millis == backoff_millis(next as nat)),
{
    if failed.len() == 0 {
        return AttemptStep::Done;
    }
    let retries: u32 = retries + 1;
    let doubled: u64 = 100u64 << retries;
    proof {
        lemma_shift_doubles(retries);
    }
    let delay_millis: u64 = if doubled < MAX_BACKOFF_MILLIS {
        doubled
    } else {
        MAX_BACKOFF_MILLIS
    };
    AttemptStep::Retry { retries, delay_millis }
}

/// Shifting a hundred to the left doubles it each time, in 64 bits.
proof fn lemma_shift_doubles(retries: u32)
    requires
        retries < 64,
    ensures
        (100u64 << retries) == (100 * pow2(retries as nat)) % 0x1_0000_0000_0000_0000,
    decreases retries,
{
    if retries == 0 {
        vstd::arithmetic::power2::lemma2_to64();
        assert(100u64 << 0u32 == 100) by (bit_vector);
    } else {
        let r = (retries - 1) as u32;
        let x: int = 100 * pow2(r as nat) as int;
        lemma_shift_doubles(r);
        vstd::arithmetic::power2::lemma_pow2_unfold(retries as nat);
        assert(100u64 << ((r + 1) as u32) == (2 * (100u64 << r)) % 0x1_0000_0000_0000_0000)
            by (bit_vector)
            requires
                r < 63,
        ;
        vstd::arithmetic::div_mod::lemma_mul_mod_noop_right(2, x, 0x1_0000_0000_0000_0000);
    }
}

/// The wait doubles with the first four retries, is at its limit from then on,
/// and falls to nothing with the last two that can be counted, which shift every
/// bit out of the register.
pub proof fn backoff_ladder(retries: nat)
    requires
        1 <= retries < 64,
    ensures
        retries == 1 ==> backoff_millis(retries) == 200,
        retries == 2 ==> backoff_millis(retries) == 400,
        retries == 3 ==> backoff_millis(retries) == 800,
        retries == 4 ==> backoff_millis(retries) == 1600,
        5 <= retries <= 61 ==> backoff_millis(retries) == MAX_BACKOFF_MILLIS == 2000,
        62 <= retries ==> backoff_millis(retries) == 0,
{
    let r = retries as u32;
    lemma_shift_doubles(r);
    assert(r == 1 ==> 100u64 << r == 200) by (bit_vector);
    assert(r == 2 ==> 100u64 << r == 400) by (bit_vector);
    assert(r == 3 ==> 100u64 << r == 800) by (bit_vector);
    assert(r == 4 ==> 100u64 << r == 1600) by (bit_vector);
    assert(5 <= r <= 61 ==> 100u64 << r >= 2000) by (bit_vector);
    assert(62 <= r < 64 ==> 100u64 << r == 0) by (bit_vector);
}

/// No record is lost in a flush: the records of a batch are those that are tried
/// again and those that are not, each as often as it was sent.
pub proof fn flush_conserves_records<R>(records: Seq<R>, marks: Seq<bool>)
    ensures
        marked(records, marks).to_multiset().add(unmarked(records, marks).to_multiset())
            == records.to_multiset(),
        marked(records, marks).len() + unmarked(records, marks).len() == records.len(),
    decreases records.len(),
{
    broadcast use vstd::seq_lib::group_to_multiset_ensures;

    if records.len() > 0 {
        let rest = records.drop_last();
        flush_conserves_records(rest, marks);
        assert(records =~= rest.push(records.last()));
    }
    assert(marked(records, marks).to_multiset().add(unmarked(records, marks).to_multiset())
        =~= records.to_multiset());
}

/// What is left of the records after a run of attempts, each of which leaves the
/// records that its reply marks.
pub open spec fn left_after<R>(records: Seq<R>, attempts: Seq<Seq<bool>>) -> Seq<R>
    decreases attempts.len(),
{
    if attempts.len() == 0 {
        records
    } else {
        marked(left_after(records, attempts.drop_last()), attempts.last())
    }
}

/// The records that a run of attempts has written, each as often as it was.
pub open spec fn written_by<R>(records: Seq<R>, attempts: Seq<Seq<bool>>) -> Multiset<R>
    decreases attempts.len(),
{
    if attempts.len() == 0 {
        Multiset::empty()
    } else {
        written_by(records, attempts.drop_last()).add(
            unmarked(left_after(records, attempts.drop_last()), attempts.last()).to_multiset(),
        )
    }
}

/// A flush that is tried again until nothing is left has written every record of
/// the batch, each as often as the batch held it, whatever failed on the way.
pub proof fn retried_flush_writes_every_record<R>(records: Seq<R>, attempts: Seq<Seq<bool>>)
    ensures
        written_by(records, attempts).add(left_after(records, attempts).to_multiset())
            == records.to_multiset(),
        left_after(records, attempts).len() == 0 ==> written_by(records, attempts)
            == records.to_multiset(),
    decreases attempts.len(),
{
    broadcast use vstd::seq_lib::group_to_multiset_ensures;

    if attempts.len() > 0 {
        let before = left_after(records, attempts.drop_last());
        retried_flush_writes_every_record(records, attempts.drop_last());
        flush_conserves_records(before, attempts.last());
    }
    assert(written_by(records, attempts).add(left_after(records, attempts).to_multiset())
        =~= records.to_multiset());
    if left_after(records, attempts).len() == 0 {
        assert(left_after(records, attempts) =~= Seq::empty());
        assert(written_by(records, attempts) =~= records.to_multiset());
    }
}

/// What is tried again is no larger than what was sent, so the batch of a retry
/// can count it.
pub proof fn retries_do_not_grow(records: Seq<(Seq<char>, Seq<char>)>, marks: Seq<bool>)
    ensures
        marked(records, marks).len() <= records.len(),
        data_bytes(marked(records, marks)) <= data_bytes(records),
    decreases records.len(),
{
    if records.len() > 0 {
        let rest = marked(records.drop_last(), marks);
        retries_do_not_grow(records.drop_last(), marks);
        assert(rest.push(records.last()).drop_last() =~= rest);
    }
}

/// A record is tried again where the reply has an error code for it, and is not
/// where it has none.
pub proof fn marks_decide_retries<R>(records: Seq<R>, marks: Seq<bool>, i: int)
    requires
        0 <= i < records.len(),
    ensures
        i < marks.len() && marks[i] ==> marked(records, marks).contains(records[i]),
        !(i < marks.len() && marks[i]) ==> unmarked(records, marks).contains(records[i]),
    decreases records.len(),
{
    let last = records.len() - 1;
    let rest = records.drop_last();
    let (m, u) = (marked(rest, marks), unmarked(rest, marks));
    if i < last {
        marks_decide_retries(rest, marks, i);
        if i < marks.len() && marks[i] {
            let k = choose|k: int| 0 <= k < m.len() && m[k] == records[i];
            assert(marked(records, marks)[k] == records[i]);
        } else {
            let k = choose|k: int| 0 <= k < u.len() && u[k] == records[i];
            assert(unmarked(records, marks)[k] == records[i]);
        }
    } else if i < marks.len() && marks[i] {
        assert(marked(records, marks)[m.len() as int] == records[i]);
    } else {
        assert(unmarked(records, marks)[u.len() as int] == records[i]);
    }
}

/// The records of the batch that a step hands out.
pub open spec fn flushed(step: SinkStep) -> Seq<(Seq<char>, Seq<char>)> {
    match step {
        SinkStep::Flush(batch) => batch.records(),
        _ => Seq::empty(),
    }
}

/// A record that the sink takes in is either handed out with those that waited
/// before it, or waits behind them, unless the age of their batch cannot be told.
pub proof fn records_are_flushed_or_wait(
    before: KinesisSinkFunc,
    key: Seq<char>,
    value: Seq<char>,
    opened: u128,
    now: u128,
    after: KinesisSinkFunc,
    step: SinkStep,
)
    requires
        takes_record(before, key, value, opened, now, after, step),
        !(step is ClockWentBack),
    ensures
        flushed(step) + after.pending() == before.pending().push((key, value)),
{
    assert(flushed(step) + after.pending() =~= before.pending().push((key, value)));
}

/// A batch that is handed out holds no more records than the limit, and without
/// its last record fewer bytes than the limit.
pub proof fn flushed_batches_are_bounded(
    before: KinesisSinkFunc,
    key: Seq<char>,
    value: Seq<char>,
    opened: u128,
    now: u128,
    after: KinesisSinkFunc,
    step: SinkStep,
)
    requires
        before.wf(),
        takes_record(before, key, value, opened, now, after, step),
        step is Flush,
    ensures
        0 < flushed(step).len() <= MAX_BATCH_RECORDS,
        data_bytes(flushed(step).drop_last()) < MAX_BATCH_BYTES,
{
    assert(flushed(step).drop_last() =~= before.pending());
}

/// One call leads from the sink `before` to the sink `after`: it starts, takes in a
/// record or a tick, or has its batch taken, for a checkpoint or a retry.
pub open spec fn may_follow(before: KinesisSinkFunc, after: KinesisSinkFunc) -> bool {
    ||| after.in_progress() == before.in_progress() && after.stream() == before.stream()
    ||| exists|key: Seq<char>, value: Seq<char>, opened: u128, now: u128, step: SinkStep| #[trigger]
        takes_record(before, key, value, opened, now, after, step)
    ||| exists|now: u128, step: SinkStep| #[trigger] ticks(before, now, after, step)
    ||| after.in_progress() is None && after.same_target(&before)
}

/// Whatever calls a new sink has seen, a batch that waits in it is never empty and
/// never at a limit of size, and goes to the stream of the sink.
pub proof fn waiting_batches_stay_within_limits(sinks: Seq<KinesisSinkFunc>)
    requires
        sinks.len() > 0,
        sinks[0].in_progress() is None,
        forall|i: int, j: int|
            0 <= i && j == i + 1 && j < sinks.len() ==> may_follow(#[trigger] sinks[i], #[trigger] sinks[j]),
    ensures
        sinks.last().wf(),
        sinks.last().in_progress() matches Some(batch) ==> {
            &&& 1 <= batch.records().len() < MAX_BATCH_RECORDS
            &&& data_bytes(batch.records()) < MAX_BATCH_BYTES
            &&& batch.stream() == Some(sinks[0].stream())
        },
        sinks.last().stream() == sinks[0].stream(),
    decreases sinks.len(),
{
    if sinks.len() > 1 {
        let earlier = sinks.drop_last();
        assert forall|i: int, j: int| 0 <= i && j == i + 1 && j < earlier.len() implies may_follow(
            #[trigger] earlier[i],
            #[trigger] earlier[j],
        ) by {
            assert(may_follow(sinks[i], sinks[j]));
        }
        waiting_batches_stay_within_limits(earlier);
        assert(may_follow(sinks[sinks.len() - 2], sinks[sinks.len() - 1]));
    }
}

/// A batch that is due stays due, and so does one that grows.
pub proof fn due_batches_stay_due(
    records: nat,
    bytes: nat,
    created: u128,
    now: u128,
    more_records: nat,
    more_bytes: nat,
    later: u128,
)
    requires
        flush_due(records, bytes, created, now) == Some(true),
        records <= more_records,
        bytes <= more_bytes,
        now <= later,
    ensures
        flush_due(more_records, more_bytes, created, later) == Some(true),
{
    if flush_due(more_records, more_bytes, created, created) != Some(true) {
        assert((now - created) / 1_000_000_000 <= (later - created) / 1_000_000_000) by (nonlinear_arith)
            requires
                now <= later,
        ;
    }
}

/// The batch of a retry holds what the service did not take and nothing else: a
/// sink whose batch was handed out has none that is being filled.
pub proof fn retry_holds_what_failed(
    sink: KinesisSinkFunc,
    sent: Seq<(Seq<char>, Seq<char>)>,
    marks: Seq<bool>,
)
    requires
        sink.in_progress() is None,
    ensures
        sink.pending() + marked(sent, marks) == marked(sent, marks),
        sink.pending().len() + marked(sent, marks).len() <= sent.len(),
        data_bytes(sink.pending()) + data_bytes(marked(sent, marks)) <= data_bytes(sent),
{
    retries_do_not_grow(sent, marks);
    assert(sink.pending() + marked(sent, marks) =~= marked(sent, marks));
}

/// The bytes of a batch are those of its values: there are none in no records, a
/// record counts the bytes of its value and nothing of its key, and what two runs of
/// records count adds up.
pub proof fn values_make_up_the_data(
    a: Seq<(Seq<char>, Seq<char>)>,
    b: Seq<(Seq<char>, Seq<char>)>,
    key: Seq<char>,
    value: Seq<char>,
)
    ensures
        data_bytes(Seq::empty()) == 0,
        data_bytes(seq![(key, value)]) == encode_utf8(value).len(),
        data_bytes(a + b) == data_bytes(a) + data_bytes(b),
        data_bytes(a.push((key, value))) == data_bytes(a) + encode_utf8(value).len(),
{
    let one = seq![(key, value)];
    assert(one.drop_last() =~= Seq::empty());
    assert(data_bytes(one.drop_last()) == 0);
    lemma_data_bytes_add(a, b);
    lemma_data_bytes_add(a, one);
    assert(a + one =~= a.push((key, value)));
}

/// The request of a batch has an entry for each of its records and no other: at the
/// place of the record, with its key as the partition key and the bytes of its value
/// as the data.
pub proof fn request_holds_every_record(records: Seq<(Seq<char>, Seq<char>)>)
    ensures
        request_entries(records).len() == records.len(),
        forall|i: int|
            0 <= i < records.len() ==> (#[trigger] request_entries(records)[i]).0 == records[i].0 && request_entries(
                records,
            )[i].1 == encode_utf8(records[i].1),
{
}

/// The key and the value of each record are seen as they are, each in its place.
pub proof fn records_are_seen_as_they_are(records: Seq<(String, String)>)
    ensures
        record_views(records).len() == records.len(),
        forall|i: int|
            0 <= i < records.len() ==> (#[trigger] record_views(records)[i]).0 == records[i].0@ && record_views(
                records,
            )[i].1 == records[i].1@,
{
}

/// A batch is due from 500 records on, from 4,500,000 bytes on, and from an age of a
/// second on, and never before; and only where none of the first two is reached does
/// a clock that went back leave it open.
pub proof fn batches_are_due_at_their_limits(records: nat, bytes: nat, created: u128, now: u128)
    ensures
        flush_due(records, bytes, created, now) == Some(true) <==> records >= 500 || bytes >= 4_500_000 || now
            - created >= 1_000_000_000,
        flush_due(records, bytes, created, now) == Some(false) <==> records < 500 && bytes < 4_500_000 && 0 <= now
            - created < 1_000_000_000,
        flush_due(records, bytes, created, now) is None <==> records < 500 && bytes < 4_500_000 && now < created,
{
}

/// Any positive number of failed records is taken for a failure, and nothing else is.
pub proof fn positive_counts_are_failures(reply: PutRecordsReply, count: i32)
    ensures
        reply.failed_record_count == Some(count) ==> (reports_failures(reply) <==> count > 0),
        reply.failed_record_count is None ==> !reports_failures(reply),
{
}

/// What is tried again are the records with an error code, all of them, each once and
/// in the order in which they were sent: `at` lists their places. Where every error
/// code belongs to a record there are as many as there are error codes.
pub proof fn retries_are_the_failed_records<R>(records: Seq<R>, codes: Seq<bool>) -> (at: Seq<int>)
    ensures
        at.len() == marked(records, codes).len(),
        forall|k: int, m: int| 0 <= k < m < at.len() ==> at[k] < at[m],
        forall|k: int|
            0 <= k < at.len() ==> {
                &&& 0 <= #[trigger] at[k] < records.len()
                &&& at[k] < codes.len()
                &&& codes[at[k]]
                &&& marked(records, codes)[k] == records[at[k]]
            },
        forall|i: int| 0 <= i < records.len() && i < codes.len() && #[trigger] codes[i] ==> at.contains(i),
        (forall|i: int| records.len() <= i < codes.len() ==> !#[trigger] codes[i]) ==> marked(records, codes).len()
            == codes.filter(|code: bool| code).len(),
{
    lemma_marks_are_counted(records, codes);
    if forall|i: int| records.len() <= i < codes.len() ==> !#[trigger] codes[i] {
        if records.len() < codes.len() {
            lemma_unset_codes_do_not_count(codes, records.len() as int);
        } else {
            assert(codes.take(codes.len() as int) =~= codes);
        }
    }
    lemma_places_of_marked(records, codes)
}

/// The places of the records that are marked.
proof fn lemma_places_of_marked<R>(records: Seq<R>, codes: Seq<bool>) -> (at: Seq<int>)
    ensures
        at.len() == marked(records, codes).len(),
        forall|k: int, m: int| 0 <= k < m < at.len() ==> at[k] < at[m],
        forall|k: int|
            0 <= k < at.len() ==> {
                &&& 0 <= #[trigger] at[k] < records.len()
                &&& at[k] < codes.len()
                &&& codes[at[k]]
                &&& marked(records, codes)[k] == records[at[k]]
            },
        forall|i: int| 0 <= i < records.len() && i < codes.len() && #[trigger] codes[i] ==> at.contains(i),
    decreases records.len(),
{
    if records.len() == 0 {
        Seq::empty()
    } else {
        let last = records.len() - 1;
        let rest = lemma_places_of_marked(records.drop_last(), codes);
        if last < codes.len() && codes[last] {
            let at = rest.push(last);
            assert forall|i: int| 0 <= i < records.len() && i < codes.len() && #[trigger] codes[i] implies at.contains(
                i,
            ) by {
                if i == last {
                    assert(at[rest.len() as int] == i);
                } else {
                    assert(rest.contains(i));
                    let k = choose|k: int| 0 <= k < rest.len() && rest[k] == i;
                    assert(at[k] == i);
                }
            }
            at
        } else {
            rest
        }
    }
}

/// There are as many marked records as marks on them.
proof fn lemma_marks_are_counted<R>(records: Seq<R>, codes: Seq<bool>)
    ensures
        marked(records, codes).len() == codes.take(
            if records.len() < codes.len() {
                records.len() as int
            } else {
                codes.len() as int
            },
        ).filter(|code: bool| code).len(),
    decreases records.len(),
{
    reveal(Seq::filter);
    if records.len() == 0 {
        assert(codes.take(0) =~= Seq::empty());
    } else {
        let last = records.len() - 1;
        lemma_marks_are_counted(records.drop_last(), codes);
        if last < codes.len() {
            assert(codes.take(last + 1).drop_last() =~= codes.take(last));
        }
    }
}

/// Codes that are not set do not count.
proof fn lemma_unset_codes_do_not_count(codes: Seq<bool>, from: int)
    requires
        0 <= from <= codes.len(),
        forall|i: int| from <= i < codes.len() ==> !#[trigger] codes[i],
    ensures
        codes.filter(|code: bool| code).len() == codes.take(from).filter(|code: bool| code).len(),
    decreases codes.len(),
{
    reveal(Seq::filter);
    if from == codes.len() {
        assert(codes.take(from) =~= codes);
    } else {
        lemma_unset_codes_do_not_count(codes.drop_last(), from);
        assert(codes.drop_last().take(from) =~= codes.take(from));
    }
}

/// A record that the sink takes in goes behind those that wait. With it the batch is
/// handed out exactly where it has 500 records or 4,500,000 bytes or is a second old,
/// and waits on exactly where it has less of each; where its age cannot be told it is
/// gone. The batch is the one that waited, or one that was made for the record, for
/// the stream and the client of the sink.
pub proof fn record_joins_the_waiting_batch(
    before: KinesisSinkFunc,
    key: Seq<char>,
    value: Seq<char>,
    opened: u128,
    now: u128,
    after: KinesisSinkFunc,
    step: SinkStep,
    waiting: Seq<(Seq<char>, Seq<char>)>,
    created: u128,
)
    requires
        takes_record(before, key, value, opened, now, after, step),
        match before.in_progress() {
            None => waiting.len() == 0 && created == opened,
            Some(batch) => waiting == batch.records() && created == batch.created(),
        },
    ensures
        step is Flush <==> waiting.len() + 1 >= 500 || data_bytes(waiting) + encode_utf8(value).len() >= 4_500_000
            || now - created >= 1_000_000_000,
        step is Hold <==> waiting.len() + 1 < 500 && data_bytes(waiting) + encode_utf8(value).len() < 4_500_000 && 0
            <= now - created < 1_000_000_000,
        step matches SinkStep::Flush(batch) ==> after.in_progress() is None && batch.wf() && batch.records()
            == waiting.push((key, value)) && batch.created() == created && batch.stream() == Some(before.stream()),
        step is Hold ==> after.in_progress() is Some,
        step is Hold ==> after.in_progress()->0.wf() && after.in_progress()->0.records() == waiting.push((key, value))
            && after.in_progress()->0.created() == created && after.in_progress()->0.stream() == Some(
            before.stream(),
        ),
        step is ClockWentBack ==> after.in_progress() is None,
        step matches SinkStep::Flush(batch) ==> match before.in_progress() {
            None => batch.client() == before.client()->0,
            Some(earlier) => batch.client() == earlier.client(),
        },
        step is Hold ==> match before.in_progress() {
            None => after.in_progress()->0.client() == before.client()->0,
            Some(earlier) => after.in_progress()->0.client() == earlier.client(),
        },
        after.client() == before.client(),
        after.stream() == before.stream(),
{
    values_make_up_the_data(waiting, Seq::empty(), key, value);
    assert(waiting =~= before.pending());
}

/// A tick hands out the batch that waits exactly where it has 500 records or
/// 4,500,000 bytes or is a second old, and hands it out as it is; otherwise the batch
/// stays as it is.
pub proof fn tick_takes_what_is_due(before: KinesisSinkFunc, now: u128, after: KinesisSinkFunc, step: SinkStep)
    requires
        ticks(before, now, after, step),
    ensures
        before.in_progress() is None ==> step is Hold && after.in_progress() is None,
        before.in_progress() matches Some(batch) ==> (step is Flush <==> batch.records().len() >= 500 || data_bytes(
            batch.records(),
        ) >= 4_500_000 || now - batch.created() >= 1_000_000_000),
        step matches SinkStep::Flush(batch) ==> before.in_progress() == Some(batch) && after.in_progress() is None,
        !(step is Flush) ==> after.in_progress() == before.in_progress(),
        step is ClockWentBack <==> (before.in_progress() matches Some(batch) && batch.records().len() < 500
            && data_bytes(batch.records()) < 4_500_000 && now < batch.created()),
        after.client() == before.client(),
        after.stream() == before.stream(),
{
}

} // verus!
