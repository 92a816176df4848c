# arroyo_worker

Two operators of a stream engine, with their logic verified by Verus.

The **instant join** (`src/instant_join.rs`, `src/routing.rs`, `src/timestamps.rs`,
`src/join_plan.rs`) joins two inputs on equal event time. A batch that arrives is
cut by timestamp, and each part goes to the join execution of its time. When the
watermark passes a time, its execution is drained. Proved, among other things:
every row is delivered once and under the time of its timestamp, in whatever order
the rows stand, a watermark drains exactly the executions that it has passed, in
their order, and, where the timestamps of a batch are not null and do not straddle
the epoch, a time that has been passed is not opened again.

The **Kinesis sink** (`src/kinesis_sink.rs`, `src/put_records.rs`) collects records
in batches and writes these to a stream. Proved, among other things: the request of
a batch holds its records in their order, a batch is handed out when it reaches its
limits, and a flush tries again exactly the records that the service says it did not
take.

`app/` holds what surrounds the two: channels, futures, state tables, the clock and
the network. It performs the steps on which the library decides and hands back what
came of them.
