//! Verified logic of two stream operators: a join of two inputs on equal event
//! time, and a sink that writes batches of records to a Kinesis stream.
use vstd::prelude::*;

pub mod instant_join;
pub mod join_plan;
pub mod kinesis_sink;
pub mod put_records;
pub mod routing;
pub mod timestamps;
