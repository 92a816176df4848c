//! What the sink has from the Kinesis client and from the `uuid` crate: the
//! building of a `PutRecords` request, and random partition keys.
use aws_sdk_kinesis::client::fluent_builders::PutRecords;
use aws_sdk_kinesis::model::PutRecordsRequestEntry;
use aws_sdk_kinesis::types::Blob;
use aws_sdk_kinesis::Client;
use uuid::Uuid;
use vstd::prelude::*;
use vstd::utf8::encode_utf8;

verus! {

/// A client of the Kinesis service.
#[verifier::external_type_specification]
#[verifier::external_body]
pub struct ExClient(Client);

/// A `PutRecords` request that is being built.
#[verifier::external_type_specification]
#[verifier::external_body]
pub struct ExPutRecords(PutRecords);

/// The data of a record.
#[verifier::external_type_specification]
#[verifier::external_body]
pub struct ExBlob(Blob);

/// The bytes of a blob.
pub uninterp spec fn blob_bytes(blob: Blob) -> Seq<u8>;

/// The records of a request, in order: the partition key and the data of each.
pub uninterp spec fn call_records(call: PutRecords) -> Seq<(Seq<char>, Seq<u8>)>;

/// The stream to which a request goes, where it has been set.
pub uninterp spec fn call_stream(call: PutRecords) -> Option<Seq<char>>;

/// The client through which a request is sent.
pub uninterp spec fn call_client(call: PutRecords) -> Client;

/// Calls `Blob::new` on a string: the blob holds the string's bytes.
#[verifier::external_body]
pub(crate) fn blob_new(value: String) -> (blob: Blob)
    ensures
        blob_bytes(blob) == encode_utf8(value@),
{
    Blob::new(value)
}

/// Calls `Blob::as_ref` for the number of bytes that the blob holds.
#[verifier::external_body]
pub(crate) fn blob_len(blob: &Blob) -> (len: usize)
    ensures
        len == blob_bytes(*blob).len(),
{
    blob.as_ref().len()
}

/// Calls `Client::put_records`: a request of this client, without records and for
/// no stream yet.
#[verifier::external_body]
pub(crate) fn put_records(client: &Client) -> (call: PutRecords)
    ensures
        call_records(call) == Seq::<(Seq<char>, Seq<u8>)>::empty(),
        call_stream(call) is None,
        call_client(call) == *client,
{
    client.put_records()
}

/// Calls `PutRecords::stream_name`: sets the stream and keeps the rest.
#[verifier::external_body]
pub(crate) fn stream_name(call: PutRecords, name: String) -> (named: PutRecords)
    ensures
        call_records(named) == call_records(call),
        call_stream(named) == Some(name@),
        call_client(named) == call_client(call),
{
    call.stream_name(name)
}

/// Calls `PutRecords::records` on an entry of the given data and partition key:
/// appends it to the records of the request and keeps the rest.
#[verifier::external_body]
pub(crate) fn append_record(call: PutRecords, key: String, blob: Blob) -> (longer: PutRecords)
    ensures
        call_records(longer) == call_records(call).push((key@, blob_bytes(blob))),
        call_stream(longer) == call_stream(call),
        call_client(longer) == call_client(call),
{
    call.records(PutRecordsRequestEntry::builder().data(blob).partition_key(key).build())
}

/// A lower-case hexadecimal digit.
pub open spec fn is_hex_digit(c: char) -> bool {
    '0' <= c <= '9' || 'a' <= c <= 'f'
}

/// The text of a random UUID: 32 hexadecimal digits in five groups joined by
/// hyphens, with the digits that mark its version and its variant.
pub open spec fn is_random_uuid(text: Seq<char>) -> bool {
    &&& text.len() == 36
    &&& forall|i: int|
        0 <= i < 36 ==> if i == 8 || i == 13 || i == 18 || i == 23 {
            #[trigger] text[i] == '-'
        } else {
            is_hex_digit(text[i])
        }
    &&& text[14] == '4'
    &&& '8' <= text[19] <= '9' || 'a' <= text[19] <= 'b'
}

/// Calls `Uuid::new_v4` for the text of a random UUID. Which one it is is left
/// to chance.
#[verifier::external_body]
pub(crate) fn random_key() -> (key: String)
    ensures
        is_random_uuid(key@),
{
    Uuid::new_v4().to_string()
}

} // verus!
