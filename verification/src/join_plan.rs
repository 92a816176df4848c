//! The encoded physical plan of a join.
use datafusion_proto::protobuf::PhysicalPlanNode;
use prost::{DecodeError, Message};
use vstd::prelude::*;

verus! {

/// A decoded plan.
#[verifier::external_type_specification]
#[verifier::external_body]
pub struct ExPhysicalPlanNode(PhysicalPlanNode);

/// Why the bytes of a plan do not decode.
#[verifier::external_type_specification]
#[verifier::external_body]
pub struct ExDecodeError(DecodeError);

/// What `PhysicalPlanNode::decode` makes of some bytes.
pub uninterp spec fn decoded_plan(bytes: Seq<u8>) -> Result<PhysicalPlanNode, DecodeError>;

/// Calls `PhysicalPlanNode::decode`, prost's decoding of a message. The result
/// depends on the bytes alone.
#[verifier::external_body]
pub(crate) fn decode_plan(bytes: &Vec<u8>) -> (r: Result<PhysicalPlanNode, DecodeError>)
    ensures
        r == decoded_plan(bytes@),
{
    PhysicalPlanNode::decode(&mut bytes.as_slice())
}

} // verus!
