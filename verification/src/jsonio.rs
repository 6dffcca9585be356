//! Trusted boundary to the JSON parser. The parse of a line is handed over
//! as a plain library tree, converted from the parser's value variant for
//! variant, and is named: the same bytes always parse to the same tree, so
//! everything downstream — the schema policy included — is verified against
//! that name.

use vstd::prelude::*;

use crate::jsontree::{json_node_view, JsonNode, JsonView};

verus! {

#[verifier::external_type_specification]
#[verifier::external_body]
pub struct ExValue(serde_json::Value);

/// The parse of one raw line: what `parse_json_tree` returns, as a function
/// of the bytes alone.
pub uninterp spec fn json_of(bytes: Seq<u8>) -> Option<JsonView>;

/// Relies on serde_json::from_slice::<Value>: parses one raw line as a JSON
/// document; bytes that are not valid UTF-8 JSON give None. The result is a
/// function of the bytes alone: parsing is deterministic, and so is the
/// conversion below (duplicate object keys collapse in the parser's map,
/// which iterates in key order).
#[verifier::external_body]
pub(crate) fn parse_json_tree(bytes: &[u8]) -> (r: Option<JsonNode>)
    ensures
        (match r {
            Some(t) => Some(json_node_view(t)),
            None => None,
        }) == json_of(bytes@),
{
    serde_json::from_slice::<serde_json::Value>(bytes).ok().map(node_of)
}

/// Relies on serde_json::Value's public variants: each arm moves the
/// variant's fields into the plain tree, item by item and field by field.
/// A number's value is never read by the index and is not kept.
#[verifier::external_body]
fn node_of(v: serde_json::Value) -> JsonNode {
    match v {
        serde_json::Value::Null => JsonNode::Null,
        serde_json::Value::Bool(b) => JsonNode::Bool(b),
        serde_json::Value::Number(_) => JsonNode::Number,
        serde_json::Value::String(s) => JsonNode::Text(s),
        serde_json::Value::Array(xs) => JsonNode::List(xs.into_iter().map(node_of).collect()),
        serde_json::Value::Object(m) => JsonNode::Object(
            m.into_iter().map(|(k, x)| (k, node_of(x))).collect(),
        ),
    }
}

} // verus!
