//! The record scanner: reduce one raw log line, already trimmed of its
//! terminator, to the plain fields the index needs. The whole schema policy
//! is verified: `spec_scan` says exactly which record a line's parse yields,
//! and `scan_line` returns it. A line that is not a well-typed record
//! contributes nothing beyond its byte span, so a log with occasional
//! corrupt or partial lines still indexes cleanly.

use vstd::prelude::*;

use crate::jsonio::{json_of, parse_json_tree};
use crate::jsontree::{field_get, json_list_view, json_node_view, lemma_json_list_view_index,
    node_fields_view, object_field, JsonNode, JsonView};
use crate::model::opt_str_view;
use crate::record::{ContentItem, ItemView, RecordView, ScannedRecord};

verus! {

/// A string field of a record object: absent or null reads as None, text
/// reads as itself, and any other type rejects the whole record, mirroring
/// a typed schema read.
pub open spec fn spec_str_field(fields: Seq<(Seq<char>, JsonView)>, key: Seq<char>) -> Result<
    Option<Seq<char>>,
    (),
> {
    match field_get(fields, key) {
        None => Ok(None),
        Some(JsonView::Null) => Ok(None),
        Some(JsonView::Text(s)) => Ok(Some(s)),
        Some(_) => Err(()),
    }
}

/// A boolean field of a record object, read like `spec_str_field`.
pub open spec fn spec_bool_field(fields: Seq<(Seq<char>, JsonView)>, key: Seq<char>) -> Result<
    Option<bool>,
    (),
> {
    match field_get(fields, key) {
        None => Ok(None),
        Some(JsonView::Null) => Ok(None),
        Some(JsonView::Bool(b)) => Ok(Some(b)),
        Some(_) => Err(()),
    }
}

/// A string field of a content item or tool input, read leniently: any
/// non-string value, and any non-object holder, is treated as absent.
pub open spec fn spec_lenient_str(j: JsonView, key: Seq<char>) -> Option<Seq<char>> {
    match j {
        JsonView::Object(fields) => match field_get(fields, key) {
            Some(JsonView::Text(s)) => Some(s),
            _ => None,
        },
        _ => None,
    }
}

/// One content item reduced to the fields the classifier reads.
pub open spec fn spec_item(j: JsonView) -> ItemView {
    let input = match j {
        JsonView::Object(fields) => field_get(fields, "input"@),
        _ => None,
    };
    ItemView {
        item_type: spec_lenient_str(j, "type"@),
        tool_name: spec_lenient_str(j, "name"@),
        file_path: match input {
            Some(x) => spec_lenient_str(x, "file_path"@),
            None => None,
        },
        old_string: match input {
            Some(x) => spec_lenient_str(x, "old_string"@),
            None => None,
        },
    }
}

/// The reduced items of a content list.
pub open spec fn spec_items(items: Seq<JsonView>) -> Seq<ItemView> {
    Seq::new(items.len(), |i: int| spec_item(items[i]))
}

/// The message content, when it is a list of items: an absent or null
/// message has none, a scalar content is not a list, and a message of any
/// other shape rejects the record.
pub open spec fn spec_content(fields: Seq<(Seq<char>, JsonView)>) -> Result<
    Option<Seq<ItemView>>,
    (),
> {
    match field_get(fields, "message"@) {
        None => Ok(None),
        Some(JsonView::Null) => Ok(None),
        Some(JsonView::Object(mf)) => match field_get(mf, "content"@) {
            Some(JsonView::List(items)) => Ok(Some(spec_items(items))),
            _ => Ok(None),
        },
        Some(_) => Err(()),
    }
}

/// The record a well-typed object parses to, if all its fields read.
pub open spec fn spec_scan_object(fields: Seq<(Seq<char>, JsonView)>) -> Option<RecordView> {
    if spec_str_field(fields, "type"@) is Err || spec_str_field(fields, "uuid"@) is Err
        || spec_str_field(fields, "parentUuid"@) is Err || spec_str_field(fields, "userType"@)
        is Err || spec_str_field(fields, "timestamp"@) is Err || spec_bool_field(
        fields,
        "isCompactSummary"@,
    ) is Err || spec_bool_field(fields, "isMeta"@) is Err || spec_content(fields) is Err {
        None
    } else {
        Some(
            RecordView {
                entry_type: spec_str_field(fields, "type"@).unwrap(),
                uuid: spec_str_field(fields, "uuid"@).unwrap(),
                parent_uuid: spec_str_field(fields, "parentUuid"@).unwrap(),
                user_type: spec_str_field(fields, "userType"@).unwrap(),
                is_compact_summary: spec_bool_field(fields, "isCompactSummary"@).unwrap(),
                is_meta: spec_bool_field(fields, "isMeta"@).unwrap(),
                timestamp: spec_str_field(fields, "timestamp"@).unwrap(),
                content_items: spec_content(fields).unwrap(),
            },
        )
    }
}

/// The record one raw line scans to: None unless the line parses to a JSON
/// object with well-typed record fields.
pub open spec fn spec_scan(j: Option<JsonView>) -> Option<RecordView> {
    match j {
        Some(JsonView::Object(fields)) => spec_scan_object(fields),
        _ => None,
    }
}

/// Read a string field of the record object by the typed policy.
fn typed_str_field(fields: &Vec<(String, JsonNode)>, key: &str) -> (r: Result<Option<String>, ()>)
    ensures
        (match r {
            Ok(x) => Ok(opt_str_view(x)),
            Err(_) => Err(()),
        }) == spec_str_field(node_fields_view(fields), key@),
{
    match object_field(fields, key) {
        None => Ok(None),
        Some(node) => match node {
            JsonNode::Null => Ok(None),
            JsonNode::Text(s) => Ok(Some(s.clone())),
            _ => Err(()),
        },
    }
}

/// Read a boolean field of the record object by the typed policy.
fn typed_bool_field(fields: &Vec<(String, JsonNode)>, key: &str) -> (r: Result<Option<bool>, ()>)
    ensures
        (match r {
            Ok(x) => Ok(x),
            Err(_) => Err(()),
        }) == spec_bool_field(node_fields_view(fields), key@),
{
    match object_field(fields, key) {
        None => Ok(None),
        Some(node) => match node {
            JsonNode::Null => Ok(None),
            JsonNode::Bool(b) => Ok(Some(*b)),
            _ => Err(()),
        },
    }
}

/// Read a string field leniently.
fn lenient_str_field(node: &JsonNode, key: &str) -> (r: Option<String>)
    ensures
        opt_str_view(r) == spec_lenient_str(json_node_view(*node), key@),
{
    match node {
        JsonNode::Object(fields) => match object_field(fields, key) {
            Some(f) => match f {
                JsonNode::Text(s) => Some(s.clone()),
                _ => None,
            },
            None => None,
        },
        _ => None,
    }
}

/// Reduce one content item to the fields the classifier reads.
fn extract_item(item: &JsonNode) -> (r: ContentItem)
    ensures
        r@ == spec_item(json_node_view(*item)),
{
    let item_type = lenient_str_field(item, "type");
    let tool_name = lenient_str_field(item, "name");
    let (file_path, old_string) = match item {
        JsonNode::Object(fields) => match object_field(fields, "input") {
            Some(input) => (lenient_str_field(input, "file_path"), lenient_str_field(
                input,
                "old_string",
            )),
            None => (None, None),
        },
        _ => (None, None),
    };
    ContentItem { item_type, tool_name, file_path, old_string }
}

/// Parse one raw line into a scanned record: exactly `spec_scan` of the
/// line's parse. The caller still accounts for an unparsable line's span.
pub fn scan_line(line: &[u8]) -> (r: Option<ScannedRecord>)
    ensures
        (match r {
            Some(x) => Some(x@),
            None => None,
        }) == spec_scan(json_of(line@)),
{
    let tree = match parse_json_tree(line) {
        Some(t) => t,
        None => {
            return None;
        },
    };
    let fields = match &tree {
        JsonNode::Object(fields) => fields,
        _ => {
            return None;
        },
    };
    proof {
        assert(json_of(line@) == Some(json_node_view(tree)));
        assert(json_node_view(tree) == JsonView::Object(node_fields_view(fields)));
    }
    let ghost fv = node_fields_view(fields);
    let entry_type = match typed_str_field(fields, "type") {
        Ok(x) => x,
        Err(_) => {
            return None;
        },
    };
    let uuid = match typed_str_field(fields, "uuid") {
        Ok(x) => x,
        Err(_) => {
            return None;
        },
    };
    let parent_uuid = match typed_str_field(fields, "parentUuid") {
        Ok(x) => x,
        Err(_) => {
            return None;
        },
    };
    let user_type = match typed_str_field(fields, "userType") {
        Ok(x) => x,
        Err(_) => {
            return None;
        },
    };
    let timestamp = match typed_str_field(fields, "timestamp") {
        Ok(x) => x,
        Err(_) => {
            return None;
        },
    };
    let is_compact_summary = match typed_bool_field(fields, "isCompactSummary") {
        Ok(x) => x,
        Err(_) => {
            return None;
        },
    };
    let is_meta = match typed_bool_field(fields, "isMeta") {
        Ok(x) => x,
        Err(_) => {
            return None;
        },
    };
    let content_items: Option<Vec<ContentItem>> = match object_field(fields, "message") {
        None => None,
        Some(message) => match message {
            JsonNode::Null => None,
            JsonNode::Object(mf) => {
                match object_field(mf, "content") {
                    Some(content) => match content {
                        JsonNode::List(items) => {
                            let n = items.len();
                            let mut out: Vec<ContentItem> = Vec::new();
                            let mut i: usize = 0;
                            proof {
                                lemma_json_list_view_index(items@, 0);
                                assert(out.deep_view() =~= spec_items(
                                    json_list_view(items@, 0),
                                ).take(0));
                            }
                            while i < n
                                invariant
                                    i <= n,
                                    n == items@.len(),
                                    json_list_view(items@, 0).len() == n,
                                    forall|j: int|
                                        0 <= j < n ==> json_list_view(items@, 0)[j]
                                            == json_node_view(#[trigger] items@[j]),
                                    out.deep_view() == spec_items(json_list_view(items@, 0)).take(
                                        i as int,
                                    ),
                                decreases n - i,
                            {
                                let item = extract_item(&items[i]);
                                let ghost pre = out.deep_view();
                                let ghost prevec = out@;
                                out.push(item);
                                proof {
                                    assert(out@ == prevec.push(item));
                                    assert(pre == Seq::new(
                                        prevec.len(),
                                        |k: int| prevec[k].deep_view(),
                                    ));
                                    assert(out.deep_view() == Seq::new(
                                        out@.len(),
                                        |k: int| out@[k].deep_view(),
                                    ));
                                    assert(spec_items(json_list_view(items@, 0)).len() == n);
                                    assert(pre.len() == i);
                                    assert(prevec.len() == i && out@.len() == i + 1);
                                    assert forall|j: int|
                                        0 <= j <= i implies out.deep_view()[j] == (if j < i {
                                        pre[j]
                                    } else {
                                        item@
                                    }) by {
                                        assert(out.deep_view()[j] == out@[j].deep_view());
                                        if j < i {
                                            assert(out@[j] == prevec[j]);
                                            assert(pre[j] == prevec[j].deep_view());
                                        } else {
                                            assert(out@[j] == item);
                                        }
                                    }
                                    assert(spec_items(json_list_view(items@, 0))[i as int]
                                        == spec_item(json_list_view(items@, 0)[i as int]));
                                    assert(out.deep_view() =~= spec_items(
                                        json_list_view(items@, 0),
                                    ).take(i + 1 as int));
                                }
                                i += 1;
                            }
                            proof {
                                assert(spec_items(json_list_view(items@, 0)).take(n as int)
                                    =~= spec_items(json_list_view(items@, 0)));
                            }
                            Some(out)
                        },
                        _ => None,
                    },
                    None => None,
                }
            },
            _ => {
                return None;
            },
        },
    };
    proof {
        assert(spec_content(fv) is Ok);
    }
    let r = ScannedRecord {
        entry_type,
        uuid,
        parent_uuid,
        user_type,
        is_compact_summary,
        is_meta,
        timestamp,
        content_items,
    };
    proof {
        assert(r@ =~= spec_scan_object(fv).unwrap());
    }
    Some(r)
}

} // verus!
