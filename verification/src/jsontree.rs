//! A parsed JSON document as plain library data. The trusted boundary
//! converts the outside parser's value into this tree variant for variant;
//! everything that reads the log's schema is then verified over it.

use vstd::prelude::*;

verus! {

/// One JSON value, reduced to what the index can ever read. A number's
/// value is never read by any part of the schema, so only its presence is
/// kept.
pub enum JsonNode {
    Null,
    Bool(bool),
    Number,
    Text(String),
    List(Vec<JsonNode>),
    /// An object's fields, in the parser's order, keys already deduplicated.
    Object(Vec<(String, JsonNode)>),
}

/// Mathematical image of a `JsonNode`.
#[verifier::ext_equal]
pub ghost enum JsonView {
    Null,
    Bool(bool),
    Number,
    Text(Seq<char>),
    List(Seq<JsonView>),
    Object(Seq<(Seq<char>, JsonView)>),
}

/// The view of a JSON tree.
pub open spec fn json_node_view(n: JsonNode) -> JsonView
    decreases n, 0int,
    via json_node_view_decreases
{
    match n {
        JsonNode::Null => JsonView::Null,
        JsonNode::Bool(b) => JsonView::Bool(b),
        JsonNode::Number => JsonView::Number,
        JsonNode::Text(s) => JsonView::Text(s@),
        JsonNode::List(xs) => JsonView::List(json_list_view(xs@, 0)),
        JsonNode::Object(fs) => JsonView::Object(json_object_view(fs@, 0)),
    }
}

/// The views of a list's items from position `k` on.
pub open spec fn json_list_view(xs: Seq<JsonNode>, k: int) -> Seq<JsonView>
    decreases xs, xs.len() - k,
    via json_list_view_decreases
{
    if k < 0 || k >= xs.len() {
        Seq::empty()
    } else {
        seq![json_node_view(xs[k])] + json_list_view(xs, k + 1)
    }
}

/// The views of an object's fields from position `k` on.
pub open spec fn json_object_view(fs: Seq<(String, JsonNode)>, k: int) -> Seq<
    (Seq<char>, JsonView),
>
    decreases fs, fs.len() - k,
    via json_object_view_decreases
{
    if k < 0 || k >= fs.len() {
        Seq::empty()
    } else {
        seq![(fs[k].0@, json_node_view(fs[k].1))] + json_object_view(fs, k + 1)
    }
}

/// A tree's item and field lists sit below it in the recursion order.
#[via_fn]
proof fn json_node_view_decreases(n: JsonNode) {
    match n {
        JsonNode::List(xs) => {
            assert(decreases_to!(n => xs));
            assert(decreases_to!(xs => xs@));
        },
        JsonNode::Object(fs) => {
            assert(decreases_to!(n => fs));
            assert(decreases_to!(fs => fs@));
        },
        _ => {},
    }
}

/// A list's item sits below the list in the recursion order.
#[via_fn]
proof fn json_list_view_decreases(xs: Seq<JsonNode>, k: int) {
    if 0 <= k < xs.len() {
        assert(decreases_to!(xs => xs[k]));
    }
}

/// A field's value sits below the field list in the recursion order.
#[via_fn]
proof fn json_object_view_decreases(fs: Seq<(String, JsonNode)>, k: int) {
    if 0 <= k < fs.len() {
        assert(decreases_to!(fs => fs[k]));
        assert(decreases_to!(fs[k] => fs[k].1));
    }
}

/// The first field of an object with the given key, if any.
pub open spec fn field_get(fields: Seq<(Seq<char>, JsonView)>, key: Seq<char>) -> Option<JsonView>
    decreases fields.len(),
{
    if fields.len() == 0 {
        None
    } else if fields[0].0 == key {
        Some(fields[0].1)
    } else {
        field_get(fields.drop_first(), key)
    }
}

/// Look up a field in an object's entries, first match wins.
pub fn object_field<'a>(fields: &'a Vec<(String, JsonNode)>, key: &str) -> (r: Option<
    &'a JsonNode,
>)
    ensures
        match r {
            Some(n) => field_get(node_fields_view(fields), key@) == Some(json_node_view(*n)),
            None => field_get(node_fields_view(fields), key@) is None,
        },
{
    let n = fields.len();
    let mut i: usize = 0;
    proof {
        lemma_json_object_view_index(fields@, 0);
        assert(node_fields_view(fields).skip(0) =~= node_fields_view(fields));
    }
    while i < n
        invariant
            i <= n,
            n == fields@.len(),
            n == node_fields_view(fields).len(),
            field_get(node_fields_view(fields), key@) == field_get(
                node_fields_view(fields).skip(i as int),
                key@,
            ),
        decreases n - i,
    {
        proof {
            lemma_json_object_view_index(fields@, 0);
            lemma_field_get_skip_step(node_fields_view(fields), key@, i as int);
            assert(node_fields_view(fields)[i as int] == (fields@[i as int].0@, json_node_view(
                fields@[i as int].1,
            )));
        }
        if crate::strutil::str_eq(fields[i].0.as_str(), key) {
            return Some(&fields[i].1);
        }
        i += 1;
    }
    proof {
        lemma_json_object_view_index(fields@, 0);
        assert(node_fields_view(fields).skip(n as int) =~= Seq::<(Seq<char>, JsonView)>::empty());
    }
    None
}

/// The view of an object's field list.
pub open spec fn node_fields_view(fields: &Vec<(String, JsonNode)>) -> Seq<(Seq<char>, JsonView)> {
    json_object_view(fields@, 0)
}

/// The item views of a list, element by element.
pub proof fn lemma_json_list_view_index(xs: Seq<JsonNode>, k: int)
    requires
        0 <= k <= xs.len(),
    ensures
        json_list_view(xs, k).len() == xs.len() - k,
        forall|i: int|
            k <= i < xs.len() ==> json_list_view(xs, k)[i - k] == json_node_view(#[trigger] xs[i]),
    decreases xs.len() - k,
{
    if k < xs.len() {
        lemma_json_list_view_index(xs, k + 1);
        assert forall|i: int| k <= i < xs.len() implies json_list_view(xs, k)[i - k]
            == json_node_view(#[trigger] xs[i]) by {
            if i > k {
                assert(json_list_view(xs, k)[i - k] == json_list_view(xs, k + 1)[i - k - 1]);
            }
        }
    }
}

/// The field views of an object, entry by entry.
pub proof fn lemma_json_object_view_index(fs: Seq<(String, JsonNode)>, k: int)
    requires
        0 <= k <= fs.len(),
    ensures
        json_object_view(fs, k).len() == fs.len() - k,
        forall|i: int|
            k <= i < fs.len() ==> json_object_view(fs, k)[i - k] == (
                (#[trigger] fs[i]).0@,
                json_node_view(fs[i].1),
            ),
    decreases fs.len() - k,
{
    if k < fs.len() {
        lemma_json_object_view_index(fs, k + 1);
        assert forall|i: int| k <= i < fs.len() implies json_object_view(fs, k)[i - k] == (
            (#[trigger] fs[i]).0@,
            json_node_view(fs[i].1),
        ) by {
            if i > k {
                assert(json_object_view(fs, k)[i - k] == json_object_view(fs, k + 1)[i - k - 1]);
            }
        }
    }
}

/// One unfolding step of the lookup past a non-matching head.
proof fn lemma_field_get_skip_step(fields: Seq<(Seq<char>, JsonView)>, key: Seq<char>, i: int)
    requires
        0 <= i < fields.len(),
    ensures
        fields.skip(i)[0] == fields[i],
        fields[i].0 == key ==> field_get(fields.skip(i), key) == Some(fields[i].1),
        fields[i].0 != key ==> field_get(fields.skip(i), key) == field_get(
            fields.skip(i + 1),
            key,
        ),
{
    let s = fields.skip(i);
    assert(s.len() > 0);
    assert(s[0] == fields[i]);
    assert(s.drop_first() =~= fields.skip(i + 1));
}

} // verus!
