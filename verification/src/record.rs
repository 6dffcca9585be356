//! The minimal shape of one parsed log record: just the fields the index
//! needs. A record scanner fills this in from the raw line; everything
//! downstream is defined over these plain values.

use vstd::prelude::*;

verus! {

/// One item of a record's list-valued message content, reduced to the
/// fields the classifier reads.
pub struct ContentItem {
    /// The item's type tag, when it is a string ("tool_use", "tool_result", ...).
    pub item_type: Option<String>,
    /// The invoked tool's name, when the item carries one as a string.
    pub tool_name: Option<String>,
    /// The `file_path` field of the tool input, when it is a string.
    pub file_path: Option<String>,
    /// The `old_string` field of the tool input, when it is a string.
    pub old_string: Option<String>,
}

/// Mathematical image of a `ContentItem`.
#[verifier::ext_equal]
pub ghost struct ItemView {
    pub item_type: Option<Seq<char>>,
    pub tool_name: Option<Seq<char>>,
    pub file_path: Option<Seq<char>>,
    pub old_string: Option<Seq<char>>,
}

impl DeepView for ContentItem {
    type V = ItemView;

    open spec fn deep_view(&self) -> ItemView {
        self.view()
    }
}

impl View for ContentItem {
    type V = ItemView;

    open spec fn view(&self) -> ItemView {
        ItemView {
            item_type: match self.item_type {
                Some(s) => Some(s@),
                None => None,
            },
            tool_name: match self.tool_name {
                Some(s) => Some(s@),
                None => None,
            },
            file_path: match self.file_path {
                Some(s) => Some(s@),
                None => None,
            },
            old_string: match self.old_string {
                Some(s) => Some(s@),
                None => None,
            },
        }
    }
}

/// One log line parsed into the fields the index needs. Every field is
/// optional: the log's schema is read best-effort.
pub struct ScannedRecord {
    /// The record's type tag ("user", "assistant", ...).
    pub entry_type: Option<String>,
    /// The record's unique identifier.
    pub uuid: Option<String>,
    /// The identifier of the record's parent, if declared.
    pub parent_uuid: Option<String>,
    /// Distinguishes an actual end user ("external") from system-injected
    /// user-role records.
    pub user_type: Option<String>,
    /// Marks synthetic summarization records.
    pub is_compact_summary: Option<bool>,
    /// Marks system meta-events delivered under the user role.
    pub is_meta: Option<bool>,
    /// The record's timestamp text.
    pub timestamp: Option<String>,
    /// The message content, when it is a list of items.
    pub content_items: Option<Vec<ContentItem>>,
}

/// Mathematical image of a `ScannedRecord`.
#[verifier::ext_equal]
pub ghost struct RecordView {
    pub entry_type: Option<Seq<char>>,
    pub uuid: Option<Seq<char>>,
    pub parent_uuid: Option<Seq<char>>,
    pub user_type: Option<Seq<char>>,
    pub is_compact_summary: Option<bool>,
    pub is_meta: Option<bool>,
    pub timestamp: Option<Seq<char>>,
    pub content_items: Option<Seq<ItemView>>,
}

impl View for ScannedRecord {
    type V = RecordView;

    open spec fn view(&self) -> RecordView {
        RecordView {
            entry_type: match self.entry_type {
                Some(s) => Some(s@),
                None => None,
            },
            uuid: match self.uuid {
                Some(s) => Some(s@),
                None => None,
            },
            parent_uuid: match self.parent_uuid {
                Some(s) => Some(s@),
                None => None,
            },
            user_type: match self.user_type {
                Some(s) => Some(s@),
                None => None,
            },
            is_compact_summary: self.is_compact_summary,
            is_meta: self.is_meta,
            timestamp: match self.timestamp {
                Some(s) => Some(s@),
                None => None,
            },
            content_items: match self.content_items {
                Some(v) => Some(v.deep_view()),
                None => None,
            },
        }
    }
}

/// A record is a genuine human turn: a user-role record authored by an
/// external user whose content carries no tool result and which is neither
/// a compact summary nor a meta event.
pub open spec fn spec_is_human_turn(r: RecordView) -> bool {
    &&& r.entry_type == Some("user"@)
    &&& r.user_type == Some("external"@)
    &&& (match r.content_items {
        Some(items) => forall|i: int|
            0 <= i < items.len() ==> items[i].item_type != Some("tool_result"@),
        None => true,
    })
    &&& r.is_compact_summary != Some(true)
    &&& r.is_meta != Some(true)
}

/// Decide the human-turn predicate on a scanned record.
pub fn is_human_turn_record(r: &ScannedRecord) -> (b: bool)
    ensures
        b == spec_is_human_turn(r@),
{
    match &r.entry_type {
        Some(t) => {
            if !crate::strutil::str_eq(t.as_str(), "user") {
                return false;
            }
        },
        None => {
            return false;
        },
    }
    match &r.user_type {
        Some(t) => {
            if !crate::strutil::str_eq(t.as_str(), "external") {
                return false;
            }
        },
        None => {
            return false;
        },
    }
    match &r.content_items {
        Some(items) => {
            let n = items.len();
            let mut i: usize = 0;
            while i < n
                invariant
                    i <= n,
                    n == items@.len(),
                    r@.content_items == Some(items.deep_view()),
                    forall|j: int|
                        0 <= j < i ==> items.deep_view()[j].item_type != Some("tool_result"@),
                decreases n - i,
            {
                match &items[i].item_type {
                    Some(t) => {
                        if crate::strutil::str_eq(t.as_str(), "tool_result") {
                            proof {
                                assert(items.deep_view()[i as int] == items@[i as int]@);
                                assert(items@[i as int]@.item_type == Some("tool_result"@));
                                assert(!spec_is_human_turn(r@));
                            }
                            return false;
                        }
                    },
                    None => {},
                }
                i += 1;
            }
        },
        None => {},
    }
    match r.is_compact_summary {
        Some(true) => {
            return false;
        },
        _ => {},
    }
    match r.is_meta {
        Some(true) => {
            return false;
        },
        _ => {},
    }
    true
}

} // verus!
