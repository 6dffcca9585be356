//! The session index: the derived structure that one full pass builds and
//! incremental passes extend, plus its read-only accessors.

use vstd::prelude::*;

use crate::strmap::{assoc_distinct, assoc_get, assoc_has_key, assoc_key_index, SeqNoAssoc,
    StrAssoc};
use crate::strutil::lex_le;

verus! {

/// How a touched file is classified.
#[derive(Clone, Copy, Debug, PartialEq, Eq, Structural)]
pub enum FileEditType {
    /// The file had no prior content: it was created.
    Added,
    /// The file existed before it was touched.
    Modified,
}

impl View for FileEditType {
    type V = FileEditType;

    open spec fn view(&self) -> FileEditType {
        *self
    }
}

/// One touched file: its path (relative to the project root where
/// applicable), its classification, and when it was last touched.
#[derive(Clone, Debug)]
pub struct FileEdit {
    pub path: String,
    pub edit_type: FileEditType,
    pub last_edited_at: Option<String>,
}

/// Mathematical image of a `FileEdit`.
#[verifier::ext_equal]
pub ghost struct EditView {
    pub path: Seq<char>,
    pub edit_type: FileEditType,
    pub last_edited_at: Option<Seq<char>>,
}

impl View for FileEdit {
    type V = EditView;

    open spec fn view(&self) -> EditView {
        EditView {
            path: self.path@,
            edit_type: self.edit_type,
            last_edited_at: match self.last_edited_at {
                Some(s) => Some(s@),
                None => None,
            },
        }
    }
}

impl DeepView for FileEdit {
    type V = EditView;

    open spec fn deep_view(&self) -> EditView {
        self.view()
    }
}

/// Metadata kept for each line holding a recognized tool invocation:
/// enough to resume a parent-chain walk from that line.
#[derive(Clone, Debug)]
pub struct EditMetadata {
    /// Identifier of the record holding the invocation.
    pub uuid: Option<String>,
}

impl View for EditMetadata {
    type V = Option<Seq<char>>;

    open spec fn view(&self) -> Option<Seq<char>> {
        match self.uuid {
            Some(s) => Some(s@),
            None => None,
        }
    }
}

/// Strictly increasing sequence of numbers.
pub open spec fn sorted_strict(s: Seq<u32>) -> bool {
    forall|i: int, j: int| 0 <= i < j < s.len() ==> s[i] < s[j]
}

/// Strict lexicographic order on paths.
pub open spec fn lex_lt(a: Seq<char>, b: Seq<char>) -> bool {
    lex_le(a, b) && a != b
}

/// File edits sorted by path in strictly increasing order (so paths are
/// also pairwise distinct).
pub open spec fn edits_sorted(s: Seq<EditView>) -> bool {
    forall|i: int, j: int| 0 <= i < j < s.len() ==> lex_lt(s[i].path, s[j].path)
}

/// Mathematical image of a `SessionIndex`.
#[verifier::ext_equal]
pub ghost struct IndexModel {
    pub file_size: u64,
    pub last_modified: u64,
    pub line_offsets: Seq<(u64, usize)>,
    pub uuid_to_line: Seq<(Seq<char>, u32)>,
    pub parent_map: Seq<(Seq<char>, Seq<char>)>,
    pub human_message_lines: Seq<u32>,
    pub file_edits: Seq<EditView>,
    pub file_to_edit_lines: Seq<(Seq<char>, Seq<u32>)>,
    pub edit_metadata: Seq<(u32, Option<Seq<char>>)>,
}

impl IndexModel {
    /// Internal consistency of the derived structure.
    pub open spec fn wf(self) -> bool {
        &&& assoc_distinct(self.uuid_to_line)
        &&& assoc_distinct(self.parent_map)
        &&& assoc_distinct(self.file_to_edit_lines)
        &&& assoc_distinct(self.edit_metadata)
        &&& sorted_strict(self.human_message_lines)
        &&& edits_sorted(self.file_edits)
        &&& self.line_offsets.len() <= u32::MAX
    }
}

/// Index for a single session log.
///
/// Built once by a full pass over the log, then extended in place as the
/// log grows. Gives keyed lookups for identifiers, file edits, and
/// parent-chain walking without re-reading indexed bytes.
pub struct SessionIndex {
    /// Size of the log when the index was last built or updated.
    pub file_size: u64,
    /// Modification stamp of the log when the index was last built or
    /// updated (an opaque number; only compared for equality and order).
    pub last_modified: u64,
    /// `(byte_offset, byte_length)` of each line, indexed by sequence number.
    pub line_offsets: Vec<(u64, usize)>,
    /// Record identifier to sequence number.
    pub uuid_to_line: StrAssoc<u32>,
    /// Record identifier to declared parent identifier.
    pub parent_map: StrAssoc<String>,
    /// Sequence numbers of genuine human turns, strictly ascending.
    pub human_message_lines: Vec<u32>,
    /// All touched files, sorted by path, one entry per distinct path.
    pub file_edits: Vec<FileEdit>,
    /// Path to the sequence numbers of the lines that touched it.
    pub file_to_edit_lines: StrAssoc<Vec<u32>>,
    /// Sequence number of a touching line to its chain-walk metadata.
    pub edit_metadata: SeqNoAssoc<EditMetadata>,
}

impl View for SessionIndex {
    type V = IndexModel;

    open spec fn view(&self) -> IndexModel {
        IndexModel {
            file_size: self.file_size,
            last_modified: self.last_modified,
            line_offsets: self.line_offsets@,
            uuid_to_line: self.uuid_to_line@,
            parent_map: self.parent_map@,
            human_message_lines: self.human_message_lines@,
            file_edits: self.file_edits.deep_view(),
            file_to_edit_lines: self.file_to_edit_lines@,
            edit_metadata: self.edit_metadata@,
        }
    }
}

/// Status snapshot of the index, for presentation.
#[derive(Clone, Debug)]
pub struct IndexStatus {
    /// Whether the index is ready to use.
    pub ready: bool,
    /// Total number of records (lines) indexed.
    pub total_events: u32,
    /// Number of file edits found.
    pub file_edits_count: u32,
    /// Number of distinct files edited.
    pub files_edited_count: u32,
    /// Failure description when indexing failed.
    pub error: Option<String>,
}

/// A recoverable lookup failure.
#[derive(Clone, Copy, Debug, PartialEq, Eq, Structural)]
pub enum IndexError {
    /// The given line holds no recognized tool invocation.
    MissingEditMetadata,
}

impl SessionIndex {
    pub open spec fn wf(&self) -> bool {
        self@.wf()
    }

    /// Create an empty index (used before building).
    pub fn empty() -> (r: Self)
        ensures
            r.wf(),
            r@.file_size == 0,
            r@.last_modified == 0,
            r@.line_offsets == Seq::<(u64, usize)>::empty(),
            r@.uuid_to_line == Seq::<(Seq<char>, u32)>::empty(),
            r@.parent_map == Seq::<(Seq<char>, Seq<char>)>::empty(),
            r@.human_message_lines == Seq::<u32>::empty(),
            r@.file_edits == Seq::<EditView>::empty(),
            r@.file_to_edit_lines == Seq::<(Seq<char>, Seq<u32>)>::empty(),
            r@.edit_metadata == Seq::<(u32, Option<Seq<char>>)>::empty(),
    {
        let r = SessionIndex {
            file_size: 0,
            last_modified: 0,
            line_offsets: Vec::new(),
            uuid_to_line: StrAssoc::new(),
            parent_map: StrAssoc::new(),
            human_message_lines: Vec::new(),
            file_edits: Vec::new(),
            file_to_edit_lines: StrAssoc::new(),
            edit_metadata: SeqNoAssoc::new(),
        };
        proof {
            assert(r@.line_offsets =~= Seq::<(u64, usize)>::empty());
            assert(r@.human_message_lines =~= Seq::<u32>::empty());
            assert(r@.file_edits =~= Seq::<EditView>::empty());
        }
        r
    }

    /// Total number of records (lines) in the session.
    pub fn total_events(&self) -> (r: u32)
        requires
            self.wf(),
        ensures
            r == self@.line_offsets.len(),
    {
        self.line_offsets.len() as u32
    }

    /// Look up the sequence number recorded for an identifier.
    pub fn line_for_uuid(&self, uuid: &str) -> (r: Option<u32>)
        requires
            self.wf(),
        ensures
            r == assoc_get(self@.uuid_to_line, uuid@),
    {
        match self.uuid_to_line.get(uuid) {
            Some(v) => Some(*v),
            None => None,
        }
    }

    /// Look up the declared parent identifier of an identifier.
    pub fn parent_of(&self, uuid: &str) -> (r: Option<&String>)
        requires
            self.wf(),
        ensures
            match r {
                Some(p) => assoc_get(self@.parent_map, uuid@) == Some(p@),
                None => assoc_get(self@.parent_map, uuid@) is None,
            },
    {
        self.parent_map.get(uuid)
    }

    /// Is this line a genuine human turn?
    pub fn is_human_message(&self, line: u32) -> (r: bool)
        requires
            self.wf(),
        ensures
            r == self@.human_message_lines.contains(line),
    {
        match find_in_sorted(&self.human_message_lines, line) {
            Ok(_) => true,
            Err(_) => {
                proof {
                    if self@.human_message_lines.contains(line) {
                        let i = choose|i: int|
                            0 <= i < self@.human_message_lines.len()
                                && self@.human_message_lines[i] == line;
                        assert(self@.human_message_lines[i] == line);
                    }
                }
                false
            },
        }
    }

    /// The most recent human turn at or before the given line, if any.
    pub fn find_human_boundary(&self, line: u32) -> (r: Option<u32>)
        requires
            self.wf(),
        ensures
            match r {
                Some(l) => self@.human_message_lines.contains(l) && l <= line && forall|m: u32|
                    self@.human_message_lines.contains(m) && m <= line ==> m <= l,
                None => forall|m: u32| self@.human_message_lines.contains(m) ==> m > line,
            },
    {
        let ghost hs = self@.human_message_lines;
        match find_in_sorted(&self.human_message_lines, line) {
            Ok(idx) => {
                let l = self.human_message_lines[idx];
                proof {
                    assert(hs.contains(l)) by {
                        assert(hs[idx as int] == l);
                    }
                }
                Some(l)
            },
            Err(idx) => {
                if idx == 0 {
                    proof {
                        assert forall|m: u32| hs.contains(m) implies m > line by {
                            let i = choose|i: int| 0 <= i < hs.len() && hs[i] == m;
                            assert(hs[i] > line);
                        }
                    }
                    None
                } else {
                    let l = self.human_message_lines[idx - 1];
                    proof {
                        assert(hs.contains(l)) by {
                            assert(hs[idx - 1] == l);
                        }
                        assert forall|m: u32| hs.contains(m) && m <= line implies m <= l by {
                            let i = choose|i: int| 0 <= i < hs.len() && hs[i] == m;
                            if i >= idx {
                                assert(hs[i] > line);
                            } else {
                                assert(i <= idx - 1);
                                if i < idx - 1 {
                                    assert(hs[i] < hs[idx - 1]);
                                }
                            }
                        }
                    }
                    Some(l)
                }
            },
        }
    }

    /// Status snapshot for presentation. The counts are truncated to 32
    /// bits, mirroring the width the snapshot carries.
    pub fn to_status(&self) -> (r: IndexStatus)
        requires
            self.wf(),
        ensures
            r.ready == true,
            r.total_events == self@.line_offsets.len(),
            r.file_edits_count == self@.file_edits.len() as u32,
            r.files_edited_count == self@.file_to_edit_lines.len() as u32,
            r.error is None,
    {
        IndexStatus {
            ready: true,
            total_events: self.total_events(),
            file_edits_count: #[verifier::truncate] (self.file_edits.len() as u32),
            files_edited_count: #[verifier::truncate] (self.file_to_edit_lines.len() as u32),
            error: None,
        }
    }
}

impl IndexStatus {
    /// The status of an index that is still being built.
    pub fn building() -> (r: Self)
        ensures
            r.ready == false,
            r.total_events == 0,
            r.file_edits_count == 0,
            r.files_edited_count == 0,
            r.error is None,
    {
        IndexStatus {
            ready: false,
            total_events: 0,
            file_edits_count: 0,
            files_edited_count: 0,
            error: None,
        }
    }

    /// The status of an index whose build failed.
    pub fn error(msg: String) -> (r: Self)
        ensures
            r.ready == false,
            r.total_events == 0,
            r.file_edits_count == 0,
            r.files_edited_count == 0,
            r.error == Some(msg),
    {
        IndexStatus {
            ready: false,
            total_events: 0,
            file_edits_count: 0,
            files_edited_count: 0,
            error: Some(msg),
        }
    }
}

/// Binary search in a strictly sorted vector. On a miss, the returned
/// position is the insertion point: everything before it is smaller,
/// everything from it on is larger.
pub fn find_in_sorted(v: &Vec<u32>, x: u32) -> (r: Result<usize, usize>)
    requires
        sorted_strict(v@),
    ensures
        match r {
            Ok(i) => i < v@.len() && v@[i as int] == x,
            Err(i) => {
                &&& i <= v@.len()
                &&& forall|j: int| 0 <= j < i ==> v@[j] < x
                &&& forall|j: int| i <= j < v@.len() ==> v@[j] > x
            },
        },
{
    let mut lo: usize = 0;
    let mut hi: usize = v.len();
    while lo < hi
        invariant
            lo <= hi <= v@.len(),
            sorted_strict(v@),
            forall|j: int| 0 <= j < lo ==> v@[j] < x,
            forall|j: int| hi <= j < v@.len() ==> v@[j] > x,
        decreases hi - lo,
    {
        let mid = lo + (hi - lo) / 2;
        let e = v[mid];
        if e == x {
            return Ok(mid);
        } else if e < x {
            lo = mid + 1;
        } else {
            hi = mid;
        }
    }
    Err(lo)
}

/// Sorted insertion of a line into the human-turn sequence; a line already
/// present is left alone.
pub open spec fn hum_insert(s: Seq<u32>, x: u32) -> Seq<u32>
    decreases s.len(),
{
    if s.len() == 0 {
        seq![x]
    } else if s[0] < x {
        seq![s[0]] + hum_insert(s.drop_first(), x)
    } else if s[0] == x {
        s
    } else {
        seq![x] + s
    }
}

proof fn lemma_hum_insert_at(s: Seq<u32>, x: u32, i: int)
    requires
        sorted_strict(s),
        0 <= i <= s.len(),
        forall|j: int| 0 <= j < i ==> s[j] < x,
        forall|j: int| i <= j < s.len() ==> s[j] > x,
    ensures
        hum_insert(s, x) == s.subrange(0, i) + seq![x] + s.subrange(i, s.len() as int),
    decreases s.len(),
{
    if s.len() == 0 {
        assert(hum_insert(s, x) =~= s.subrange(0, i) + seq![x] + s.subrange(i, s.len() as int));
    } else if i == 0 {
        assert(s[0] > x);
        assert(hum_insert(s, x) =~= s.subrange(0, i) + seq![x] + s.subrange(i, s.len() as int));
    } else {
        assert(s[0] < x);
        let t = s.drop_first();
        lemma_hum_insert_at(t, x, i - 1);
        assert(hum_insert(s, x) == seq![s[0]] + hum_insert(t, x));
        assert(t.subrange(0, i - 1) =~= s.subrange(1, i));
        assert(t.subrange(i - 1, t.len() as int) =~= s.subrange(i, s.len() as int));
        assert(hum_insert(s, x) =~= s.subrange(0, i) + seq![x] + s.subrange(i, s.len() as int));
    }
}

proof fn lemma_hum_insert_found(s: Seq<u32>, x: u32, i: int)
    requires
        sorted_strict(s),
        0 <= i < s.len(),
        s[i] == x,
    ensures
        hum_insert(s, x) == s,
    decreases s.len(),
{
    if i == 0 {
    } else {
        assert(s[0] < s[i]);
        let t = s.drop_first();
        lemma_hum_insert_found(t, x, i - 1);
        assert(hum_insert(s, x) =~= s);
    }
}

/// Insert a line into the sorted human-turn sequence, keeping it sorted
/// and deduplicated.
pub fn insert_human_line(v: &mut Vec<u32>, x: u32)
    requires
        sorted_strict(old(v)@),
    ensures
        final(v)@ == hum_insert(old(v)@, x),
        sorted_strict(final(v)@),
{
    match find_in_sorted(v, x) {
        Ok(i) => {
            proof {
                lemma_hum_insert_found(v@, x, i as int);
            }
        },
        Err(i) => {
            proof {
                lemma_hum_insert_at(v@, x, i as int);
            }
            v.insert(i, x);
            proof {
                assert(v@ =~= old(v)@.subrange(0, i as int) + seq![x] + old(v)@.subrange(
                    i as int,
                    old(v)@.len() as int,
                ));
                assert forall|a: int, b: int| 0 <= a < b < v@.len() implies v@[a] < v@[b] by {
                    if a < i && b > i {
                        assert(v@[a] == old(v)@[a]);
                        assert(v@[b] == old(v)@[b - 1]);
                    }
                }
            }
        },
    }
}

} // verus!
