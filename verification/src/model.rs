//! Mathematical model of a pass over the log: splitting bytes into lines,
//! the per-record effect on the index, the classifier's batch state, and the
//! finalize/merge rules for file edits. The executable builder and updater
//! are specified exactly against these functions.

use vstd::prelude::*;

use crate::record::{ItemView, RecordView};
use crate::record::spec_is_human_turn;
use crate::strmap::{assoc_get, assoc_has_key, assoc_put};
use crate::strutil::{lex_le, rel_path};
use crate::types::{hum_insert, EditView, FileEditType, IndexModel};

verus! {

/// Position of the first line feed in the bytes, or past the end.
pub open spec fn first_nl(b: Seq<u8>) -> nat
    decreases b.len(),
{
    if b.len() == 0 {
        0
    } else if b[0] == 10 {
        0
    } else {
        1 + first_nl(b.drop_first())
    }
}

pub proof fn lemma_first_nl_le_len(b: Seq<u8>)
    ensures
        first_nl(b) <= b.len(),
        first_nl(b) < b.len() ==> b[first_nl(b) as int] == 10,
        forall|j: int| 0 <= j < first_nl(b) ==> b[j] != 10,
    decreases b.len(),
{
    if b.len() == 0 || b[0] == 10 {
    } else {
        lemma_first_nl_le_len(b.drop_first());
        assert forall|j: int| 0 <= j < first_nl(b) implies b[j] != 10 by {
            if j > 0 {
                assert(b.drop_first()[j - 1] != 10);
            }
        }
    }
}

/// A line's content: the segment with a trailing carriage return removed.
pub open spec fn strip_cr(l: Seq<u8>) -> Seq<u8> {
    if l.len() > 0 && l.last() == 13 {
        l.drop_last()
    } else {
        l
    }
}

/// The contents of the lines of the byte range, in order. A final segment
/// without a terminator still counts as a line; an empty range has none.
pub open spec fn split_lines(b: Seq<u8>) -> Seq<Seq<u8>>
    decreases b.len(),
{
    if b.len() == 0 {
        Seq::empty()
    } else {
        let i = first_nl(b);
        if i >= b.len() {
            seq![strip_cr(b)]
        } else {
            seq![strip_cr(b.subrange(0, i as int))] + split_lines(b.skip(i + 1 as int))
        }
    }
}

/// The records a run of lines scans to: the parse and the schema policy
/// are both functions of each line's bytes alone.
pub open spec fn scans_of(lines: Seq<Seq<u8>>) -> Seq<Option<RecordView>> {
    Seq::new(lines.len(), |i: int| crate::scan::spec_scan(crate::jsonio::json_of(lines[i])))
}

/// The byte span accounted to a line: its content plus one terminator.
pub open spec fn line_span(l: Seq<u8>) -> int {
    l.len() as int + 1
}

/// Offset table of a run of lines laid out from `start`.
pub open spec fn offsets_of(lines: Seq<Seq<u8>>, start: int) -> Seq<(u64, usize)>
    decreases lines.len(),
{
    if lines.len() == 0 {
        Seq::empty()
    } else {
        seq![(start as u64, line_span(lines[0]) as usize)] + offsets_of(
            lines.drop_first(),
            start + line_span(lines[0]),
        )
    }
}

/// Everything one pass accumulates: the index components it extends in
/// place, and the batch state of the edit classifier, which is scoped to
/// the pass and folded into the file-edit list at its end.
#[verifier::ext_equal]
pub ghost struct ScanState {
    pub uuid_to_line: Seq<(Seq<char>, u32)>,
    pub parent_map: Seq<(Seq<char>, Seq<char>)>,
    pub human_message_lines: Seq<u32>,
    pub edit_metadata: Seq<(u32, Option<Seq<char>>)>,
    pub file_to_edit_lines: Seq<(Seq<char>, Seq<u32>)>,
    /// Per-path operation observed in this pass.
    pub ops: Seq<(Seq<char>, FileEditType)>,
    /// Paths observed with prior content (a non-empty `old_string`).
    pub prior: Set<Seq<char>>,
    /// Per-path timestamp of the last touch that carried one.
    pub stamps: Seq<(Seq<char>, Seq<char>)>,
}

impl ScanState {
    /// The state a full build starts from.
    pub open spec fn init() -> Self {
        ScanState {
            uuid_to_line: Seq::empty(),
            parent_map: Seq::empty(),
            human_message_lines: Seq::empty(),
            edit_metadata: Seq::empty(),
            file_to_edit_lines: Seq::empty(),
            ops: Seq::empty(),
            prior: Set::empty(),
            stamps: Seq::empty(),
        }
    }

    /// The state an incremental pass starts from: the existing index with a
    /// fresh, pass-scoped classifier batch.
    pub open spec fn from_index(m: IndexModel) -> Self {
        ScanState {
            uuid_to_line: m.uuid_to_line,
            parent_map: m.parent_map,
            human_message_lines: m.human_message_lines,
            edit_metadata: m.edit_metadata,
            file_to_edit_lines: m.file_to_edit_lines,
            ops: Seq::empty(),
            prior: Set::empty(),
            stamps: Seq::empty(),
        }
    }
}

/// Append a touching line to a path's line list, creating the list on the
/// path's first touch.
pub open spec fn ftel_append(m: Seq<(Seq<char>, Seq<u32>)>, p: Seq<char>, x: u32) -> Seq<
    (Seq<char>, Seq<u32>),
> {
    let cur = match assoc_get(m, p) {
        Some(v) => v,
        None => Seq::empty(),
    };
    assoc_put(m, p, cur.push(x))
}

/// The bookkeeping every recognized touch performs, whatever the tool:
/// timestamp, chain-walk metadata, and the path's line list.
pub open spec fn touch_common(st: ScanState, rp: Seq<char>, seq_no: u32, uuid: Option<Seq<char>>,
    ts: Option<Seq<char>>) -> ScanState {
    ScanState {
        stamps: match ts {
            Some(t) => assoc_put(st.stamps, rp, t),
            None => st.stamps,
        },
        edit_metadata: assoc_put(st.edit_metadata, seq_no, uuid),
        file_to_edit_lines: ftel_append(st.file_to_edit_lines, rp, seq_no),
        ..st
    }
}

/// Effect of one content item on the pass state. Only `tool_use` items
/// naming the `Edit` or `Write` tool on some file path count.
pub open spec fn scan_item(st: ScanState, item: ItemView, seq_no: u32, uuid: Option<Seq<char>>,
    ts: Option<Seq<char>>, project: Seq<char>) -> ScanState {
    if item.item_type != Some("tool_use"@) {
        st
    } else {
        match item.tool_name {
            None => st,
            Some(name) => match item.file_path {
                None => st,
                Some(fp) => {
                    let rp = rel_path(fp, project);
                    if name == "Edit"@ {
                        let st1 = touch_common(st, rp, seq_no, uuid, ts);
                        ScanState {
                            ops: assoc_put(st1.ops, rp, FileEditType::Modified),
                            prior: match item.old_string {
                                Some(os) => if os.len() > 0 {
                                    st1.prior.insert(rp)
                                } else {
                                    st1.prior
                                },
                                None => st1.prior,
                            },
                            ..st1
                        }
                    } else if name == "Write"@ {
                        let st1 = touch_common(st, rp, seq_no, uuid, ts);
                        ScanState {
                            ops: if !assoc_has_key(st1.ops, rp) {
                                assoc_put(st1.ops, rp, FileEditType::Added)
                            } else {
                                st1.ops
                            },
                            ..st1
                        }
                    } else {
                        st
                    }
                },
            },
        }
    }
}

/// Effect of a record's content items, in order.
pub open spec fn scan_items(st: ScanState, items: Seq<ItemView>, seq_no: u32,
    uuid: Option<Seq<char>>, ts: Option<Seq<char>>, project: Seq<char>) -> ScanState
    decreases items.len(),
{
    if items.len() == 0 {
        st
    } else {
        scan_items(
            scan_item(st, items[0], seq_no, uuid, ts, project),
            items.drop_first(),
            seq_no,
            uuid,
            ts,
            project,
        )
    }
}

/// Effect of one scanned line on the pass state. An unparsable line
/// contributes nothing beyond its byte span.
pub open spec fn scan_record(st: ScanState, rec: Option<RecordView>, seq_no: u32,
    project: Seq<char>) -> ScanState {
    match rec {
        None => st,
        Some(r) => {
            let st1 = match r.uuid {
                Some(u) => ScanState {
                    uuid_to_line: assoc_put(st.uuid_to_line, u, seq_no),
                    parent_map: match r.parent_uuid {
                        Some(p) => assoc_put(st.parent_map, u, p),
                        None => st.parent_map,
                    },
                    ..st
                },
                None => st,
            };
            let st2 = if spec_is_human_turn(r) {
                ScanState {
                    human_message_lines: hum_insert(st1.human_message_lines, seq_no),
                    ..st1
                }
            } else {
                st1
            };
            if r.entry_type == Some("assistant"@) {
                match r.content_items {
                    Some(items) => scan_items(st2, items, seq_no, r.uuid, r.timestamp, project),
                    None => st2,
                }
            } else {
                st2
            }
        },
    }
}

/// Effect of a run of scanned lines, numbered from `start`.
pub open spec fn scan_fold(st: ScanState, recs: Seq<Option<RecordView>>, start: int,
    project: Seq<char>) -> ScanState
    decreases recs.len(),
{
    if recs.len() == 0 {
        st
    } else {
        scan_fold(
            scan_record(st, recs[0], start as u32, project),
            recs.drop_first(),
            start + 1,
            project,
        )
    }
}

/// Sorted insertion into the file-edit list.
pub open spec fn edit_insert(s: Seq<EditView>, e: EditView) -> Seq<EditView>
    decreases s.len(),
{
    if s.len() == 0 {
        seq![e]
    } else if lex_le(e.path, s[0].path) {
        seq![e] + s
    } else {
        seq![s[0]] + edit_insert(s.drop_first(), e)
    }
}

/// The final classification of one path after a pass: an operation left as
/// Modified without observed prior content is downgraded to Added.
pub open spec fn finalize_edit(p: Seq<char>, ty: FileEditType, prior: Set<Seq<char>>,
    stamps: Seq<(Seq<char>, Seq<char>)>) -> EditView {
    EditView {
        path: p,
        edit_type: if ty == FileEditType::Modified && !prior.contains(p) {
            FileEditType::Added
        } else {
            ty
        },
        last_edited_at: assoc_get(stamps, p),
    }
}

/// Turn a full build's batch into the sorted file-edit list, working
/// through the observed operations in order.
pub open spec fn finalize_acc(acc: Seq<EditView>, ops: Seq<(Seq<char>, FileEditType)>,
    prior: Set<Seq<char>>, stamps: Seq<(Seq<char>, Seq<char>)>) -> Seq<EditView>
    decreases ops.len(),
{
    if ops.len() == 0 {
        acc
    } else {
        finalize_acc(
            edit_insert(acc, finalize_edit(ops[0].0, ops[0].1, prior, stamps)),
            ops.drop_first(),
            prior,
            stamps,
        )
    }
}

pub open spec fn spec_finalize(ops: Seq<(Seq<char>, FileEditType)>, prior: Set<Seq<char>>,
    stamps: Seq<(Seq<char>, Seq<char>)>) -> Seq<EditView> {
    finalize_acc(Seq::empty(), ops, prior, stamps)
}

pub open spec fn edits_has_path(s: Seq<EditView>, p: Seq<char>) -> bool {
    exists|i: int| 0 <= i < s.len() && s[i].path == p
}

pub open spec fn edit_path_index(s: Seq<EditView>, p: Seq<char>) -> int {
    choose|i: int| 0 <= i < s.len() && s[i].path == p
}

/// Merge one observed operation into the existing file-edit list. A path
/// already listed keeps its classification unless this pass saw prior
/// content for it; a new path follows the full build's finalize rule,
/// scoped to this pass's batch.
pub open spec fn merge_one(edits: Seq<EditView>, p: Seq<char>, ty: FileEditType,
    prior: Set<Seq<char>>, stamps: Seq<(Seq<char>, Seq<char>)>) -> Seq<EditView> {
    if edits_has_path(edits, p) {
        let i = edit_path_index(edits, p);
        let e0 = edits[i];
        edits.update(
            i,
            EditView {
                path: e0.path,
                edit_type: if prior.contains(p) {
                    FileEditType::Modified
                } else {
                    e0.edit_type
                },
                last_edited_at: match assoc_get(stamps, p) {
                    Some(t) => Some(t),
                    None => e0.last_edited_at,
                },
            },
        )
    } else {
        edit_insert(edits, finalize_edit(p, ty, prior, stamps))
    }
}

/// Merge a whole batch, operation by operation.
pub open spec fn spec_merge(edits: Seq<EditView>, ops: Seq<(Seq<char>, FileEditType)>,
    prior: Set<Seq<char>>, stamps: Seq<(Seq<char>, Seq<char>)>) -> Seq<EditView>
    decreases ops.len(),
{
    if ops.len() == 0 {
        edits
    } else {
        spec_merge(merge_one(edits, ops[0].0, ops[0].1, prior, stamps), ops.drop_first(), prior,
            stamps)
    }
}

/// Mathematical image of a pass's classifier batch.
#[verifier::ext_equal]
pub ghost struct BatchView {
    pub ops: Seq<(Seq<char>, FileEditType)>,
    pub prior: Set<Seq<char>>,
    pub stamps: Seq<(Seq<char>, Seq<char>)>,
}

/// The pass state made of an index's components and a batch.
pub open spec fn st_of(m: IndexModel, b: BatchView) -> ScanState {
    ScanState {
        uuid_to_line: m.uuid_to_line,
        parent_map: m.parent_map,
        human_message_lines: m.human_message_lines,
        edit_metadata: m.edit_metadata,
        file_to_edit_lines: m.file_to_edit_lines,
        ops: b.ops,
        prior: b.prior,
        stamps: b.stamps,
    }
}

/// View of an optional owned string.
pub open spec fn opt_str_view(o: Option<String>) -> Option<Seq<char>> {
    match o {
        Some(s) => Some(s@),
        None => None,
    }
}

pub proof fn lemma_scan_items_push(st: ScanState, items: Seq<ItemView>, it: ItemView, seq_no: u32,
    uuid: Option<Seq<char>>, ts: Option<Seq<char>>, project: Seq<char>)
    ensures
        scan_items(st, items.push(it), seq_no, uuid, ts, project) == scan_item(
            scan_items(st, items, seq_no, uuid, ts, project),
            it,
            seq_no,
            uuid,
            ts,
            project,
        ),
    decreases items.len(),
{
    if items.len() == 0 {
        assert(items.push(it)[0] == it);
        assert(items.push(it).drop_first() =~= Seq::<ItemView>::empty());
        let st1 = scan_item(st, it, seq_no, uuid, ts, project);
        assert(scan_items(st1, Seq::<ItemView>::empty(), seq_no, uuid, ts, project) == st1);
    } else {
        assert(items.push(it)[0] == items[0]);
        assert(items.push(it).drop_first() =~= items.drop_first().push(it));
        lemma_scan_items_push(
            scan_item(st, items[0], seq_no, uuid, ts, project),
            items.drop_first(),
            it,
            seq_no,
            uuid,
            ts,
            project,
        );
    }
}

pub proof fn lemma_scan_fold_push(st: ScanState, recs: Seq<Option<RecordView>>,
    r: Option<RecordView>, start: int, project: Seq<char>)
    ensures
        scan_fold(st, recs.push(r), start, project) == scan_record(
            scan_fold(st, recs, start, project),
            r,
            (start + recs.len()) as u32,
            project,
        ),
    decreases recs.len(),
{
    if recs.len() == 0 {
        assert(recs.push(r)[0] == r);
        assert(recs.push(r).drop_first() =~= Seq::<Option<RecordView>>::empty());
        let st1 = scan_record(st, r, start as u32, project);
        assert(scan_fold(st1, Seq::<Option<RecordView>>::empty(), start + 1, project) == st1);
    } else {
        assert(recs.push(r)[0] == recs[0]);
        assert(recs.push(r).drop_first() =~= recs.drop_first().push(r));
        lemma_scan_fold_push(
            scan_record(st, recs[0], start as u32, project),
            recs.drop_first(),
            r,
            start + 1,
            project,
        );
    }
}

/// Total byte span of a run of lines.
pub open spec fn sum_span(lines: Seq<Seq<u8>>) -> int
    decreases lines.len(),
{
    if lines.len() == 0 {
        0
    } else {
        line_span(lines[0]) + sum_span(lines.drop_first())
    }
}

pub proof fn lemma_offsets_snoc(lines: Seq<Seq<u8>>, l: Seq<u8>, start: int)
    ensures
        sum_span(lines.push(l)) == sum_span(lines) + line_span(l),
        offsets_of(lines.push(l), start) == offsets_of(lines, start) + seq![
            (((start + sum_span(lines)) as u64), (line_span(l) as usize)),
        ],
    decreases lines.len(),
{
    let lp = lines.push(l);
    if lines.len() == 0 {
        assert(lp[0] == l);
        assert(lp.drop_first() =~= Seq::<Seq<u8>>::empty());
        assert(offsets_of(lp, start) == seq![((start as u64), (line_span(l) as usize))]
            + offsets_of(lp.drop_first(), start + line_span(l)));
        assert(sum_span(Seq::<Seq<u8>>::empty()) == 0);
        assert(offsets_of(Seq::<Seq<u8>>::empty(), start + line_span(l)) == Seq::<
            (u64, usize),
        >::empty());
        assert(offsets_of(lp, start) =~= offsets_of(lines, start) + seq![
            (((start + sum_span(lines)) as u64), (line_span(l) as usize)),
        ]);
    } else {
        assert(lp[0] == lines[0]);
        assert(lp.drop_first() =~= lines.drop_first().push(l));
        assert(sum_span(lp) == line_span(lines[0]) + sum_span(lines.drop_first().push(l)));
        assert(offsets_of(lp, start) == seq![((start as u64), (line_span(lines[0]) as usize))]
            + offsets_of(lp.drop_first(), start + line_span(lines[0])));
        lemma_offsets_snoc(lines.drop_first(), l, start + line_span(lines[0]));
        assert(sum_span(lp) == sum_span(lines) + line_span(l));
        assert(start + line_span(lines[0]) + sum_span(lines.drop_first()) == start + sum_span(
            lines,
        ));
        assert(offsets_of(lp, start) =~= offsets_of(lines, start) + seq![
            (((start + sum_span(lines)) as u64), (line_span(l) as usize)),
        ]);
    }
}

/// The exact position of the first line feed.
pub proof fn lemma_first_nl_val(s: Seq<u8>, m: int)
    requires
        0 <= m <= s.len(),
        forall|x: int| 0 <= x < m ==> s[x] != 10,
        m < s.len() ==> s[m] == 10,
    ensures
        first_nl(s) == m,
    decreases m,
{
    if m == 0 {
    } else {
        assert(s[0] != 10);
        assert(s.len() > 0);
        lemma_first_nl_val(s.drop_first(), m - 1);
    }
}

/// Unfolding one line off the front of a byte range: with the bytes up to
/// `j` free of line feeds and `j` either at a line feed or at the end, the
/// range's lines are the segment up to `j` followed by the lines after it.
pub proof fn lemma_split_step(b: Seq<u8>, pos: int, j: int)
    requires
        0 <= pos <= j <= b.len(),
        pos < b.len(),
        forall|x: int| pos <= x < j ==> b[x] != 10,
        j < b.len() ==> b[j] == 10,
    ensures
        j < b.len() ==> split_lines(b.skip(pos)) == seq![strip_cr(b.subrange(pos, j))]
            + split_lines(b.skip(j + 1)),
        j == b.len() ==> split_lines(b.skip(pos)) == seq![strip_cr(b.subrange(pos, j))],
{
    let s = b.skip(pos);
    assert(s.len() == b.len() - pos);
    assert forall|x: int| 0 <= x < j - pos implies s[x] != 10 by {
        assert(s[x] == b[x + pos]);
    }
    if j < b.len() {
        assert(s[j - pos] == b[j]);
    }
    lemma_first_nl_val(s, j - pos);
    if j < b.len() {
        assert(s.subrange(0, j - pos) =~= b.subrange(pos, j));
        assert(s.skip(j - pos + 1) =~= b.skip(j + 1));
        assert(split_lines(s) == seq![strip_cr(s.subrange(0, j - pos))] + split_lines(
            s.skip(j - pos + 1),
        ));
    } else {
        assert(first_nl(s) >= s.len());
        assert(s =~= b.subrange(pos, j));
        assert(split_lines(s) == seq![strip_cr(s)]);
    }
}

/// A byte range has no more lines than bytes.
pub proof fn lemma_split_count(b: Seq<u8>)
    ensures
        split_lines(b).len() <= b.len(),
    decreases b.len(),
{
    if b.len() == 0 {
    } else {
        let i = first_nl(b);
        lemma_first_nl_le_len(b);
        if i < b.len() {
            lemma_split_count(b.skip(i + 1 as int));
        }
    }
}

/// The index a full build over the given scanned lines must produce.
pub open spec fn build_rel(m: IndexModel, recs: Seq<Option<RecordView>>, lines: Seq<Seq<u8>>,
    project: Seq<char>, fsize: u64, mtime: u64) -> bool {
    let st = scan_fold(ScanState::init(), recs, 0, project);
    &&& recs.len() == lines.len()
    &&& m.line_offsets == offsets_of(lines, 0)
    &&& m.uuid_to_line == st.uuid_to_line
    &&& m.parent_map == st.parent_map
    &&& m.human_message_lines == st.human_message_lines
    &&& m.edit_metadata == st.edit_metadata
    &&& m.file_to_edit_lines == st.file_to_edit_lines
    &&& m.file_edits == spec_finalize(st.ops, st.prior, st.stamps)
    &&& m.file_size == fsize
    &&& m.last_modified == mtime
}

/// The index an incremental pass over the given scanned lines must turn
/// `m0` into.
pub open spec fn update_rel(m0: IndexModel, m1: IndexModel, recs: Seq<Option<RecordView>>,
    lines: Seq<Seq<u8>>, project: Seq<char>, csize: u64, cmtime: u64) -> bool {
    let st = scan_fold(ScanState::from_index(m0), recs, m0.line_offsets.len() as int, project);
    &&& recs.len() == lines.len()
    &&& m1.line_offsets == m0.line_offsets + offsets_of(lines, m0.file_size as int)
    &&& m1.uuid_to_line == st.uuid_to_line
    &&& m1.parent_map == st.parent_map
    &&& m1.human_message_lines == st.human_message_lines
    &&& m1.edit_metadata == st.edit_metadata
    &&& m1.file_to_edit_lines == st.file_to_edit_lines
    &&& m1.file_edits == spec_merge(m0.file_edits, st.ops, st.prior, st.stamps)
    &&& m1.file_size == csize
    &&& m1.last_modified == cmtime
}

} // verus!
