//! The executable pass over a byte range of the log: split it into lines,
//! scan each line, and apply each scanned record to the index and to the
//! pass-scoped classifier batch. One full build and every incremental
//! update run exactly this pass, differing only in the starting state.

use vstd::prelude::*;

use crate::model::{lemma_offsets_snoc, lemma_scan_fold_push, lemma_scan_items_push,
    lemma_split_count, lemma_split_step, line_span, offsets_of, opt_str_view, scan_fold,
    scan_item, scan_items, scan_record, scans_of, split_lines, st_of, strip_cr, sum_span,
    BatchView, ScanState};
use crate::record::{ContentItem, ItemView, RecordView, ScannedRecord};
use crate::record::is_human_turn_record;
use crate::scan::scan_line;
use crate::strmap::{assoc_get, assoc_has_key, assoc_key_set, assoc_put, StrAssoc};
use crate::strutil::{make_relative_path, str_eq};
use crate::types::{insert_human_line, EditMetadata, FileEditType, SessionIndex};

verus! {

/// The classifier's batch: per-path state scoped to one pass, merged into
/// the index's file-edit list when the pass ends.
pub struct EditBatch {
    /// Per-path operation observed in this pass.
    pub ops: StrAssoc<FileEditType>,
    /// Paths observed with prior content (a non-empty `old_string`).
    pub prior: StrAssoc<bool>,
    /// Per-path timestamp of the last touch that carried one.
    pub stamps: StrAssoc<String>,
}

impl View for EditBatch {
    type V = BatchView;

    open spec fn view(&self) -> BatchView {
        BatchView { ops: self.ops@, prior: assoc_key_set(self.prior@), stamps: self.stamps@ }
    }
}

impl EditBatch {
    pub open spec fn wf(&self) -> bool {
        self.ops.wf() && self.prior.wf() && self.stamps.wf()
    }

    pub fn new() -> (r: Self)
        ensures
            r.wf(),
            r@.ops == Seq::<(Seq<char>, FileEditType)>::empty(),
            r@.prior == Set::<Seq<char>>::empty(),
            r@.stamps == Seq::<(Seq<char>, Seq<char>)>::empty(),
    {
        let r = EditBatch { ops: StrAssoc::new(), prior: StrAssoc::new(), stamps: StrAssoc::new() };
        proof {
            assert(r@.prior =~= Set::<Seq<char>>::empty());
        }
        r
    }
}

/// Clone an optional identifier.
fn clone_opt_string(o: &Option<String>) -> (r: Option<String>)
    ensures
        opt_str_view(r) == opt_str_view(*o),
{
    match o {
        Some(s) => Some(s.clone()),
        None => None,
    }
}

/// Copy a line list.
fn clone_lines(v: &Vec<u32>) -> (r: Vec<u32>)
    ensures
        r@ == v@,
{
    let mut r: Vec<u32> = Vec::new();
    let n = v.len();
    let mut i: usize = 0;
    while i < n
        invariant
            i <= n,
            n == v@.len(),
            r@ == v@.take(i as int),
        decreases n - i,
    {
        r.push(v[i]);
        proof {
            assert(r@ =~= v@.take(i + 1 as int));
        }
        i += 1;
    }
    proof {
        assert(v@.take(n as int) =~= v@);
    }
    r
}

/// Apply one content item of an assistant record: the classifier step.
fn process_item(index: &mut SessionIndex, batch: &mut EditBatch, item: &ContentItem,
    seq_no: u32, uuid: &Option<String>, ts: &Option<String>, project: &str)
    requires
        old(index).wf(),
        old(batch).wf(),
    ensures
        final(index).wf(),
        final(batch).wf(),
        st_of(final(index)@, final(batch)@) == scan_item(
            st_of(old(index)@, old(batch)@),
            item@,
            seq_no,
            opt_str_view(*uuid),
            opt_str_view(*ts),
            project@,
        ),
        final(index)@.line_offsets == old(index)@.line_offsets,
        final(index)@.file_edits == old(index)@.file_edits,
        final(index)@.file_size == old(index)@.file_size,
        final(index)@.last_modified == old(index)@.last_modified,
{
    match &item.item_type {
        Some(t) => {
            if !str_eq(t.as_str(), "tool_use") {
                return;
            }
        },
        None => {
            return;
        },
    }
    let name = match &item.tool_name {
        Some(n) => n,
        None => {
            return;
        },
    };
    let fp = match &item.file_path {
        Some(f) => f,
        None => {
            return;
        },
    };
    let is_edit = str_eq(name.as_str(), "Edit");
    let is_write = str_eq(name.as_str(), "Write");
    if !is_edit && !is_write {
        return;
    }
    let rel = make_relative_path(fp.as_str(), project);
    let ghost pre = st_of(index@, batch@);
    let ghost rp = rel@;

    // The bookkeeping every recognized touch performs.
    match ts {
        Some(t) => {
            batch.stamps.put(rel.clone(), t.clone());
        },
        None => {},
    }
    index.edit_metadata.put(seq_no, EditMetadata { uuid: clone_opt_string(uuid) });
    let mut cur: Vec<u32> = match index.file_to_edit_lines.get(rel.as_str()) {
        Some(v) => clone_lines(v),
        None => Vec::new(),
    };
    proof {
        match assoc_get(pre.file_to_edit_lines, rp) {
            Some(v) => assert(cur@ == v),
            None => assert(cur@ =~= Seq::<u32>::empty()),
        }
    }
    cur.push(seq_no);
    index.file_to_edit_lines.put(rel.clone(), cur);

    if is_edit {
        match &item.old_string {
            Some(os) => {
                if !os.as_str().is_empty() {
                    proof {
                        crate::strmap::lemma_assoc_put_distinct(batch.prior@, rp, true);
                    }
                    batch.prior.put(rel.clone(), true);
                }
            },
            None => {},
        }
        batch.ops.put(rel, FileEditType::Modified);
    } else {
        if !batch.ops.contains_key(rel.as_str()) {
            batch.ops.put(rel, FileEditType::Added);
        }
    }
    proof {
        let post = st_of(index@, batch@);
        let target = scan_item(
            pre,
            item@,
            seq_no,
            opt_str_view(*uuid),
            opt_str_view(*ts),
            project@,
        );
        assert(post.prior =~= target.prior);
        assert(post =~= target);
    }
}

/// Apply one scanned line to the index and the batch.
fn apply_record(index: &mut SessionIndex, batch: &mut EditBatch, rec: &Option<ScannedRecord>,
    seq_no: u32, project: &str)
    requires
        old(index).wf(),
        old(batch).wf(),
    ensures
        final(index).wf(),
        final(batch).wf(),
        st_of(final(index)@, final(batch)@) == scan_record(
            st_of(old(index)@, old(batch)@),
            match rec {
                Some(r) => Some(r@),
                None => None,
            },
            seq_no,
            project@,
        ),
        final(index)@.line_offsets == old(index)@.line_offsets,
        final(index)@.file_edits == old(index)@.file_edits,
        final(index)@.file_size == old(index)@.file_size,
        final(index)@.last_modified == old(index)@.last_modified,
{
    let r = match rec {
        Some(r) => r,
        None => {
            return;
        },
    };
    match &r.uuid {
        Some(u) => {
            index.uuid_to_line.put(u.clone(), seq_no);
            match &r.parent_uuid {
                Some(p) => {
                    index.parent_map.put(u.clone(), p.clone());
                },
                None => {},
            }
        },
        None => {},
    }
    let ghost st1 = st_of(index@, batch@);
    if is_human_turn_record(r) {
        insert_human_line(&mut index.human_message_lines, seq_no);
    }
    let ghost st2 = st_of(index@, batch@);
    let is_assistant = match &r.entry_type {
        Some(t) => str_eq(t.as_str(), "assistant"),
        None => false,
    };
    if is_assistant {
        match &r.content_items {
            Some(items) => {
                let n = items.len();
                let mut i: usize = 0;
                proof {
                    assert(items.deep_view().take(0) =~= Seq::<ItemView>::empty());
                    assert(scan_items(
                        st2,
                        Seq::<ItemView>::empty(),
                        seq_no,
                        opt_str_view(r.uuid),
                        opt_str_view(r.timestamp),
                        project@,
                    ) == st2);
                }
                while i < n
                    invariant
                        i <= n,
                        n == items@.len(),
                        index.wf(),
                        batch.wf(),
                        st_of(index@, batch@) == scan_items(
                            st2,
                            items.deep_view().take(i as int),
                            seq_no,
                            opt_str_view(r.uuid),
                            opt_str_view(r.timestamp),
                            project@,
                        ),
                        index@.line_offsets == old(index)@.line_offsets,
                        index@.file_edits == old(index)@.file_edits,
                        index@.file_size == old(index)@.file_size,
                        index@.last_modified == old(index)@.last_modified,
                    decreases n - i,
                {
                    process_item(index, batch, &items[i], seq_no, &r.uuid, &r.timestamp,
                        project);
                    proof {
                        assert(items.deep_view()[i as int] == items@[i as int]@);
                        lemma_scan_items_push(
                            st2,
                            items.deep_view().take(i as int),
                            items.deep_view()[i as int],
                            seq_no,
                            opt_str_view(r.uuid),
                            opt_str_view(r.timestamp),
                            project@,
                        );
                        assert(items.deep_view().take(i as int).push(items.deep_view()[i as int])
                            =~= items.deep_view().take(i + 1 as int));
                    }
                    i += 1;
                }
                proof {
                    assert(items.deep_view().take(n as int) =~= items.deep_view());
                }
            },
            None => {},
        }
    }
    proof {
        let rv = r@;
        let st0 = st_of(old(index)@, old(batch)@);
        assert(st1 =~= (match rv.uuid {
            Some(u) => ScanState {
                uuid_to_line: assoc_put(st0.uuid_to_line, u, seq_no),
                parent_map: match rv.parent_uuid {
                    Some(p) => assoc_put(st0.parent_map, u, p),
                    None => st0.parent_map,
                },
                ..st0
            },
            None => st0,
        }));
        if is_assistant {
            assert(rv.entry_type == Some("assistant"@));
        } else {
            assert(rv.entry_type != Some("assistant"@));
        }
        assert(st_of(index@, batch@) =~= scan_record(st0, Some(rv), seq_no, project@));
    }
}

/// One pass over a byte range: record each line's offset and span, scan it,
/// and apply it.
pub fn apply_lines(index: &mut SessionIndex, batch: &mut EditBatch, bytes: &[u8], project: &str)
    requires
        old(index).wf(),
        old(batch).wf(),
        old(index)@.line_offsets.len() + bytes@.len() < u32::MAX,
        old(index)@.file_size + bytes@.len() + 2 <= u64::MAX,
    ensures
        final(index).wf(),
        final(batch).wf(),
        st_of(final(index)@, final(batch)@) == scan_fold(
            st_of(old(index)@, old(batch)@),
            scans_of(split_lines(bytes@)),
            old(index)@.line_offsets.len() as int,
            project@,
        ),
        final(index)@.line_offsets == old(index)@.line_offsets + offsets_of(
            split_lines(bytes@),
            old(index)@.file_size as int,
        ),
        final(index)@.file_edits == old(index)@.file_edits,
        final(index)@.file_size == old(index)@.file_size,
        final(index)@.last_modified == old(index)@.last_modified,
{
    let len = bytes.len();
    let mut pos: usize = 0;
    let mut off: u64 = index.file_size;
    let ghost start_seq = index@.line_offsets.len() as int;
    let ghost start_off = index@.file_size as int;
    let ghost st0 = st_of(old(index)@, old(batch)@);
    let ghost mut done: Seq<Seq<u8>> = Seq::empty();
    proof {
        lemma_split_count(bytes@);
        assert(bytes@.skip(0) =~= bytes@);
        assert(done + split_lines(bytes@.skip(0)) =~= split_lines(bytes@));
        assert(scans_of(done) =~= Seq::<Option<RecordView>>::empty());
        assert(index@.line_offsets =~= old(index)@.line_offsets + offsets_of(done, start_off));
    }
    while pos < len
        invariant
            pos <= len,
            len == bytes@.len(),
            index.wf(),
            batch.wf(),
            start_seq == old(index)@.line_offsets.len() as int,
            start_off == old(index)@.file_size as int,
            start_seq + bytes@.len() < u32::MAX,
            start_off + bytes@.len() + 2 <= u64::MAX,
            st0 == st_of(old(index)@, old(batch)@),
            done + split_lines(bytes@.skip(pos as int)) == split_lines(bytes@),
            done.len() <= pos,
            off as int == start_off + sum_span(done),
            sum_span(done) <= pos || (pos == len && sum_span(done) <= len + 1),
            st_of(index@, batch@) == scan_fold(st0, scans_of(done), start_seq, project@),
            index@.line_offsets == old(index)@.line_offsets + offsets_of(done, start_off),
            index@.line_offsets.len() == start_seq + done.len(),
            index@.file_edits == old(index)@.file_edits,
            index@.file_size == old(index)@.file_size,
            index@.last_modified == old(index)@.last_modified,
        decreases len - pos,
    {
        // Find the end of the current line.
        let mut j: usize = pos;
        while j < len && bytes[j] != 10
            invariant
                pos <= j <= len,
                len == bytes@.len(),
                forall|x: int| pos <= x < j ==> bytes@[x] != 10,
            decreases len - j,
        {
            j += 1;
        }
        // The line's content, with a trailing carriage return removed.
        let mut end = j;
        if end > pos && bytes[end - 1] == 13 {
            end -= 1;
        }
        let content = vstd::slice::slice_subrange(bytes, pos, end);
        proof {
            assert(content@ =~= strip_cr(bytes@.subrange(pos as int, j as int)));
        }
        let llen = content.len() + 1;
        let seq_no = index.line_offsets.len() as u32;

        index.line_offsets.push((off, llen));
        let rec = scan_line(content);
        let ghost rv: Option<RecordView> = match &rec {
            Some(r) => Some(r@),
            None => None,
        };
        apply_record(index, batch, &rec, seq_no, project);
        proof {
            assert(rv == crate::scan::spec_scan(crate::jsonio::json_of(content@)));
            lemma_scan_fold_push(st0, scans_of(done), rv, start_seq, project@);
            assert(scans_of(done.push(content@)) =~= scans_of(done).push(rv));
            lemma_offsets_snoc(done, content@, start_off);
            lemma_split_step(bytes@, pos as int, j as int);
            assert(index@.line_offsets =~= old(index)@.line_offsets + offsets_of(
                done.push(content@),
                start_off,
            ));
            done = done.push(content@);
        }
        off = off + llen as u64;
        if j < len {
            pos = j + 1;
        } else {
            pos = j;
            proof {
                assert(split_lines(bytes@.skip(pos as int)) =~= Seq::<Seq<u8>>::empty());
            }
        }
        proof {
            assert(done + split_lines(bytes@.skip(pos as int)) =~= split_lines(bytes@));
        }
    }
    proof {
        assert(split_lines(bytes@.skip(len as int)) =~= Seq::<Seq<u8>>::empty());
        assert(done =~= split_lines(bytes@));
    }
}

} // verus!
