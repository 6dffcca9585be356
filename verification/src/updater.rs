//! Incremental updates: decide between no-op, append-only extension and
//! full rebuild from the log's current size and modification stamp, extend
//! the index over only the new bytes, and merge the new pass's batch into
//! the existing file-edit list.

use vstd::prelude::*;

use crate::builder::{build_session_index, insert_edit_sorted};
use crate::model::{build_rel, edit_insert, edit_path_index, edits_has_path, finalize_edit,
    merge_one, spec_merge, split_lines, st_of, ScanState};
use crate::pass::{apply_lines, EditBatch};
use crate::strmap::{assoc_get, assoc_has_key};
use crate::strutil::str_eq;
use crate::types::{edits_sorted, lex_lt, FileEdit, FileEditType, SessionIndex};

verus! {

/// Outcome of an incremental update.
#[derive(Clone, Copy, Debug, PartialEq, Eq, Structural)]
pub enum UpdateResult {
    /// The index was extended over the appended bytes (fast path).
    Updated,
    /// The log shrank, so the index must be rebuilt from scratch.
    Rebuilt,
    /// The log is unchanged; the index needs no work.
    Unchanged,
}

/// The update outcome the stored baseline dictates: unchanged when size and
/// stamp both match, a rebuild when the log shrank, and an incremental
/// extension otherwise (equal size with a new stamp recomputes nothing but
/// advances the baseline).
pub open spec fn spec_decision(base_size: u64, base_mtime: u64, size: u64, mtime: u64)
    -> UpdateResult {
    if size == base_size && mtime == base_mtime {
        UpdateResult::Unchanged
    } else if size < base_size {
        UpdateResult::Rebuilt
    } else {
        UpdateResult::Updated
    }
}

/// Compare the log's current size and modification stamp against the
/// index's stored baseline and say what an update must do.
pub fn update_decision(index: &SessionIndex, current_size: u64, current_mtime: u64) -> (r:
    UpdateResult)
    ensures
        r == spec_decision(index@.file_size, index@.last_modified, current_size, current_mtime),
{
    if current_size == index.file_size && current_mtime == index.last_modified {
        UpdateResult::Unchanged
    } else if current_size < index.file_size {
        UpdateResult::Rebuilt
    } else {
        UpdateResult::Updated
    }
}

/// Merge the batch of a finished incremental pass into the existing
/// file-edit list: a path already listed keeps its classification unless
/// the pass saw prior content for it, and always takes the pass's latest
/// timestamp when there is one; a new path is classified by the full
/// build's finalize rule, scoped to this batch, and inserted in path order.
pub fn merge_new_file_edits(edits: &mut Vec<FileEdit>, batch: &EditBatch)
    requires
        edits_sorted(old(edits).deep_view()),
        batch.wf(),
    ensures
        final(edits).deep_view() == spec_merge(
            old(edits).deep_view(),
            batch@.ops,
            batch@.prior,
            batch@.stamps,
        ),
        edits_sorted(final(edits).deep_view()),
{
    let ghost ops = batch@.ops;
    let ghost prior = batch@.prior;
    let ghost stamps = batch@.stamps;
    let n = batch.ops.len();
    let mut k: usize = 0;
    proof {
        assert(ops.skip(0) =~= ops);
    }
    while k < n
        invariant
            k <= n,
            n == ops.len(),
            batch.wf(),
            ops == batch@.ops,
            prior == batch@.prior,
            stamps == batch@.stamps,
            spec_merge(edits.deep_view(), ops.skip(k as int), prior, stamps) == spec_merge(
                old(edits).deep_view(),
                ops,
                prior,
                stamps,
            ),
            edits_sorted(edits.deep_view()),
        decreases n - k,
    {
        let entry = batch.ops.entry_at(k);
        let ghost p = ops[k as int].0;
        let ghost pre = edits.deep_view();

        // Look for an existing entry for this path.
        let len = edits.len();
        let mut idx: usize = 0;
        let mut found = false;
        while idx < len
            invariant_except_break
                idx <= len,
                len == edits@.len(),
                !found,
                entry.0@ == p,
                forall|j: int| 0 <= j < idx ==> edits.deep_view()[j].path != p,
            ensures
                len == edits@.len(),
                entry.0@ == p,
                found ==> idx < edits@.len() && edits.deep_view()[idx as int].path == p,
                !found ==> forall|j: int| 0 <= j < len ==> edits.deep_view()[j].path != p,
            decreases len - idx,
        {
            if str_eq(edits[idx].path.as_str(), entry.0.as_str()) {
                proof {
                    assert(edits.deep_view()[idx as int].path == edits@[idx as int]@.path);
                }
                found = true;
                break;
            }
            proof {
                assert(edits.deep_view()[idx as int].path == edits@[idx as int]@.path);
            }
            idx += 1;
        }

        if found {
            let new_ty = if batch.prior.contains_key(entry.0.as_str()) {
                FileEditType::Modified
            } else {
                edits[idx].edit_type
            };
            let new_ts = match batch.stamps.get(entry.0.as_str()) {
                Some(t) => Some(t.clone()),
                None => match &edits[idx].last_edited_at {
                    Some(x) => Some(x.clone()),
                    None => None,
                },
            };
            let new_path = edits[idx].path.clone();
            edits[idx] = FileEdit { path: new_path, edit_type: new_ty, last_edited_at: new_ts };
            proof {
                assert(edits_has_path(pre, p));
                let ci = edit_path_index(pre, p);
                if ci != idx {
                    assert(pre[ci].path == p);
                    assert(lex_lt(pre[ci].path, pre[idx as int].path) || lex_lt(
                        pre[idx as int].path,
                        pre[ci].path,
                    ));
                    assert(false);
                }
                assert(edits.deep_view() =~= merge_one(pre, p, ops[k as int].1, prior, stamps));
                assert forall|a: int, b: int|
                    0 <= a < b < edits.deep_view().len() implies lex_lt(
                    edits.deep_view()[a].path,
                    edits.deep_view()[b].path,
                ) by {
                    assert(edits.deep_view()[a].path == pre[a].path);
                    assert(edits.deep_view()[b].path == pre[b].path);
                }
            }
        } else {
            let has_prior = batch.prior.contains_key(entry.0.as_str());
            let ty = if matches!(entry.1, FileEditType::Modified) && !has_prior {
                FileEditType::Added
            } else {
                entry.1
            };
            let ts = match batch.stamps.get(entry.0.as_str()) {
                Some(t) => Some(t.clone()),
                None => None,
            };
            let e = FileEdit { path: entry.0.clone(), edit_type: ty, last_edited_at: ts };
            proof {
                assert(e@ =~= finalize_edit(p, ops[k as int].1, prior, stamps));
                assert(!edits_has_path(pre, p));
            }
            insert_edit_sorted(edits, e);
            proof {
                assert(edits.deep_view() == edit_insert(
                    pre,
                    finalize_edit(p, ops[k as int].1, prior, stamps),
                ));
                assert(edits.deep_view() == merge_one(pre, p, ops[k as int].1, prior, stamps));
            }
        }
        proof {
            assert(ops.skip(k as int)[0] == ops[k as int]);
            assert(ops.skip(k as int).drop_first() =~= ops.skip(k + 1 as int));
            assert(spec_merge(pre, ops.skip(k as int), prior, stamps) == spec_merge(
                merge_one(pre, p, ops[k as int].1, prior, stamps),
                ops.skip(k + 1 as int),
                prior,
                stamps,
            ));
        }
        k += 1;
    }
    proof {
        assert(ops.skip(n as int) =~= Seq::<(Seq<char>, FileEditType)>::empty());
    }
}

/// Extend the index over the log's newly appended bytes and advance its
/// baseline to the given size and stamp. The caller has already decided
/// that the log grew (or kept its size with a new stamp) and hands exactly
/// the bytes from the stored baseline size to the current end.
pub fn apply_incremental_update(index: &mut SessionIndex, new_bytes: &[u8], current_size: u64,
    current_mtime: u64, project_path: &str)
    requires
        old(index).wf(),
        old(index)@.line_offsets.len() + new_bytes@.len() < u32::MAX,
        old(index)@.file_size + new_bytes@.len() + 2 <= u64::MAX,
    ensures
        final(index).wf(),
        update_rel_holds(old(index)@, final(index)@, new_bytes@, project_path@, current_size,
            current_mtime),
{
    let ghost m0 = index@;
    let mut batch = EditBatch::new();
    let ghost b0 = batch@;
    apply_lines(index, &mut batch, new_bytes, project_path);
    merge_new_file_edits(&mut index.file_edits, &batch);
    index.file_size = current_size;
    index.last_modified = current_mtime;
    proof {
        assert(st_of(m0, b0) =~= ScanState::from_index(m0));
        assert(crate::model::update_rel(
            m0,
            index@,
            crate::model::scans_of(split_lines(new_bytes@)),
            split_lines(new_bytes@),
            project_path@,
            current_size,
            current_mtime,
        ));
    }
}

/// `update_rel` over the new byte range's lines and their scans.
pub open spec fn update_rel_holds(m0: crate::types::IndexModel, m1: crate::types::IndexModel,
    new_bytes: Seq<u8>, project: Seq<char>, csize: u64, cmtime: u64) -> bool {
    crate::model::update_rel(
        m0,
        m1,
        crate::model::scans_of(split_lines(new_bytes)),
        split_lines(new_bytes),
        project,
        csize,
        cmtime,
    )
}

/// Discard the index and rebuild it from scratch: the safety valve for a
/// log that shrank or was rewritten, where append-only assumptions cannot
/// hold.
pub fn rebuild_index(index: &mut SessionIndex, bytes: &[u8], file_size: u64, last_modified: u64,
    project_path: &str)
    requires
        bytes@.len() < u32::MAX,
    ensures
        final(index).wf(),
        build_rel(
            final(index)@,
            crate::model::scans_of(split_lines(bytes@)),
            split_lines(bytes@),
            project_path@,
            file_size,
            last_modified,
        ),
{
    *index = build_session_index(bytes, file_size, last_modified, project_path);
}

} // verus!
