//! Full build: one pass over the whole log, then the classifier's batch is
//! finalized into the sorted file-edit list.

use vstd::prelude::*;

use crate::model::{build_rel, edit_insert, finalize_acc, finalize_edit, offsets_of, scan_fold,
    scans_of, spec_finalize, split_lines, st_of, BatchView, ScanState};
use crate::pass::{apply_lines, EditBatch};
use crate::strmap::{assoc_distinct, assoc_get, assoc_has_key};
use crate::strutil::{lemma_lex_le_total, lemma_lex_le_transitive, lex_le, str_le};
use crate::types::{edits_sorted, lex_lt, EditView, FileEdit, FileEditType, SessionIndex};

verus! {

/// Where `edit_insert` puts the new entry: before the first element it
/// compares at or below.
pub proof fn lemma_edit_insert_at(s: Seq<EditView>, e: EditView, i: int)
    requires
        0 <= i <= s.len(),
        forall|j: int| 0 <= j < i ==> !lex_le(e.path, s[j].path),
        i < s.len() ==> lex_le(e.path, s[i as int].path),
    ensures
        edit_insert(s, e) == s.subrange(0, i) + seq![e] + s.subrange(i, s.len() as int),
    decreases s.len(),
{
    if s.len() == 0 {
        assert(edit_insert(s, e) =~= s.subrange(0, i) + seq![e] + s.subrange(i, s.len() as int));
    } else if i == 0 {
        if !lex_le(e.path, s[0].path) {
            lemma_lex_le_total(e.path, s[0].path);
        }
        assert(lex_le(e.path, s[0].path));
        assert(edit_insert(s, e) =~= s.subrange(0, i) + seq![e] + s.subrange(i, s.len() as int));
    } else {
        assert(!lex_le(e.path, s[0].path));
        let t = s.drop_first();
        lemma_edit_insert_at(t, e, i - 1);
        assert(t.subrange(0, i - 1) =~= s.subrange(1, i));
        assert(t.subrange(i - 1, t.len() as int) =~= s.subrange(i, s.len() as int));
        assert(edit_insert(s, e) =~= s.subrange(0, i) + seq![e] + s.subrange(i, s.len() as int));
    }
}

/// The path is among the first `k` observed operations.
spec fn path_from_ops(p: Seq<char>, ops: Seq<(Seq<char>, FileEditType)>, k: int) -> bool {
    exists|j: int| #![trigger ops[j]] 0 <= j < k && p == ops[j].0
}

/// Insert a file edit into the sorted list; the path must be new.
pub fn insert_edit_sorted(v: &mut Vec<FileEdit>, e: FileEdit)
    requires
        edits_sorted(old(v).deep_view()),
        forall|j: int| 0 <= j < old(v)@.len() ==> old(v).deep_view()[j].path != e@.path,
    ensures
        final(v).deep_view() == edit_insert(old(v).deep_view(), e@),
        edits_sorted(final(v).deep_view()),
{
    let n = v.len();
    let mut i: usize = 0;
    while i < n && !str_le(e.path.as_str(), v[i].path.as_str())
        invariant
            i <= n,
            n == v@.len(),
            forall|j: int| 0 <= j < i ==> !lex_le(e@.path, v.deep_view()[j].path),
        decreases n - i,
    {
        proof {
            assert(v.deep_view()[i as int].path == v@[i as int]@.path);
        }
        i += 1;
    }
    proof {
        assert(i < v@.len() ==> lex_le(e@.path, v.deep_view()[i as int].path));
        lemma_edit_insert_at(v.deep_view(), e@, i as int);
    }
    let ghost olds = v.deep_view();
    v.insert(i, e);
    proof {
        assert(v.deep_view() =~= olds.subrange(0, i as int) + seq![e@] + olds.subrange(
            i as int,
            olds.len() as int,
        ));
        let news = v.deep_view();
        assert forall|a: int, b: int| 0 <= a < b < news.len() implies lex_lt(
            news[a].path,
            news[b].path,
        ) by {
            if a < i && b == i {
                lemma_lex_le_total(e@.path, olds[a].path);
            } else if a == i && b > i {
                if b > i + 1 {
                    assert(lex_lt(olds[i as int].path, olds[b - 1].path));
                    lemma_lex_le_transitive(e@.path, olds[i as int].path, olds[b - 1].path);
                }
            } else if a < i && b > i {
                assert(lex_lt(olds[a].path, olds[b - 1].path));
            }
        }
    }
}

/// Build the sorted file-edit list from a finished pass's batch: each
/// observed operation becomes one entry, with the Modified-without-prior-
/// content downgrade applied.
pub fn finalize_file_edits(batch: &EditBatch) -> (edits: Vec<FileEdit>)
    requires
        batch.wf(),
    ensures
        edits.deep_view() == spec_finalize(batch@.ops, batch@.prior, batch@.stamps),
        edits_sorted(edits.deep_view()),
{
    let ghost ops = batch@.ops;
    let ghost prior = batch@.prior;
    let ghost stamps = batch@.stamps;
    let n = batch.ops.len();
    let mut edits: Vec<FileEdit> = Vec::new();
    let mut k: usize = 0;
    proof {
        assert(edits.deep_view() =~= Seq::<EditView>::empty());
        assert(ops.skip(0) =~= ops);
    }
    while k < n
        invariant
            k <= n,
            n == ops.len(),
            batch.wf(),
            ops == batch@.ops,
            prior == batch@.prior,
            stamps == batch@.stamps,
            finalize_acc(edits.deep_view(), ops.skip(k as int), prior, stamps) == spec_finalize(
                ops,
                prior,
                stamps,
            ),
            edits_sorted(edits.deep_view()),
            forall|idx: int|
                0 <= idx < edits.deep_view().len() ==> path_from_ops(
                    edits.deep_view()[idx].path,
                    ops,
                    k as int,
                ),
        decreases n - k,
    {
        let entry = batch.ops.entry_at(k);
        let has_prior = batch.prior.contains_key(entry.0.as_str());
        let ty = if matches!(entry.1, FileEditType::Modified) && !has_prior {
            FileEditType::Added
        } else {
            entry.1
        };
        let ts = match batch.stamps.get(entry.0.as_str()) {
            Some(t) => Some(t.clone()),
            None => None,
        };
        let e = FileEdit { path: entry.0.clone(), edit_type: ty, last_edited_at: ts };
        proof {
            assert(prior.contains(ops[k as int].0) == assoc_has_key(batch.prior@, ops[k as int].0));
            assert(e@ =~= finalize_edit(ops[k as int].0, ops[k as int].1, prior, stamps));
            assert forall|j: int| 0 <= j < edits@.len() implies edits.deep_view()[j].path
                != e@.path by {
                let w = choose|w: int|
                    #![trigger ops[w]]
                    0 <= w < k && edits.deep_view()[j].path == ops[w].0;
                assert(ops[w].0 != ops[k as int].0);
            }
        }
        let ghost pre = edits.deep_view();
        insert_edit_sorted(&mut edits, e);
        proof {
            assert(ops.skip(k as int)[0] == ops[k as int]);
            assert(ops.skip(k as int).drop_first() =~= ops.skip(k + 1 as int));
            assert(finalize_acc(pre, ops.skip(k as int), prior, stamps) == finalize_acc(
                edit_insert(pre, finalize_edit(ops[k as int].0, ops[k as int].1, prior, stamps)),
                ops.skip(k + 1 as int),
                prior,
                stamps,
            ));
            assert forall|idx: int| 0 <= idx < edits.deep_view().len() implies path_from_ops(
                edits.deep_view()[idx].path,
                ops,
                k + 1,
            ) by {
                let news = edits.deep_view();
                lemma_edit_insert_membership(pre, e@, idx);
                if news[idx] == e@ {
                    assert(ops[k as int].0 == e@.path);
                    assert(path_from_ops(news[idx].path, ops, k + 1));
                } else {
                    let w = choose|w: int| 0 <= w < pre.len() && news[idx] == pre[w];
                    assert(path_from_ops(pre[w].path, ops, k as int));
                    let j = choose|j: int| #![trigger ops[j]] 0 <= j < k && pre[w].path == ops[j].0;
                    assert(path_from_ops(news[idx].path, ops, k + 1));
                }
            }
        }
        k += 1;
    }
    proof {
        assert(ops.skip(n as int) =~= Seq::<(Seq<char>, FileEditType)>::empty());
    }
    edits
}

/// Every element of an insertion's result is the new entry or an element
/// of the old list.
pub proof fn lemma_edit_insert_membership(s: Seq<EditView>, e: EditView, idx: int)
    requires
        0 <= idx < edit_insert(s, e).len(),
    ensures
        edit_insert(s, e)[idx] == e || exists|w: int| 0 <= w < s.len() && edit_insert(s, e)[idx]
            == s[w],
    decreases s.len(),
{
    if s.len() == 0 {
    } else if lex_le(e.path, s[0].path) {
    } else {
        if idx > 0 {
            lemma_edit_insert_membership(s.drop_first(), e, idx - 1);
            if edit_insert(s, e)[idx] != e {
                let w = choose|w: int|
                    0 <= w < s.drop_first().len() && edit_insert(s.drop_first(), e)[idx - 1]
                        == s.drop_first()[w];
                assert(edit_insert(s, e)[idx] == s[w + 1]);
            }
        } else {
            assert(edit_insert(s, e)[0] == s[0]);
        }
    }
}

/// Build a complete session index from the log's bytes.
///
/// The caller reads the whole log and passes its size and modification
/// stamp; the build records each line's offset and span, scans it, and
/// derives the identifier maps, human-turn boundaries and file edits in
/// one pass. Sequence numbers are 32-bit, so the log must stay within that
/// range.
pub fn build_session_index(bytes: &[u8], file_size: u64, last_modified: u64, project_path: &str)
    -> (index: SessionIndex)
    requires
        bytes@.len() < u32::MAX,
    ensures
        index.wf(),
        build_rel(
            index@,
            scans_of(split_lines(bytes@)),
            split_lines(bytes@),
            project_path@,
            file_size,
            last_modified,
        ),
{
    let mut index = SessionIndex::empty();
    let mut batch = EditBatch::new();
    let ghost m0 = index@;
    let ghost b0 = batch@;
    apply_lines(&mut index, &mut batch, bytes, project_path);
    let edits = finalize_file_edits(&batch);
    index.file_edits = edits;
    index.file_size = file_size;
    index.last_modified = last_modified;
    proof {
        assert(st_of(m0, b0) =~= ScanState::init());
        assert(index@.line_offsets =~= offsets_of(split_lines(bytes@), 0));
        assert(build_rel(
            index@,
            scans_of(split_lines(bytes@)),
            split_lines(bytes@),
            project_path@,
            file_size,
            last_modified,
        ));
    }
    index
}

} // verus!
