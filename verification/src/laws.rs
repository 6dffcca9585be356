//! The library's stated laws, as proved facts about the model that the
//! executable functions are specified against.

use vstd::prelude::*;

use crate::builder::lemma_edit_insert_membership;
use crate::model::{build_rel, edit_insert, edits_has_path, edit_path_index, finalize_acc,
    finalize_edit, line_span, merge_one, offsets_of, scan_fold, scan_item, scan_items,
    scan_record, spec_finalize, spec_merge, sum_span, BatchView, ScanState};
use crate::record::{spec_is_human_turn, ItemView, RecordView};
use crate::strmap::{assoc_distinct, assoc_get, assoc_has_key, assoc_key_set, assoc_put,
    lemma_assoc_put_distinct};
use crate::strutil::{lemma_lex_le_antisymmetric, lemma_lex_le_total, lemma_lex_le_transitive,
    lex_le};
use crate::types::{edits_sorted, lex_lt, EditView, FileEditType, IndexModel};
use crate::updater::{spec_decision, UpdateResult};

verus! {

/// The entry a sorted edit list holds for a path.
pub open spec fn edit_entry(s: Seq<EditView>, p: Seq<char>) -> EditView {
    s[edit_path_index(s, p)]
}

/// In a sorted list, the entry at a known index is the entry of its path.
pub proof fn lemma_entry_at(s: Seq<EditView>, p: Seq<char>, i: int)
    requires
        edits_sorted(s),
        0 <= i < s.len(),
        s[i].path == p,
    ensures
        edits_has_path(s, p),
        edit_entry(s, p) == s[i],
{
    assert(edits_has_path(s, p));
    let ci = edit_path_index(s, p);
    if ci != i {
        assert(s[ci].path == p);
        if ci < i {
            assert(lex_lt(s[ci].path, s[i].path));
        } else {
            assert(lex_lt(s[i].path, s[ci].path));
        }
        assert(false);
    }
}

/// What sorted insertion does, path by path.
pub proof fn lemma_edit_insert_props(s: Seq<EditView>, e: EditView)
    requires
        edits_sorted(s),
        !edits_has_path(s, e.path),
    ensures
        edits_sorted(edit_insert(s, e)),
        forall|q: Seq<char>|
            #[trigger] edits_has_path(edit_insert(s, e), q) == (edits_has_path(s, q) || q
                == e.path),
        edit_entry(edit_insert(s, e), e.path) == e,
        forall|q: Seq<char>|
            q != e.path && #[trigger] edits_has_path(s, q) ==> edit_entry(edit_insert(s, e), q)
                == edit_entry(s, q),
    decreases s.len(),
{
    let t = edit_insert(s, e);
    if s.len() == 0 {
        assert(t =~= seq![e]);
        assert forall|q: Seq<char>| #[trigger]
            edits_has_path(t, q) == (edits_has_path(s, q) || q == e.path) by {
            if edits_has_path(t, q) {
                let i = choose|i: int| 0 <= i < t.len() && t[i].path == q;
                assert(t[0].path == e.path);
            }
            if q == e.path {
                assert(t[0].path == q);
            }
        }
        lemma_entry_at(t, e.path, 0);
    } else if lex_le(e.path, s[0].path) {
        assert(t =~= seq![e] + s);
        assert(s[0].path != e.path) by {
            assert(s[0].path == s[0].path);
        }
        assert(lex_lt(e.path, s[0].path));
        assert forall|a: int, b: int| 0 <= a < b < t.len() implies lex_lt(t[a].path, t[b].path) by {
            if a == 0 {
                if b > 1 {
                    assert(lex_lt(s[0].path, s[b - 1].path));
                    lemma_lex_le_transitive(e.path, s[0].path, s[b - 1].path);
                    if e.path == s[b - 1].path {
                        assert(edits_has_path(s, e.path)) by {
                            assert(s[b - 1].path == e.path);
                        }
                    }
                }
            } else {
                assert(t[a] == s[a - 1] && t[b] == s[b - 1]);
            }
        }
        assert forall|q: Seq<char>| #[trigger]
            edits_has_path(t, q) == (edits_has_path(s, q) || q == e.path) by {
            if edits_has_path(t, q) {
                let i = choose|i: int| 0 <= i < t.len() && t[i].path == q;
                if i > 0 {
                    assert(s[i - 1].path == q);
                }
            }
            if edits_has_path(s, q) {
                let i = choose|i: int| 0 <= i < s.len() && s[i].path == q;
                assert(t[i + 1].path == q);
            }
            if q == e.path {
                assert(t[0].path == q);
            }
        }
        lemma_entry_at(t, e.path, 0);
        assert forall|q: Seq<char>|
            q != e.path && #[trigger] edits_has_path(s, q) implies edit_entry(t, q) == edit_entry(
            s,
            q,
        ) by {
            let i = edit_path_index(s, q);
            assert(s[i].path == q);
            assert(t[i + 1] == s[i]);
            lemma_entry_at(t, q, i + 1);
        }
    } else {
        let d = s.drop_first();
        assert forall|q: Seq<char>| #[trigger] edits_has_path(d, q) implies edits_has_path(s, q) by {
            let i = choose|i: int| 0 <= i < d.len() && d[i].path == q;
            assert(s[i + 1].path == q);
        }
        lemma_edit_insert_props(d, e);
        let ti = edit_insert(d, e);
        assert(t =~= seq![s[0]] + ti);
        // The head stays strictly below everything behind it.
        assert forall|b: int| 1 <= b < t.len() implies lex_lt(t[0].path, t[b].path) by {
            lemma_edit_insert_membership(d, e, b - 1);
            if ti[b - 1] == e {
                lemma_lex_le_total(e.path, s[0].path);
                assert(s[0].path != e.path) by {
                    assert(s[0].path == s[0].path);
                }
            } else {
                let w = choose|w: int| 0 <= w < d.len() && ti[b - 1] == d[w];
                assert(d[w] == s[w + 1]);
                assert(lex_lt(s[0].path, s[w + 1].path));
            }
        }
        assert forall|a: int, b: int| 0 <= a < b < t.len() implies lex_lt(t[a].path, t[b].path) by {
            if a > 0 {
                assert(t[a] == ti[a - 1] && t[b] == ti[b - 1]);
            }
        }
        assert forall|q: Seq<char>| #[trigger]
            edits_has_path(t, q) == (edits_has_path(s, q) || q == e.path) by {
            if edits_has_path(t, q) {
                let i = choose|i: int| 0 <= i < t.len() && t[i].path == q;
                if i == 0 {
                    assert(s[0].path == q);
                } else {
                    assert(edits_has_path(ti, q)) by {
                        assert(ti[i - 1].path == q);
                    }
                    if q != e.path {
                        let w = choose|w: int| 0 <= w < d.len() && d[w].path == q;
                        assert(s[w + 1].path == q);
                    }
                }
            }
            if edits_has_path(s, q) {
                let i = choose|i: int| 0 <= i < s.len() && s[i].path == q;
                if i == 0 {
                    assert(t[0].path == q);
                } else {
                    assert(d[i - 1].path == q);
                    assert(edits_has_path(d, q));
                    assert(edits_has_path(ti, q));
                    let w = choose|w: int| 0 <= w < ti.len() && ti[w].path == q;
                    assert(t[w + 1].path == q);
                }
            }
            if q == e.path {
                assert(edits_has_path(ti, q));
                let w = choose|w: int| 0 <= w < ti.len() && ti[w].path == q;
                assert(t[w + 1].path == q);
            }
        }
        // Entries: the head is untouched; the tail is handled inductively.
        assert(edit_entry(t, e.path) == e) by {
            assert(edits_has_path(ti, e.path));
            let w = edit_path_index(ti, e.path);
            assert(ti[w].path == e.path);
            assert(ti[w] == edit_entry(ti, e.path));
            assert(t[w + 1] == ti[w]);
            lemma_entry_at(t, e.path, w + 1);
        }
        assert forall|q: Seq<char>|
            q != e.path && #[trigger] edits_has_path(s, q) implies edit_entry(t, q) == edit_entry(
            s,
            q,
        ) by {
            let i = edit_path_index(s, q);
            assert(s[i].path == q);
            lemma_entry_at(s, q, i);
            if i == 0 {
                lemma_entry_at(t, q, 0);
            } else {
                assert(d[i - 1].path == q);
                assert(edits_has_path(d, q));
                lemma_entry_at(d, q, i - 1);
                assert(edits_has_path(ti, q));
                let w = edit_path_index(ti, q);
                assert(ti[w].path == q);
                assert(ti[w] == edit_entry(ti, q));
                assert(edit_entry(ti, q) == edit_entry(d, q));
                assert(t[w + 1] == ti[w]);
                lemma_entry_at(t, q, w + 1);
            }
        }
    }
}

/// What finalizing a batch produces, path by path: one sorted entry per
/// observed operation, its classification downgraded to Added when no prior
/// content was seen, its timestamp the last one recorded.
pub proof fn lemma_finalize_acc_pointwise(acc: Seq<EditView>,
    ops: Seq<(Seq<char>, FileEditType)>, prior: Set<Seq<char>>,
    stamps: Seq<(Seq<char>, Seq<char>)>)
    requires
        edits_sorted(acc),
        assoc_distinct(ops),
        forall|q: Seq<char>| #[trigger] edits_has_path(acc, q) ==> !assoc_has_key(ops, q),
    ensures
        edits_sorted(finalize_acc(acc, ops, prior, stamps)),
        forall|q: Seq<char>|
            #[trigger] edits_has_path(finalize_acc(acc, ops, prior, stamps), q) == (edits_has_path(
                acc,
                q,
            ) || assoc_has_key(ops, q)),
        forall|q: Seq<char>|
            #[trigger] edits_has_path(acc, q) ==> edit_entry(finalize_acc(acc, ops, prior, stamps), q)
                == edit_entry(acc, q),
        forall|q: Seq<char>|
            #[trigger] assoc_has_key(ops, q) ==> edit_entry(finalize_acc(acc, ops, prior, stamps), q)
                == finalize_edit(q, assoc_get(ops, q).unwrap(), prior, stamps),
    decreases ops.len(),
{
    if ops.len() == 0 {
    } else {
        let p0 = ops[0].0;
        let e0 = finalize_edit(p0, ops[0].1, prior, stamps);
        let acc2 = edit_insert(acc, e0);
        lemma_edit_insert_props(acc, e0);
        let d = ops.drop_first();
        assert forall|q: Seq<char>| #[trigger] assoc_has_key(d, q) implies assoc_has_key(ops, q)
            && q != p0 by {
            let i = choose|i: int| 0 <= i < d.len() && d[i].0 == q;
            assert(ops[i + 1].0 == q);
        }
        assert forall|q: Seq<char>| #[trigger] edits_has_path(acc2, q) implies !assoc_has_key(
            d,
            q,
        ) by {
            if assoc_has_key(d, q) {
                assert(assoc_has_key(ops, q) && q != p0);
                assert(edits_has_path(acc, q));
            }
        }
        lemma_finalize_acc_pointwise(acc2, d, prior, stamps);
        let r = finalize_acc(acc, ops, prior, stamps);
        assert(r == finalize_acc(acc2, d, prior, stamps));
        assert(assoc_has_key(ops, p0)) by {
            assert(ops[0].0 == p0);
        }
        assert forall|q: Seq<char>| #[trigger] edits_has_path(acc, q) implies edit_entry(r, q)
            == edit_entry(acc, q) by {
            assert(!assoc_has_key(ops, q));
            assert(q != p0);
            assert(edits_has_path(acc2, q));
            assert(edit_entry(acc2, q) == edit_entry(acc, q));
        }
        assert forall|q: Seq<char>| #[trigger]
            edits_has_path(r, q) == (edits_has_path(acc, q) || assoc_has_key(ops, q)) by {
            if assoc_has_key(ops, q) && q != p0 {
                let i = choose|i: int| 0 <= i < ops.len() && ops[i].0 == q;
                assert(i > 0);
                assert(d[i - 1].0 == q);
                assert(assoc_has_key(d, q));
            }
            if q == p0 {
                assert(assoc_has_key(ops, q)) by {
                    assert(ops[0].0 == q);
                }
            }
        }
        assert forall|q: Seq<char>| #[trigger] assoc_has_key(ops, q) implies edit_entry(r, q)
            == finalize_edit(q, assoc_get(ops, q).unwrap(), prior, stamps) by {
            if q == p0 {
                crate::strmap::lemma_assoc_first_get(ops, q);
                assert(edits_has_path(acc2, p0));
                assert(edit_entry(acc2, q) == e0);
                assert(edit_entry(r, q) == edit_entry(acc2, q));
                assert(assoc_get(ops, q) == Some(ops[0].1));
            } else {
                let i = choose|i: int| 0 <= i < ops.len() && ops[i].0 == q;
                assert(i > 0);
                assert(d[i - 1].0 == q);
                assert(assoc_has_key(d, q));
                assert(assoc_get(d, q) == assoc_get(ops, q)) by {
                    crate::strmap::lemma_assoc_drop_first_get(ops, q);
                }
            }
        }
    }
}

/// Two sorted edit lists with the same paths and the same entry for each
/// path are the same list.
pub proof fn lemma_sorted_edits_unique(a: Seq<EditView>, b: Seq<EditView>)
    requires
        edits_sorted(a),
        edits_sorted(b),
        forall|q: Seq<char>| #[trigger] edits_has_path(a, q) == edits_has_path(b, q),
        forall|q: Seq<char>|
            #[trigger] edits_has_path(a, q) ==> edit_entry(a, q) == edit_entry(b, q),
    ensures
        a == b,
    decreases a.len(),
{
    if a.len() == 0 {
        if b.len() > 0 {
            assert(edits_has_path(b, b[0].path)) by {
                assert(b[0].path == b[0].path);
            }
            assert(edits_has_path(a, b[0].path));
            assert(false);
        }
        assert(a =~= b);
    } else {
        assert(edits_has_path(a, a[0].path)) by {
            assert(a[0].path == a[0].path);
        }
        assert(edits_has_path(b, a[0].path));
        assert(b.len() > 0);
        // Each head is the least path of its list, and the path sets agree.
        assert(edits_has_path(b, b[0].path)) by {
            assert(b[0].path == b[0].path);
        }
        assert(edits_has_path(a, b[0].path));
        let ia = choose|i: int| 0 <= i < a.len() && a[i].path == b[0].path;
        let ib = choose|i: int| 0 <= i < b.len() && b[i].path == a[0].path;
        assert(a[ia].path == b[0].path);
        assert(b[ib].path == a[0].path);
        if ia > 0 {
            assert(lex_lt(a[0].path, a[ia].path));
        }
        if ib > 0 {
            assert(lex_lt(b[0].path, b[ib].path));
        }
        if a[0].path != b[0].path {
            assert(ia > 0 && ib > 0);
            assert(lex_lt(a[0].path, a[ia].path));
            assert(lex_lt(b[0].path, b[ib].path));
            lemma_lex_le_antisymmetric(a[0].path, b[0].path);
            assert(false);
        }
        lemma_entry_at(a, a[0].path, 0);
        lemma_entry_at(b, b[0].path, 0);
        assert(a[0] == b[0]);
        let da = a.drop_first();
        let db = b.drop_first();
        assert forall|i: int, j: int| 0 <= i < j < da.len() implies lex_lt(
            da[i].path,
            da[j].path,
        ) by {
            assert(da[i] == a[i + 1] && da[j] == a[j + 1]);
        }
        assert forall|i: int, j: int| 0 <= i < j < db.len() implies lex_lt(
            db[i].path,
            db[j].path,
        ) by {
            assert(db[i] == b[i + 1] && db[j] == b[j + 1]);
        }
        assert forall|q: Seq<char>| #[trigger] edits_has_path(da, q) == edits_has_path(db, q) by {
            lemma_drop_first_paths(a, q);
            lemma_drop_first_paths(b, q);
        }
        assert forall|q: Seq<char>| #[trigger] edits_has_path(da, q) implies edit_entry(da, q)
            == edit_entry(db, q) by {
            lemma_drop_first_paths(a, q);
            lemma_drop_first_paths(b, q);
            let i = edit_path_index(da, q);
            assert(da[i].path == q);
            assert(a[i + 1].path == q);
            lemma_entry_at(a, q, i + 1);
            let j = edit_path_index(db, q);
            assert(db[j].path == q);
            assert(b[j + 1].path == q);
            lemma_entry_at(b, q, j + 1);
            assert(edit_entry(da, q) == a[i + 1]);
            assert(edit_entry(db, q) == b[j + 1]);
            assert(edits_has_path(a, q)) by {
                assert(a[i + 1].path == q);
            }
        }
        lemma_sorted_edits_unique(da, db);
        assert forall|i: int| 1 <= i < a.len() implies a[i] == b[i] by {
            assert(a[i] == da[i - 1]);
            assert(b[i] == db[i - 1]);
        }
        assert(a =~= b);
    }
}

/// Dropping a sorted list's head removes exactly its path.
proof fn lemma_drop_first_paths(s: Seq<EditView>, q: Seq<char>)
    requires
        edits_sorted(s),
        s.len() > 0,
    ensures
        edits_has_path(s.drop_first(), q) == (edits_has_path(s, q) && q != s[0].path),
        edits_has_path(s.drop_first(), q) ==> edit_entry(s.drop_first(), q) == edit_entry(s, q),
{
    let d = s.drop_first();
    if edits_has_path(d, q) {
        let i = choose|i: int| 0 <= i < d.len() && d[i].path == q;
        assert(s[i + 1].path == q);
        assert(edits_has_path(s, q));
        assert(lex_lt(s[0].path, s[i + 1].path));
        let w = edit_path_index(d, q);
        assert(d[w].path == q);
        assert(s[w + 1].path == q);
        lemma_entry_at(s, q, w + 1);
        assert(edit_entry(d, q) == d[w]);
        assert(d[w] == s[w + 1]);
    }
    if edits_has_path(s, q) && q != s[0].path {
        let i = choose|i: int| 0 <= i < s.len() && s[i].path == q;
        assert(i > 0);
        assert(d[i - 1].path == q);
        assert(edits_has_path(d, q));
    }
}

proof fn lemma_sum_span_nonneg(lines: Seq<Seq<u8>>)
    ensures
        sum_span(lines) >= lines.len(),
    decreases lines.len(),
{
    if lines.len() > 0 {
        lemma_sum_span_nonneg(lines.drop_first());
    }
}

/// The offset table has one entry per line.
pub proof fn lemma_offsets_len(lines: Seq<Seq<u8>>, start: int)
    ensures
        offsets_of(lines, start).len() == lines.len(),
    decreases lines.len(),
{
    if lines.len() > 0 {
        lemma_offsets_len(lines.drop_first(), start + line_span(lines[0]));
    }
}

/// Offset integrity: in an offset table laid out from `start`, each line
/// begins exactly where the previous one ends, as long as the whole table
/// stays within the machine's ranges.
pub proof fn lemma_offset_integrity(lines: Seq<Seq<u8>>, start: int)
    requires
        0 <= start,
        start + sum_span(lines) <= u64::MAX,
        forall|i: int| 0 <= i < lines.len() ==> line_span(#[trigger] lines[i]) <= usize::MAX,
    ensures
        offsets_of(lines, start).len() == lines.len(),
        forall|i: int|
            0 <= i < lines.len() - 1 ==> (#[trigger] offsets_of(lines, start)[i]).0 as int
                + offsets_of(lines, start)[i].1 as int == offsets_of(lines, start)[i + 1].0 as int,
        forall|i: int|
            0 <= i < lines.len() ==> (#[trigger] offsets_of(lines, start)[i]).0 as int >= start,
    decreases lines.len(),
{
    lemma_offsets_len(lines, start);
    if lines.len() > 0 {
        let s0 = line_span(lines[0]);
        lemma_sum_span_nonneg(lines.drop_first());
        lemma_offset_integrity(lines.drop_first(), start + s0);
        let offs = offsets_of(lines, start);
        let rest = offsets_of(lines.drop_first(), start + s0);
        assert(offs == seq![((start as u64), (s0 as usize))] + rest);
        assert forall|i: int| 0 <= i < lines.len() - 1 implies (#[trigger] offs[i]).0 as int
            + offs[i].1 as int == offs[i + 1].0 as int by {
            if i == 0 {
                if lines.len() > 1 {
                    assert(rest[0].0 as int == start + s0) by {
                        assert(rest == seq![
                            (((start + s0) as u64), (line_span(lines.drop_first()[0]) as usize)),
                        ] + offsets_of(
                            lines.drop_first().drop_first(),
                            start + s0 + line_span(lines.drop_first()[0]),
                        ));
                    }
                    assert(offs[1] == rest[0]);
                }
            } else {
                assert(offs[i] == rest[i - 1]);
                assert(offs[i + 1] == rest[i]);
            }
        }
    }
}

/// Offset integrity for a freshly built index: the offsets recorded by a
/// full build are contiguous from zero.
pub proof fn lemma_built_offsets_contiguous(m: IndexModel, recs: Seq<Option<RecordView>>,
    lines: Seq<Seq<u8>>, project: Seq<char>, fsize: u64, mtime: u64)
    requires
        build_rel(m, recs, lines, project, fsize, mtime),
        sum_span(lines) <= u64::MAX,
        forall|i: int| 0 <= i < lines.len() ==> line_span(#[trigger] lines[i]) <= usize::MAX,
    ensures
        m.line_offsets.len() == lines.len(),
        forall|i: int|
            0 <= i < m.line_offsets.len() - 1 ==> (#[trigger] m.line_offsets[i]).0 as int
                + m.line_offsets[i].1 as int == m.line_offsets[i + 1].0 as int,
{
    lemma_offset_integrity(lines, 0);
}

/// Idempotence of a no-op update: while the log's size and stamp still
/// match the index's baseline, the decision is `Unchanged`, however often
/// it is asked; deciding takes the index immutably, so the index is
/// untouched both times.
pub proof fn lemma_noop_update_idempotent(m: IndexModel)
    ensures
        spec_decision(m.file_size, m.last_modified, m.file_size, m.last_modified)
            == UpdateResult::Unchanged,
{
}

/// Shrinkage forces a rebuild: whenever the log is smaller than the stored
/// baseline, the decision is `Rebuilt`, whatever the stamps say; the
/// rebuild itself is specified to equal a fresh build.
pub proof fn lemma_shrinkage_forces_rebuild(m: IndexModel, size: u64, mtime: u64)
    requires
        size < m.file_size,
    ensures
        spec_decision(m.file_size, m.last_modified, size, mtime) == UpdateResult::Rebuilt,
{
}

/// What merging one operation into an existing entry does to it.
pub open spec fn merged_entry(e0: EditView, p: Seq<char>, prior: Set<Seq<char>>,
    stamps: Seq<(Seq<char>, Seq<char>)>) -> EditView {
    EditView {
        path: e0.path,
        edit_type: if prior.contains(p) {
            FileEditType::Modified
        } else {
            e0.edit_type
        },
        last_edited_at: match assoc_get(stamps, p) {
            Some(t) => Some(t),
            None => e0.last_edited_at,
        },
    }
}

/// What merging a batch produces, path by path.
pub proof fn lemma_merge_pointwise(edits: Seq<EditView>, ops: Seq<(Seq<char>, FileEditType)>,
    prior: Set<Seq<char>>, stamps: Seq<(Seq<char>, Seq<char>)>)
    requires
        edits_sorted(edits),
        assoc_distinct(ops),
    ensures
        edits_sorted(spec_merge(edits, ops, prior, stamps)),
        forall|q: Seq<char>|
            #[trigger] edits_has_path(spec_merge(edits, ops, prior, stamps), q) == (edits_has_path(
                edits,
                q,
            ) || assoc_has_key(ops, q)),
        forall|q: Seq<char>|
            !assoc_has_key(ops, q) && #[trigger] edits_has_path(edits, q) ==> edit_entry(
                spec_merge(edits, ops, prior, stamps),
                q,
            ) == edit_entry(edits, q),
        forall|q: Seq<char>|
            #[trigger] assoc_has_key(ops, q) && edits_has_path(edits, q) ==> edit_entry(
                spec_merge(edits, ops, prior, stamps),
                q,
            ) == merged_entry(edit_entry(edits, q), q, prior, stamps),
        forall|q: Seq<char>|
            #[trigger] assoc_has_key(ops, q) && !edits_has_path(edits, q) ==> edit_entry(
                spec_merge(edits, ops, prior, stamps),
                q,
            ) == finalize_edit(q, assoc_get(ops, q).unwrap(), prior, stamps),
    decreases ops.len(),
{
    if ops.len() == 0 {
    } else {
        let p0 = ops[0].0;
        let m1 = merge_one(edits, p0, ops[0].1, prior, stamps);
        let d = ops.drop_first();
        crate::strmap::lemma_assoc_first_get(ops, p0);
        // One step: either an in-place update of p0's entry, or a sorted
        // insertion of a fresh one.
        if edits_has_path(edits, p0) {
            let i = edit_path_index(edits, p0);
            assert(edits[i].path == p0);
            lemma_entry_at(edits, p0, i);
            assert(m1 == edits.update(i, merged_entry(edits[i], p0, prior, stamps)));
            assert forall|a: int, b: int| 0 <= a < b < m1.len() implies lex_lt(
                m1[a].path,
                m1[b].path,
            ) by {
                assert(m1[a].path == edits[a].path);
                assert(m1[b].path == edits[b].path);
            }
            assert forall|q: Seq<char>| #[trigger]
                edits_has_path(m1, q) == edits_has_path(edits, q) by {
                if edits_has_path(m1, q) {
                    let w = choose|w: int| 0 <= w < m1.len() && m1[w].path == q;
                    assert(edits[w].path == q);
                }
                if edits_has_path(edits, q) {
                    let w = choose|w: int| 0 <= w < edits.len() && edits[w].path == q;
                    assert(m1[w].path == q);
                }
            }
            assert(edit_entry(m1, p0) == merged_entry(edit_entry(edits, p0), p0, prior, stamps))
                by {
                assert(m1[i].path == p0);
                lemma_entry_at(m1, p0, i);
            }
            assert forall|q: Seq<char>|
                q != p0 && #[trigger] edits_has_path(edits, q) implies edit_entry(m1, q)
                == edit_entry(edits, q) by {
                let w = edit_path_index(edits, q);
                assert(edits[w].path == q);
                assert(w != i);
                assert(m1[w] == edits[w]);
                lemma_entry_at(m1, q, w);
                lemma_entry_at(edits, q, w);
            }
        } else {
            let e = finalize_edit(p0, ops[0].1, prior, stamps);
            assert(m1 == edit_insert(edits, e));
            lemma_edit_insert_props(edits, e);
        }
        assert(assoc_distinct(d) && forall|q: Seq<char>| #[trigger]
            assoc_has_key(d, q) ==> assoc_has_key(ops, q) && q != p0) by {
            assert forall|i: int, j: int| 0 <= i < j < d.len() implies d[i].0 != d[j].0 by {
                assert(d[i] == ops[i + 1] && d[j] == ops[j + 1]);
            }
            assert forall|q: Seq<char>| #[trigger] assoc_has_key(d, q) implies assoc_has_key(ops, q)
                && q != p0 by {
                let w = choose|w: int| 0 <= w < d.len() && d[w].0 == q;
                assert(ops[w + 1].0 == q);
            }
        }
        lemma_merge_pointwise(m1, d, prior, stamps);
        let r = spec_merge(edits, ops, prior, stamps);
        assert(r == spec_merge(m1, d, prior, stamps));
        assert forall|q: Seq<char>| #[trigger]
            edits_has_path(r, q) == (edits_has_path(edits, q) || assoc_has_key(ops, q)) by {
            if assoc_has_key(ops, q) && q != p0 {
                let w = choose|w: int| 0 <= w < ops.len() && ops[w].0 == q;
                assert(w > 0);
                assert(d[w - 1].0 == q);
                assert(assoc_has_key(d, q));
            }
            if q == p0 {
                assert(assoc_has_key(ops, q)) by {
                    assert(ops[0].0 == q);
                }
                assert(edits_has_path(m1, q));
            }
        }
        assert forall|q: Seq<char>|
            !assoc_has_key(ops, q) && #[trigger] edits_has_path(edits, q) implies edit_entry(r, q)
            == edit_entry(edits, q) by {
            assert(q != p0) by {
                assert(ops[0].0 == p0);
            }
            assert(!assoc_has_key(d, q));
            assert(edits_has_path(m1, q));
            assert(edit_entry(m1, q) == edit_entry(edits, q));
        }
        assert forall|q: Seq<char>|
            #[trigger] assoc_has_key(ops, q) && edits_has_path(edits, q) implies edit_entry(r, q)
            == merged_entry(edit_entry(edits, q), q, prior, stamps) by {
            if q == p0 {
                assert(edits_has_path(m1, q));
                assert(!assoc_has_key(d, q)) by {
                    if assoc_has_key(d, q) {
                        assert(q != p0);
                    }
                }
                assert(edit_entry(r, q) == edit_entry(m1, q));
            } else {
                let w = choose|w: int| 0 <= w < ops.len() && ops[w].0 == q;
                assert(w > 0);
                assert(d[w - 1].0 == q);
                assert(assoc_has_key(d, q));
                crate::strmap::lemma_assoc_drop_first_get(ops, q);
                assert(edits_has_path(m1, q));
                assert(edit_entry(m1, q) == edit_entry(edits, q));
            }
        }
        assert forall|q: Seq<char>|
            #[trigger] assoc_has_key(ops, q) && !edits_has_path(edits, q) implies edit_entry(r, q)
            == finalize_edit(q, assoc_get(ops, q).unwrap(), prior, stamps) by {
            if q == p0 {
                assert(!assoc_has_key(d, q)) by {
                    if assoc_has_key(d, q) {
                        assert(q != p0);
                    }
                }
                assert(edits_has_path(m1, q));
                assert(edit_entry(m1, q) == finalize_edit(p0, ops[0].1, prior, stamps));
                assert(edit_entry(r, q) == edit_entry(m1, q));
            } else {
                let w = choose|w: int| 0 <= w < ops.len() && ops[w].0 == q;
                assert(w > 0);
                assert(d[w - 1].0 == q);
                assert(assoc_has_key(d, q));
                crate::strmap::lemma_assoc_drop_first_get(ops, q);
                assert(!edits_has_path(m1, q));
            }
        }
    }
}

/// The human-turn predicate: a user record from an external user whose
/// content carries no tool result and which is neither a compact summary
/// nor a meta event is a human turn; one with a tool-result item, or
/// marked as a meta event, is not.
pub proof fn lemma_human_turn_predicate(r: RecordView)
    ensures
        (r.entry_type == Some("user"@) && r.user_type == Some("external"@) && (match r
            .content_items {
            Some(items) => forall|i: int|
                0 <= i < items.len() ==> (#[trigger] items[i]).item_type != Some("tool_result"@),
            None => true,
        }) && r.is_compact_summary != Some(true) && r.is_meta != Some(true))
            == spec_is_human_turn(r),
        (match r.content_items {
            Some(items) => exists|i: int|
                0 <= i < items.len() && (#[trigger] items[i]).item_type == Some("tool_result"@),
            None => false,
        }) ==> !spec_is_human_turn(r),
        r.is_meta == Some(true) ==> !spec_is_human_turn(r),
{
}

/// Facts every pass state satisfies relative to the paths the index knew
/// when the pass began.
pub open spec fn batch_inv(st: ScanState, known: Set<Seq<char>>) -> bool {
    &&& assoc_distinct(st.ops)
    &&& assoc_distinct(st.stamps)
    &&& assoc_distinct(st.file_to_edit_lines)
    &&& forall|p: Seq<char>|
        #[trigger] assoc_has_key(st.ops, p) ==> assoc_has_key(st.file_to_edit_lines, p)
    &&& forall|p: Seq<char>|
        #[trigger] assoc_has_key(st.file_to_edit_lines, p) ==> assoc_has_key(st.ops, p)
            || known.contains(p)
    &&& forall|p: Seq<char>|
        #[trigger] st.prior.contains(p) ==> assoc_get(st.ops, p) == Some(FileEditType::Modified)
    &&& forall|p: Seq<char>|
        #[trigger] assoc_has_key(st.stamps, p) ==> assoc_has_key(st.ops, p)
}

proof fn lemma_scan_item_inv(st: ScanState, item: ItemView, seq_no: u32, uuid: Option<Seq<char>>,
    ts: Option<Seq<char>>, project: Seq<char>, known: Set<Seq<char>>)
    requires
        batch_inv(st, known),
    ensures
        batch_inv(scan_item(st, item, seq_no, uuid, ts, project), known),
{
    let st2 = scan_item(st, item, seq_no, uuid, ts, project);
    if item.item_type == Some("tool_use"@) && item.tool_name is Some && item.file_path is Some {
        let name = item.tool_name.unwrap();
        let fp = item.file_path.unwrap();
        let rp = crate::strutil::rel_path(fp, project);
        if name == "Edit"@ || name == "Write"@ {
            let st1 = crate::model::touch_common(st, rp, seq_no, uuid, ts);
            let cur = match assoc_get(st.file_to_edit_lines, rp) {
                Some(v) => v,
                None => Seq::<u32>::empty(),
            };
            assert(st1.file_to_edit_lines == assoc_put(st.file_to_edit_lines, rp, cur.push(
                seq_no,
            )));
            lemma_assoc_put_distinct(st.file_to_edit_lines, rp, cur.push(seq_no));
            match ts {
                Some(t) => {
                    assert(st1.stamps == assoc_put(st.stamps, rp, t));
                    lemma_assoc_put_distinct(st.stamps, rp, t);
                },
                None => {
                    assert(st1.stamps == st.stamps);
                },
            }
            assert(st1.ops == st.ops && st1.prior == st.prior);
            let recorded = name == "Edit"@ || !assoc_has_key(st.ops, rp);
            if recorded {
                let v = if name == "Edit"@ {
                    FileEditType::Modified
                } else {
                    FileEditType::Added
                };
                assert(st2.ops == assoc_put(st.ops, rp, v));
                lemma_assoc_put_distinct(st.ops, rp, v);
            } else {
                assert(st2.ops == st.ops);
            }
            assert(st2.file_to_edit_lines == st1.file_to_edit_lines);
            assert(st2.stamps == st1.stamps);
            assert(assoc_has_key(st2.file_to_edit_lines, rp));
            assert(assoc_has_key(st2.ops, rp));
            assert forall|p: Seq<char>| #[trigger] assoc_has_key(st2.ops, p)
                implies assoc_has_key(st2.file_to_edit_lines, p) by {
                if p != rp {
                    if recorded {
                        assert(assoc_has_key(st2.ops, p) == assoc_has_key(st.ops, p));
                    }
                    assert(assoc_has_key(st2.file_to_edit_lines, p) == assoc_has_key(
                        st.file_to_edit_lines,
                        p,
                    ));
                }
            }
            assert forall|p: Seq<char>| #[trigger] assoc_has_key(st2.file_to_edit_lines, p)
                implies assoc_has_key(st2.ops, p) || known.contains(p) by {
                if p != rp {
                    assert(assoc_has_key(st2.file_to_edit_lines, p) == assoc_has_key(
                        st.file_to_edit_lines,
                        p,
                    ));
                    if recorded {
                        assert(assoc_has_key(st2.ops, p) == assoc_has_key(st.ops, p));
                    }
                }
            }
            assert forall|p: Seq<char>| #[trigger] st2.prior.contains(p)
                implies assoc_get(st2.ops, p) == Some(FileEditType::Modified) by {
                if name == "Edit"@ && p == rp {
                    assert(assoc_get(st2.ops, rp) == Some(FileEditType::Modified));
                } else {
                    assert(st.prior.contains(p));
                    assert(assoc_get(st.ops, p) == Some(FileEditType::Modified));
                    assert(assoc_has_key(st.ops, p));
                    if recorded {
                        if name == "Write"@ {
                            assert(p != rp);
                        }
                        if p != rp {
                            assert(assoc_get(st2.ops, p) == assoc_get(st.ops, p));
                        }
                    }
                }
            }
            assert forall|p: Seq<char>| #[trigger] assoc_has_key(st2.stamps, p)
                implies assoc_has_key(st2.ops, p) by {
                if p != rp {
                    assert(assoc_has_key(st2.stamps, p) == assoc_has_key(st.stamps, p));
                    assert(assoc_has_key(st.ops, p));
                    if recorded {
                        assert(assoc_has_key(st2.ops, p) == assoc_has_key(st.ops, p));
                    }
                }
            }
        } else {
            assert(st2 == st);
        }
    } else {
        assert(st2 == st);
    }
}

proof fn lemma_scan_items_inv(st: ScanState, items: Seq<ItemView>, seq_no: u32,
    uuid: Option<Seq<char>>, ts: Option<Seq<char>>, project: Seq<char>, known: Set<Seq<char>>)
    requires
        batch_inv(st, known),
    ensures
        batch_inv(scan_items(st, items, seq_no, uuid, ts, project), known),
    decreases items.len(),
{
    if items.len() > 0 {
        lemma_scan_item_inv(st, items[0], seq_no, uuid, ts, project, known);
        lemma_scan_items_inv(
            scan_item(st, items[0], seq_no, uuid, ts, project),
            items.drop_first(),
            seq_no,
            uuid,
            ts,
            project,
            known,
        );
    }
}

proof fn lemma_scan_record_inv(st: ScanState, rec: Option<RecordView>, seq_no: u32,
    project: Seq<char>, known: Set<Seq<char>>)
    requires
        batch_inv(st, known),
    ensures
        batch_inv(scan_record(st, rec, seq_no, project), known),
{
    match rec {
        None => {},
        Some(r) => {
            let st1 = match r.uuid {
                Some(u) => ScanState {
                    uuid_to_line: assoc_put(st.uuid_to_line, u, seq_no),
                    parent_map: match r.parent_uuid {
                        Some(p) => assoc_put(st.parent_map, u, p),
                        None => st.parent_map,
                    },
                    ..st
                },
                None => st,
            };
            let st2 = if spec_is_human_turn(r) {
                ScanState {
                    human_message_lines: crate::types::hum_insert(st1.human_message_lines, seq_no),
                    ..st1
                }
            } else {
                st1
            };
            assert(batch_inv(st2, known));
            if r.entry_type == Some("assistant"@) {
                match r.content_items {
                    Some(items) => {
                        lemma_scan_items_inv(st2, items, seq_no, r.uuid, r.timestamp, project,
                            known);
                    },
                    None => {},
                }
            }
        },
    }
}

pub proof fn lemma_scan_fold_inv(st: ScanState, recs: Seq<Option<RecordView>>, start: int,
    project: Seq<char>, known: Set<Seq<char>>)
    requires
        batch_inv(st, known),
    ensures
        batch_inv(scan_fold(st, recs, start, project), known),
    decreases recs.len(),
{
    if recs.len() > 0 {
        lemma_scan_record_inv(st, recs[0], start as u32, project, known);
        lemma_scan_fold_inv(
            scan_record(st, recs[0], start as u32, project),
            recs.drop_first(),
            start + 1,
            project,
            known,
        );
    }
}

/// Folding a run of records in two halves is folding it whole.
pub proof fn lemma_scan_fold_append(st: ScanState, a: Seq<Option<RecordView>>,
    b: Seq<Option<RecordView>>, start: int, project: Seq<char>)
    ensures
        scan_fold(st, a + b, start, project) == scan_fold(
            scan_fold(st, a, start, project),
            b,
            start + a.len(),
            project,
        ),
    decreases a.len(),
{
    if a.len() == 0 {
        assert(a + b =~= b);
    } else {
        assert((a + b)[0] == a[0]);
        assert((a + b).drop_first() =~= a.drop_first() + b);
        lemma_scan_fold_append(
            scan_record(st, a[0], start as u32, project),
            a.drop_first(),
            b,
            start + 1,
            project,
        );
    }
}

/// The relation between a full pass and an incremental pass as they walk
/// the same appended records: the index components stay equal; the full
/// pass's batch is the prefix batch `bpre` overridden by the incremental
/// pass's batch, with `kset` the paths the prefix touched. An operation the
/// prefix already recorded can change in the full pass only by an `Edit`,
/// which both passes record as Modified.
pub open spec fn suffix_rel(bpre: BatchView, kset: Set<Seq<char>>, stf: ScanState,
    stn: ScanState) -> bool {
    &&& stf.uuid_to_line == stn.uuid_to_line
    &&& stf.parent_map == stn.parent_map
    &&& stf.human_message_lines == stn.human_message_lines
    &&& stf.edit_metadata == stn.edit_metadata
    &&& stf.file_to_edit_lines == stn.file_to_edit_lines
    &&& batch_inv(stf, Set::empty())
    &&& batch_inv(stn, kset)
    &&& forall|p: Seq<char>|
        #[trigger] assoc_has_key(stf.ops, p) == (kset.contains(p) || assoc_has_key(stn.ops, p))
    &&& forall|p: Seq<char>|
        #![trigger assoc_get(stn.ops, p)]
        !kset.contains(p) ==> assoc_get(stf.ops, p) == assoc_get(stn.ops, p)
    &&& forall|p: Seq<char>|
        #![trigger assoc_get(stf.ops, p)]
        kset.contains(p) ==> assoc_get(stf.ops, p) == (if assoc_get(stn.ops, p) == Some(
            FileEditType::Modified,
        ) {
            Some(FileEditType::Modified)
        } else {
            assoc_get(bpre.ops, p)
        })
    &&& forall|p: Seq<char>|
        #[trigger] stf.prior.contains(p) == (bpre.prior.contains(p) || stn.prior.contains(p))
    &&& forall|p: Seq<char>|
        #[trigger] assoc_has_key(stn.stamps, p) ==> assoc_get(stf.stamps, p) == assoc_get(
            stn.stamps,
            p,
        )
    &&& forall|p: Seq<char>|
        #![trigger assoc_get(stf.stamps, p)]
        !assoc_has_key(stn.stamps, p) ==> assoc_get(stf.stamps, p) == assoc_get(bpre.stamps, p)
}

proof fn lemma_scan_item_rel(bpre: BatchView, kset: Set<Seq<char>>, stf: ScanState,
    stn: ScanState, item: ItemView, seq_no: u32, uuid: Option<Seq<char>>, ts: Option<Seq<char>>,
    project: Seq<char>)
    requires
        suffix_rel(bpre, kset, stf, stn),
    ensures
        suffix_rel(
            bpre,
            kset,
            scan_item(stf, item, seq_no, uuid, ts, project),
            scan_item(stn, item, seq_no, uuid, ts, project),
        ),
{
    lemma_scan_item_inv(stf, item, seq_no, uuid, ts, project, Set::empty());
    lemma_scan_item_inv(stn, item, seq_no, uuid, ts, project, kset);
    let stf2 = scan_item(stf, item, seq_no, uuid, ts, project);
    let stn2 = scan_item(stn, item, seq_no, uuid, ts, project);
    if item.item_type == Some("tool_use"@) && item.tool_name is Some && item.file_path is Some {
        let name = item.tool_name.unwrap();
        let fp = item.file_path.unwrap();
        let rp = crate::strutil::rel_path(fp, project);
        if name == "Edit"@ || name == "Write"@ {
            let stf1 = crate::model::touch_common(stf, rp, seq_no, uuid, ts);
            let stn1 = crate::model::touch_common(stn, rp, seq_no, uuid, ts);
            assert(stf1.file_to_edit_lines == stn1.file_to_edit_lines);
            assert(stf1.edit_metadata == stn1.edit_metadata);
            assert(stf2.file_to_edit_lines == stf1.file_to_edit_lines);
            assert(stn2.file_to_edit_lines == stn1.file_to_edit_lines);
            assert(stf2.edit_metadata == stf1.edit_metadata);
            assert(stn2.edit_metadata == stn1.edit_metadata);
            // Stamps get the same treatment in both passes.
            match ts {
                Some(t) => {
                    assert(stf2.stamps == assoc_put(stf.stamps, rp, t));
                    assert(stn2.stamps == assoc_put(stn.stamps, rp, t));
                    lemma_assoc_put_distinct(stf.stamps, rp, t);
                    lemma_assoc_put_distinct(stn.stamps, rp, t);
                    assert forall|p: Seq<char>| #[trigger] assoc_has_key(stn2.stamps, p)
                        implies assoc_get(stf2.stamps, p) == assoc_get(stn2.stamps, p) by {
                        if p != rp {
                            assert(assoc_has_key(stn.stamps, p));
                            assert(assoc_get(stf2.stamps, p) == assoc_get(stf.stamps, p));
                            assert(assoc_get(stn2.stamps, p) == assoc_get(stn.stamps, p));
                        }
                    }
                    assert forall|p: Seq<char>|
                        #![trigger assoc_get(stf2.stamps, p)]
                        !assoc_has_key(stn2.stamps, p) implies assoc_get(stf2.stamps, p)
                        == assoc_get(bpre.stamps, p) by {
                        assert(p != rp) by {
                            assert(assoc_has_key(stn2.stamps, rp));
                        }
                        assert(!assoc_has_key(stn.stamps, p));
                        assert(assoc_get(stf2.stamps, p) == assoc_get(stf.stamps, p));
                    }
                },
                None => {
                    assert(stf2.stamps == stf.stamps);
                    assert(stn2.stamps == stn.stamps);
                },
            }
            if name == "Edit"@ {
                assert(stf2.ops == assoc_put(stf.ops, rp, FileEditType::Modified));
                assert(stn2.ops == assoc_put(stn.ops, rp, FileEditType::Modified));
                lemma_assoc_put_distinct(stf.ops, rp, FileEditType::Modified);
                lemma_assoc_put_distinct(stn.ops, rp, FileEditType::Modified);
                assert forall|p: Seq<char>| #[trigger]
                    assoc_has_key(stf2.ops, p) == (kset.contains(p) || assoc_has_key(
                        stn2.ops,
                        p,
                    )) by {
                    if p != rp {
                        assert(assoc_has_key(stf2.ops, p) == assoc_has_key(stf.ops, p));
                        assert(assoc_has_key(stn2.ops, p) == assoc_has_key(stn.ops, p));
                    }
                }
                assert forall|p: Seq<char>|
                    #![trigger assoc_get(stn2.ops, p)]
                    !kset.contains(p) implies assoc_get(stf2.ops, p) == assoc_get(stn2.ops, p) by {
                    if p != rp {
                        assert(assoc_get(stf2.ops, p) == assoc_get(stf.ops, p));
                        assert(assoc_get(stn2.ops, p) == assoc_get(stn.ops, p));
                    }
                }
                assert forall|p: Seq<char>|
                    #![trigger assoc_get(stf2.ops, p)]
                    kset.contains(p) implies assoc_get(stf2.ops, p) == (if assoc_get(stn2.ops, p)
                        == Some(FileEditType::Modified) {
                        Some(FileEditType::Modified)
                    } else {
                        assoc_get(bpre.ops, p)
                    }) by {
                    if p != rp {
                        assert(assoc_get(stf2.ops, p) == assoc_get(stf.ops, p));
                        assert(assoc_get(stn2.ops, p) == assoc_get(stn.ops, p));
                    } else {
                        assert(assoc_get(stf2.ops, rp) == Some(FileEditType::Modified));
                        assert(assoc_get(stn2.ops, rp) == Some(FileEditType::Modified));
                    }
                }
                assert forall|p: Seq<char>| #[trigger]
                    stf2.prior.contains(p) == (bpre.prior.contains(p) || stn2.prior.contains(
                        p,
                    )) by {
                }
            } else {
                assert(stf2.prior == stf.prior);
                assert(stn2.prior == stn.prior);
                // The full pass records the path only when neither the
                // prefix nor the incremental batch has it; the incremental
                // pass records it whenever its own batch lacks it.
                let rec_f = !assoc_has_key(stf.ops, rp);
                let rec_n = !assoc_has_key(stn.ops, rp);
                assert(assoc_has_key(stf.ops, rp) == (kset.contains(rp) || assoc_has_key(
                    stn.ops,
                    rp,
                )));
                if rec_f {
                    assert(stf2.ops == assoc_put(stf.ops, rp, FileEditType::Added));
                    lemma_assoc_put_distinct(stf.ops, rp, FileEditType::Added);
                } else {
                    assert(stf2.ops == stf.ops);
                }
                if rec_n {
                    assert(stn2.ops == assoc_put(stn.ops, rp, FileEditType::Added));
                    lemma_assoc_put_distinct(stn.ops, rp, FileEditType::Added);
                } else {
                    assert(stn2.ops == stn.ops);
                }
                assert forall|p: Seq<char>| #[trigger]
                    assoc_has_key(stf2.ops, p) == (kset.contains(p) || assoc_has_key(
                        stn2.ops,
                        p,
                    )) by {
                    if p != rp {
                        if rec_f {
                            assert(assoc_has_key(stf2.ops, p) == assoc_has_key(stf.ops, p));
                        }
                        if rec_n {
                            assert(assoc_has_key(stn2.ops, p) == assoc_has_key(stn.ops, p));
                        }
                    } else {
                        assert(assoc_has_key(stf2.ops, rp));
                        assert(assoc_has_key(stn2.ops, rp));
                    }
                }
                assert forall|p: Seq<char>|
                    #![trigger assoc_get(stn2.ops, p)]
                    !kset.contains(p) implies assoc_get(stf2.ops, p) == assoc_get(stn2.ops, p) by {
                    if p == rp {
                        assert(rec_f == rec_n);
                        if rec_n {
                            assert(assoc_get(stf2.ops, rp) == Some(FileEditType::Added));
                            assert(assoc_get(stn2.ops, rp) == Some(FileEditType::Added));
                        }
                    } else {
                        if rec_f {
                            assert(assoc_get(stf2.ops, p) == assoc_get(stf.ops, p));
                        }
                        if rec_n {
                            assert(assoc_get(stn2.ops, p) == assoc_get(stn.ops, p));
                        }
                    }
                }
                assert forall|p: Seq<char>|
                    #![trigger assoc_get(stf2.ops, p)]
                    kset.contains(p) implies assoc_get(stf2.ops, p) == (if assoc_get(stn2.ops, p)
                        == Some(FileEditType::Modified) {
                        Some(FileEditType::Modified)
                    } else {
                        assoc_get(bpre.ops, p)
                    }) by {
                    if p == rp {
                        assert(!rec_f);
                        assert(assoc_get(stf2.ops, rp) == assoc_get(stf.ops, rp));
                        if rec_n {
                            assert(assoc_get(stn2.ops, rp) == Some(FileEditType::Added));
                            assert(assoc_get(stn.ops, rp) is None);
                            assert(assoc_get(stf.ops, rp) == assoc_get(bpre.ops, rp));
                        } else {
                            assert(assoc_get(stn2.ops, rp) == assoc_get(stn.ops, rp));
                        }
                    } else {
                        if rec_f {
                            assert(assoc_get(stf2.ops, p) == assoc_get(stf.ops, p));
                        }
                        if rec_n {
                            assert(assoc_get(stn2.ops, p) == assoc_get(stn.ops, p));
                        }
                    }
                }
            }
        } else {
            assert(stf2 == stf && stn2 == stn);
        }
    } else {
        assert(stf2 == stf && stn2 == stn);
    }
}

proof fn lemma_scan_items_rel(bpre: BatchView, kset: Set<Seq<char>>, stf: ScanState,
    stn: ScanState, items: Seq<ItemView>, seq_no: u32, uuid: Option<Seq<char>>,
    ts: Option<Seq<char>>, project: Seq<char>)
    requires
        suffix_rel(bpre, kset, stf, stn),
    ensures
        suffix_rel(
            bpre,
            kset,
            scan_items(stf, items, seq_no, uuid, ts, project),
            scan_items(stn, items, seq_no, uuid, ts, project),
        ),
    decreases items.len(),
{
    if items.len() > 0 {
        lemma_scan_item_rel(bpre, kset, stf, stn, items[0], seq_no, uuid, ts, project);
        lemma_scan_items_rel(
            bpre,
            kset,
            scan_item(stf, items[0], seq_no, uuid, ts, project),
            scan_item(stn, items[0], seq_no, uuid, ts, project),
            items.drop_first(),
            seq_no,
            uuid,
            ts,
            project,
        );
    }
}

proof fn lemma_scan_record_rel(bpre: BatchView, kset: Set<Seq<char>>, stf: ScanState,
    stn: ScanState, rec: Option<RecordView>, seq_no: u32, project: Seq<char>)
    requires
        suffix_rel(bpre, kset, stf, stn),
    ensures
        suffix_rel(
            bpre,
            kset,
            scan_record(stf, rec, seq_no, project),
            scan_record(stn, rec, seq_no, project),
        ),
{
    match rec {
        None => {},
        Some(r) => {
            let stf1 = match r.uuid {
                Some(u) => ScanState {
                    uuid_to_line: assoc_put(stf.uuid_to_line, u, seq_no),
                    parent_map: match r.parent_uuid {
                        Some(p) => assoc_put(stf.parent_map, u, p),
                        None => stf.parent_map,
                    },
                    ..stf
                },
                None => stf,
            };
            let stn1 = match r.uuid {
                Some(u) => ScanState {
                    uuid_to_line: assoc_put(stn.uuid_to_line, u, seq_no),
                    parent_map: match r.parent_uuid {
                        Some(p) => assoc_put(stn.parent_map, u, p),
                        None => stn.parent_map,
                    },
                    ..stn
                },
                None => stn,
            };
            assert(suffix_rel(bpre, kset, stf1, stn1));
            let stf2 = if spec_is_human_turn(r) {
                ScanState {
                    human_message_lines: crate::types::hum_insert(stf1.human_message_lines, seq_no),
                    ..stf1
                }
            } else {
                stf1
            };
            let stn2 = if spec_is_human_turn(r) {
                ScanState {
                    human_message_lines: crate::types::hum_insert(stn1.human_message_lines, seq_no),
                    ..stn1
                }
            } else {
                stn1
            };
            assert(suffix_rel(bpre, kset, stf2, stn2));
            if r.entry_type == Some("assistant"@) {
                match r.content_items {
                    Some(items) => {
                        lemma_scan_items_rel(bpre, kset, stf2, stn2, items, seq_no, r.uuid,
                            r.timestamp, project);
                    },
                    None => {},
                }
            }
        },
    }
}

proof fn lemma_scan_fold_rel(bpre: BatchView, kset: Set<Seq<char>>, stf: ScanState,
    stn: ScanState, recs: Seq<Option<RecordView>>, start: int, project: Seq<char>)
    requires
        suffix_rel(bpre, kset, stf, stn),
    ensures
        suffix_rel(
            bpre,
            kset,
            scan_fold(stf, recs, start, project),
            scan_fold(stn, recs, start, project),
        ),
    decreases recs.len(),
{
    if recs.len() > 0 {
        lemma_scan_record_rel(bpre, kset, stf, stn, recs[0], start as u32, project);
        lemma_scan_fold_rel(
            bpre,
            kset,
            scan_record(stf, recs[0], start as u32, project),
            scan_record(stn, recs[0], start as u32, project),
            recs.drop_first(),
            start + 1,
            project,
        );
    }
}

/// The empty pass state satisfies the batch facts.
proof fn lemma_init_inv()
    ensures
        batch_inv(ScanState::init(), Set::empty()),
{
}

/// Incremental equivalence: indexing a log in one full pass, or indexing a
/// prefix and then extending over the appended records, derives the same
/// identifier map, the same human-turn boundaries, the same per-path line
/// lists and chain metadata, and the same file-edit list — timestamps
/// included, since every touch of a path carries it into the merge.
pub proof fn lemma_incremental_equivalence(pre: Seq<Option<RecordView>>,
    suf: Seq<Option<RecordView>>, project: Seq<char>)
    ensures
        ({
            let st_full = scan_fold(ScanState::init(), pre + suf, 0, project);
            let st_pre = scan_fold(ScanState::init(), pre, 0, project);
            let kset = assoc_key_set(st_pre.file_to_edit_lines);
            let stn0 = ScanState { ops: Seq::empty(), prior: Set::empty(), stamps: Seq::empty(), ..st_pre };
            let stn = scan_fold(stn0, suf, pre.len() as int, project);
            &&& stn.uuid_to_line == st_full.uuid_to_line
            &&& stn.parent_map == st_full.parent_map
            &&& stn.human_message_lines == st_full.human_message_lines
            &&& stn.edit_metadata == st_full.edit_metadata
            &&& stn.file_to_edit_lines == st_full.file_to_edit_lines
            &&& spec_merge(
                spec_finalize(st_pre.ops, st_pre.prior, st_pre.stamps),
                stn.ops,
                stn.prior,
                stn.stamps,
            ) == spec_finalize(st_full.ops, st_full.prior, st_full.stamps)
        }),
{
    let st_pre = scan_fold(ScanState::init(), pre, 0, project);
    let kset = assoc_key_set(st_pre.file_to_edit_lines);
    let stn0 = ScanState { ops: Seq::empty(), prior: Set::empty(), stamps: Seq::empty(), ..st_pre };
    let stn = scan_fold(stn0, suf, pre.len() as int, project);
    let st_full = scan_fold(ScanState::init(), pre + suf, 0, project);
    let bpre = BatchView { ops: st_pre.ops, prior: st_pre.prior, stamps: st_pre.stamps };

    lemma_init_inv();
    lemma_scan_fold_inv(ScanState::init(), pre, 0, project, Set::empty());
    assert(batch_inv(st_pre, Set::empty()));
    // With nothing known beforehand the touched paths are exactly the
    // recorded operations, so the key set the incremental pass relates
    // against is the key set of the prefix's batch.
    assert forall|p: Seq<char>| #[trigger]
        kset.contains(p) == assoc_has_key(bpre.ops, p) by {
        if assoc_has_key(bpre.ops, p) {
            assert(assoc_has_key(st_pre.file_to_edit_lines, p));
        }
        if kset.contains(p) {
            assert(assoc_has_key(st_pre.file_to_edit_lines, p));
        }
    }
    // The two passes start related and stay related.
    assert(suffix_rel(bpre, kset, st_pre, stn0)) by {
        assert forall|p: Seq<char>| #[trigger]
            assoc_has_key(st_pre.ops, p) == (kset.contains(p) || assoc_has_key(stn0.ops, p)) by {
            assert(!assoc_has_key(stn0.ops, p));
        }
        assert forall|p: Seq<char>|
            #![trigger assoc_get(stn0.ops, p)]
            !kset.contains(p) implies assoc_get(st_pre.ops, p) == assoc_get(stn0.ops, p) by {
            assert(!assoc_has_key(stn0.ops, p));
            assert(!assoc_has_key(st_pre.ops, p));
        }
        assert(batch_inv(stn0, kset));
    }
    lemma_scan_fold_rel(bpre, kset, st_pre, stn0, suf, pre.len() as int, project);
    lemma_scan_fold_append(ScanState::init(), pre, suf, 0, project);
    assert(st_full == scan_fold(st_pre, suf, pre.len() as int, project));
    assert(suffix_rel(bpre, kset, st_full, stn));

    // The file-edit lists: compare the finalized full batch with the merge
    // of the finalized prefix batch and the incremental batch, path by path.
    let e_pre = spec_finalize(bpre.ops, bpre.prior, bpre.stamps);
    let f_full = spec_finalize(st_full.ops, st_full.prior, st_full.stamps);
    assert forall|q: Seq<char>| #[trigger] edits_has_path(Seq::<EditView>::empty(), q)
        implies !assoc_has_key(bpre.ops, q) by {
        assert(false);
    }
    lemma_finalize_acc_pointwise(Seq::empty(), bpre.ops, bpre.prior, bpre.stamps);
    lemma_finalize_acc_pointwise(Seq::empty(), st_full.ops, st_full.prior, st_full.stamps);
    lemma_merge_pointwise(e_pre, stn.ops, stn.prior, stn.stamps);
    let m = spec_merge(e_pre, stn.ops, stn.prior, stn.stamps);

    assert forall|q: Seq<char>| #[trigger] edits_has_path(f_full, q) == edits_has_path(m, q) by {
        assert(edits_has_path(f_full, q) == assoc_has_key(st_full.ops, q));
        assert(edits_has_path(m, q) == (edits_has_path(e_pre, q) || assoc_has_key(stn.ops, q)));
        assert(edits_has_path(e_pre, q) == assoc_has_key(bpre.ops, q));
    }
    assert forall|q: Seq<char>| #[trigger] edits_has_path(f_full, q) implies edit_entry(f_full, q)
        == edit_entry(m, q) by {
        assert(assoc_has_key(st_full.ops, q));
        let full_e = finalize_edit(q, assoc_get(st_full.ops, q).unwrap(), st_full.prior,
            st_full.stamps);
        assert(edit_entry(f_full, q) == full_e);
        if assoc_has_key(stn.ops, q) {
            if kset.contains(q) {
                // Already indexed and touched again: the merge updates the
                // existing entry in place.
                assert(edits_has_path(e_pre, q));
                assert(edit_entry(m, q) == merged_entry(edit_entry(e_pre, q), q, stn.prior,
                    stn.stamps));
                assert(edit_entry(e_pre, q) == finalize_edit(q, assoc_get(bpre.ops, q).unwrap(),
                    bpre.prior, bpre.stamps));
                // Prior content seen by either pass forces the matching
                // recorded operation to Modified.
                if bpre.prior.contains(q) {
                    assert(assoc_get(bpre.ops, q) == Some(FileEditType::Modified));
                }
                if stn.prior.contains(q) {
                    assert(assoc_get(stn.ops, q) == Some(FileEditType::Modified));
                }
                assert(full_e == merged_entry(edit_entry(e_pre, q), q, stn.prior, stn.stamps))
                    by {
                    assert(st_full.prior.contains(q) == (bpre.prior.contains(q)
                        || stn.prior.contains(q)));
                    assert(assoc_get(st_full.ops, q) == (if assoc_get(stn.ops, q) == Some(
                        FileEditType::Modified,
                    ) {
                        Some(FileEditType::Modified)
                    } else {
                        assoc_get(bpre.ops, q)
                    }));
                    if assoc_has_key(stn.stamps, q) {
                        assert(assoc_get(st_full.stamps, q) == assoc_get(stn.stamps, q));
                    } else {
                        assert(assoc_get(st_full.stamps, q) == assoc_get(bpre.stamps, q));
                    }
                }
            } else {
                // A path first touched by this pass: the merge inserts the
                // batch-finalized entry.
                assert(!edits_has_path(e_pre, q)) by {
                    if assoc_has_key(bpre.ops, q) {
                        assert(kset.contains(q));
                    }
                }
                assert(edit_entry(m, q) == finalize_edit(q, assoc_get(stn.ops, q).unwrap(),
                    stn.prior, stn.stamps));
                if bpre.prior.contains(q) {
                    assert(assoc_get(bpre.ops, q) == Some(FileEditType::Modified));
                    assert(assoc_has_key(bpre.ops, q));
                    assert(false);
                }
                assert(st_full.prior.contains(q) == stn.prior.contains(q));
                assert(assoc_get(st_full.ops, q) == assoc_get(stn.ops, q));
                if assoc_has_key(stn.stamps, q) {
                    assert(assoc_get(st_full.stamps, q) == assoc_get(stn.stamps, q));
                } else {
                    assert(assoc_get(st_full.stamps, q) == assoc_get(bpre.stamps, q));
                    if assoc_has_key(bpre.stamps, q) {
                        assert(assoc_has_key(bpre.ops, q));
                        assert(kset.contains(q));
                        assert(false);
                    }
                    assert(assoc_get(bpre.stamps, q) is None);
                    assert(assoc_get(stn.stamps, q) is None);
                }
                assert(full_e == finalize_edit(q, assoc_get(stn.ops, q).unwrap(), stn.prior,
                    stn.stamps));
            }
        } else {
            // Not touched by this pass: the merge leaves the prefix entry,
            // and the full pass derived the same one. A stamped touch always
            // records an operation, so the stamps agree as well.
            assert(kset.contains(q));
            assert(edits_has_path(e_pre, q));
            assert(edit_entry(m, q) == edit_entry(e_pre, q));
            assert(edit_entry(e_pre, q) == finalize_edit(q, assoc_get(bpre.ops, q).unwrap(),
                bpre.prior, bpre.stamps));
            assert(assoc_get(stn.ops, q) != Some(FileEditType::Modified));
            assert(assoc_get(st_full.ops, q) == assoc_get(bpre.ops, q));
            if stn.prior.contains(q) {
                assert(assoc_get(stn.ops, q) == Some(FileEditType::Modified));
                assert(false);
            }
            assert(st_full.prior.contains(q) == bpre.prior.contains(q));
            assert(!assoc_has_key(stn.stamps, q));
            assert(assoc_get(st_full.stamps, q) == assoc_get(bpre.stamps, q));
            assert(full_e == finalize_edit(q, assoc_get(bpre.ops, q).unwrap(), bpre.prior,
                bpre.stamps));
        }
    }
    lemma_sorted_edits_unique(f_full, m);
}

/// A content item that invokes the given tool on the given
/// project-relative path.
pub open spec fn is_tool_item(item: ItemView, tool: Seq<char>, p: Seq<char>,
    project: Seq<char>) -> bool {
    &&& item.item_type == Some("tool_use"@)
    &&& item.tool_name == Some(tool)
    &&& match item.file_path {
        Some(fp) => crate::strutil::rel_path(fp, project) == p,
        None => false,
    }
}

/// An `Edit` invocation carrying a non-empty `old_string`: the signal that
/// the file had prior content.
pub open spec fn is_prior_edit_item(item: ItemView, p: Seq<char>, project: Seq<char>) -> bool {
    &&& is_tool_item(item, "Edit"@, p, project)
    &&& match item.old_string {
        Some(os) => os.len() > 0,
        None => false,
    }
}

/// A recognized touch of the path: an `Edit` or a `Write`.
pub open spec fn is_touch_item(item: ItemView, p: Seq<char>, project: Seq<char>) -> bool {
    is_tool_item(item, "Edit"@, p, project) || is_tool_item(item, "Write"@, p, project)
}

/// The content items the classifier reads from a scanned line: only an
/// assistant record's list-valued content counts.
pub open spec fn rec_items(rec: Option<RecordView>) -> Seq<ItemView> {
    match rec {
        Some(r) => if r.entry_type == Some("assistant"@) {
            match r.content_items {
                Some(items) => items,
                None => Seq::empty(),
            }
        } else {
            Seq::empty()
        },
        None => Seq::empty(),
    }
}

pub open spec fn items_edit(items: Seq<ItemView>, p: Seq<char>, project: Seq<char>) -> bool {
    exists|j: int| 0 <= j < items.len() && is_tool_item(#[trigger] items[j], "Edit"@, p, project)
}

pub open spec fn items_touch(items: Seq<ItemView>, p: Seq<char>, project: Seq<char>) -> bool {
    exists|j: int| 0 <= j < items.len() && is_touch_item(#[trigger] items[j], p, project)
}

pub open spec fn items_prior(items: Seq<ItemView>, p: Seq<char>, project: Seq<char>) -> bool {
    exists|j: int| 0 <= j < items.len() && is_prior_edit_item(#[trigger] items[j], p, project)
}

/// Some record of the run carries an `Edit` invocation of the path.
pub open spec fn recs_edit(recs: Seq<Option<RecordView>>, p: Seq<char>, project: Seq<char>)
    -> bool {
    exists|i: int| 0 <= i < recs.len() && items_edit(rec_items(#[trigger] recs[i]), p, project)
}

/// Some record of the run touches the path with `Edit` or `Write`.
pub open spec fn recs_touch(recs: Seq<Option<RecordView>>, p: Seq<char>, project: Seq<char>)
    -> bool {
    exists|i: int| 0 <= i < recs.len() && items_touch(rec_items(#[trigger] recs[i]), p, project)
}

/// Some record of the run edits the path with a non-empty `old_string`.
pub open spec fn recs_prior(recs: Seq<Option<RecordView>>, p: Seq<char>, project: Seq<char>)
    -> bool {
    exists|i: int| 0 <= i < recs.len() && items_prior(rec_items(#[trigger] recs[i]), p, project)
}

proof fn lemma_items_pred_unfold(items: Seq<ItemView>, p: Seq<char>, project: Seq<char>)
    requires
        items.len() > 0,
    ensures
        items_edit(items, p, project) == (is_tool_item(items[0], "Edit"@, p, project)
            || items_edit(items.drop_first(), p, project)),
        items_touch(items, p, project) == (is_touch_item(items[0], p, project) || items_touch(
            items.drop_first(),
            p,
            project,
        )),
        items_prior(items, p, project) == (is_prior_edit_item(items[0], p, project)
            || items_prior(items.drop_first(), p, project)),
{
    let d = items.drop_first();
    if items_edit(items, p, project) {
        let j = choose|j: int|
            0 <= j < items.len() && is_tool_item(#[trigger] items[j], "Edit"@, p, project);
        if j > 0 {
            assert(d[j - 1] == items[j]);
            assert(items_edit(d, p, project));
        }
    }
    if items_edit(d, p, project) {
        let j = choose|j: int| 0 <= j < d.len() && is_tool_item(#[trigger] d[j], "Edit"@, p, project);
        assert(items[j + 1] == d[j]);
        assert(items_edit(items, p, project));
    }
    if items_touch(items, p, project) {
        let j = choose|j: int| 0 <= j < items.len() && is_touch_item(#[trigger] items[j], p, project);
        if j > 0 {
            assert(d[j - 1] == items[j]);
            assert(items_touch(d, p, project));
        }
    }
    if items_touch(d, p, project) {
        let j = choose|j: int| 0 <= j < d.len() && is_touch_item(#[trigger] d[j], p, project);
        assert(items[j + 1] == d[j]);
        assert(items_touch(items, p, project));
    }
    if items_prior(items, p, project) {
        let j = choose|j: int|
            0 <= j < items.len() && is_prior_edit_item(#[trigger] items[j], p, project);
        if j > 0 {
            assert(d[j - 1] == items[j]);
            assert(items_prior(d, p, project));
        }
    }
    if items_prior(d, p, project) {
        let j = choose|j: int| 0 <= j < d.len() && is_prior_edit_item(#[trigger] d[j], p, project);
        assert(items[j + 1] == d[j]);
        assert(items_prior(items, p, project));
    }
}

proof fn lemma_recs_pred_unfold(recs: Seq<Option<RecordView>>, p: Seq<char>, project: Seq<char>)
    requires
        recs.len() > 0,
    ensures
        recs_edit(recs, p, project) == (items_edit(rec_items(recs[0]), p, project) || recs_edit(
            recs.drop_first(),
            p,
            project,
        )),
        recs_touch(recs, p, project) == (items_touch(rec_items(recs[0]), p, project) || recs_touch(
            recs.drop_first(),
            p,
            project,
        )),
        recs_prior(recs, p, project) == (items_prior(rec_items(recs[0]), p, project) || recs_prior(
            recs.drop_first(),
            p,
            project,
        )),
{
    let d = recs.drop_first();
    if recs_edit(recs, p, project) {
        let i = choose|i: int|
            0 <= i < recs.len() && items_edit(rec_items(#[trigger] recs[i]), p, project);
        if i > 0 {
            assert(d[i - 1] == recs[i]);
            assert(recs_edit(d, p, project));
        }
    }
    if recs_edit(d, p, project) {
        let i = choose|i: int| 0 <= i < d.len() && items_edit(rec_items(#[trigger] d[i]), p, project);
        assert(recs[i + 1] == d[i]);
        assert(recs_edit(recs, p, project));
    }
    if recs_touch(recs, p, project) {
        let i = choose|i: int|
            0 <= i < recs.len() && items_touch(rec_items(#[trigger] recs[i]), p, project);
        if i > 0 {
            assert(d[i - 1] == recs[i]);
            assert(recs_touch(d, p, project));
        }
    }
    if recs_touch(d, p, project) {
        let i = choose|i: int|
            0 <= i < d.len() && items_touch(rec_items(#[trigger] d[i]), p, project);
        assert(recs[i + 1] == d[i]);
        assert(recs_touch(recs, p, project));
    }
    if recs_prior(recs, p, project) {
        let i = choose|i: int|
            0 <= i < recs.len() && items_prior(rec_items(#[trigger] recs[i]), p, project);
        if i > 0 {
            assert(d[i - 1] == recs[i]);
            assert(recs_prior(d, p, project));
        }
    }
    if recs_prior(d, p, project) {
        let i = choose|i: int|
            0 <= i < d.len() && items_prior(rec_items(#[trigger] d[i]), p, project);
        assert(recs[i + 1] == d[i]);
        assert(recs_prior(recs, p, project));
    }
}

proof fn lemma_scan_item_chr(st: ScanState, item: ItemView, seq_no: u32, uuid: Option<Seq<char>>,
    ts: Option<Seq<char>>, project: Seq<char>)
    requires
        assoc_distinct(st.ops),
    ensures
        ({
            let st2 = scan_item(st, item, seq_no, uuid, ts, project);
            &&& assoc_distinct(st2.ops)
            &&& forall|p: Seq<char>|
                #[trigger] assoc_has_key(st2.ops, p) == (assoc_has_key(st.ops, p) || is_touch_item(
                    item,
                    p,
                    project,
                ))
            &&& forall|p: Seq<char>|
                #![trigger assoc_get(st2.ops, p)]
                (assoc_get(st2.ops, p) == Some(FileEditType::Modified)) == ((assoc_get(st.ops, p)
                    == Some(FileEditType::Modified)) || is_tool_item(item, "Edit"@, p, project))
            &&& forall|p: Seq<char>|
                #[trigger] st2.prior.contains(p) == (st.prior.contains(p) || is_prior_edit_item(
                    item,
                    p,
                    project,
                ))
        }),
{
    let st2 = scan_item(st, item, seq_no, uuid, ts, project);
    if item.item_type == Some("tool_use"@) && item.tool_name is Some && item.file_path is Some {
        let name = item.tool_name.unwrap();
        let fp = item.file_path.unwrap();
        let rp = crate::strutil::rel_path(fp, project);
        if name == "Edit"@ {
            assert(st2.ops == assoc_put(st.ops, rp, FileEditType::Modified));
            lemma_assoc_put_distinct(st.ops, rp, FileEditType::Modified);
            assert forall|p: Seq<char>| #[trigger]
                assoc_has_key(st2.ops, p) == (assoc_has_key(st.ops, p) || is_touch_item(
                    item,
                    p,
                    project,
                )) by {
                if p != rp {
                    assert(assoc_has_key(st2.ops, p) == assoc_has_key(st.ops, p));
                }
            }
            assert forall|p: Seq<char>|
                #![trigger assoc_get(st2.ops, p)]
                (assoc_get(st2.ops, p) == Some(FileEditType::Modified)) == ((assoc_get(st.ops, p)
                    == Some(FileEditType::Modified)) || is_tool_item(item, "Edit"@, p, project)) by {
                if p != rp {
                    assert(assoc_get(st2.ops, p) == assoc_get(st.ops, p));
                } else {
                    assert(assoc_get(st2.ops, rp) == Some(FileEditType::Modified));
                }
            }
        } else if name == "Write"@ {
            assert(st2.prior == st.prior);
            if !assoc_has_key(st.ops, rp) {
                assert(st2.ops == assoc_put(st.ops, rp, FileEditType::Added));
                lemma_assoc_put_distinct(st.ops, rp, FileEditType::Added);
                assert forall|p: Seq<char>| #[trigger]
                    assoc_has_key(st2.ops, p) == (assoc_has_key(st.ops, p) || is_touch_item(
                        item,
                        p,
                        project,
                    )) by {
                    if p != rp {
                        assert(assoc_has_key(st2.ops, p) == assoc_has_key(st.ops, p));
                    }
                }
                assert forall|p: Seq<char>|
                    #![trigger assoc_get(st2.ops, p)]
                    (assoc_get(st2.ops, p) == Some(FileEditType::Modified)) == ((assoc_get(
                        st.ops,
                        p,
                    ) == Some(FileEditType::Modified)) || is_tool_item(item, "Edit"@, p, project))
                    by {
                    if p != rp {
                        assert(assoc_get(st2.ops, p) == assoc_get(st.ops, p));
                    } else {
                        assert(assoc_get(st.ops, rp) is None);
                        assert(assoc_get(st2.ops, rp) == Some(FileEditType::Added));
                    }
                }
            } else {
                assert(st2.ops == st.ops);
            }
        } else {
            assert(st2 == st);
        }
    } else {
        assert(st2 == st);
    }
}

proof fn lemma_scan_items_chr(st: ScanState, items: Seq<ItemView>, seq_no: u32,
    uuid: Option<Seq<char>>, ts: Option<Seq<char>>, project: Seq<char>)
    requires
        assoc_distinct(st.ops),
    ensures
        ({
            let st2 = scan_items(st, items, seq_no, uuid, ts, project);
            &&& assoc_distinct(st2.ops)
            &&& forall|p: Seq<char>|
                #[trigger] assoc_has_key(st2.ops, p) == (assoc_has_key(st.ops, p) || items_touch(
                    items,
                    p,
                    project,
                ))
            &&& forall|p: Seq<char>|
                #![trigger assoc_get(st2.ops, p)]
                (assoc_get(st2.ops, p) == Some(FileEditType::Modified)) == ((assoc_get(st.ops, p)
                    == Some(FileEditType::Modified)) || items_edit(items, p, project))
            &&& forall|p: Seq<char>|
                #[trigger] st2.prior.contains(p) == (st.prior.contains(p) || items_prior(
                    items,
                    p,
                    project,
                ))
        }),
    decreases items.len(),
{
    if items.len() > 0 {
        lemma_scan_item_chr(st, items[0], seq_no, uuid, ts, project);
        let st1 = scan_item(st, items[0], seq_no, uuid, ts, project);
        lemma_scan_items_chr(st1, items.drop_first(), seq_no, uuid, ts, project);
        assert forall|p: Seq<char>|
            #[trigger] assoc_has_key(
                scan_items(st, items, seq_no, uuid, ts, project).ops,
                p,
            ) == (assoc_has_key(st.ops, p) || items_touch(items, p, project)) by {
            lemma_items_pred_unfold(items, p, project);
        }
        assert forall|p: Seq<char>|
            #![trigger assoc_get(scan_items(st, items, seq_no, uuid, ts, project).ops, p)]
            (assoc_get(scan_items(st, items, seq_no, uuid, ts, project).ops, p)
                == Some(FileEditType::Modified)) == ((assoc_get(st.ops, p) == Some(
                FileEditType::Modified,
            )) || items_edit(items, p, project)) by {
            lemma_items_pred_unfold(items, p, project);
        }
        assert forall|p: Seq<char>|
            #[trigger] scan_items(st, items, seq_no, uuid, ts, project).prior.contains(
                p,
            ) == (st.prior.contains(p) || items_prior(items, p, project)) by {
            lemma_items_pred_unfold(items, p, project);
        }
    }
}

proof fn lemma_scan_record_chr(st: ScanState, rec: Option<RecordView>, seq_no: u32,
    project: Seq<char>)
    requires
        assoc_distinct(st.ops),
    ensures
        ({
            let st2 = scan_record(st, rec, seq_no, project);
            &&& assoc_distinct(st2.ops)
            &&& forall|p: Seq<char>|
                #[trigger] assoc_has_key(st2.ops, p) == (assoc_has_key(st.ops, p) || items_touch(
                    rec_items(rec),
                    p,
                    project,
                ))
            &&& forall|p: Seq<char>|
                #![trigger assoc_get(st2.ops, p)]
                (assoc_get(st2.ops, p) == Some(FileEditType::Modified)) == ((assoc_get(st.ops, p)
                    == Some(FileEditType::Modified)) || items_edit(rec_items(rec), p, project))
            &&& forall|p: Seq<char>|
                #[trigger] st2.prior.contains(p) == (st.prior.contains(p) || items_prior(
                    rec_items(rec),
                    p,
                    project,
                ))
        }),
{
    match rec {
        None => {
            assert forall|p: Seq<char>| !items_touch(rec_items(rec), p, project) && !items_edit(
                rec_items(rec),
                p,
                project,
            ) && !items_prior(rec_items(rec), p, project) by {
                lemma_items_pred_empty(rec_items(rec), p, project);
            }
        },
        Some(r) => {
            let st1 = match r.uuid {
                Some(u) => ScanState {
                    uuid_to_line: assoc_put(st.uuid_to_line, u, seq_no),
                    parent_map: match r.parent_uuid {
                        Some(pp) => assoc_put(st.parent_map, u, pp),
                        None => st.parent_map,
                    },
                    ..st
                },
                None => st,
            };
            let st2 = if spec_is_human_turn(r) {
                ScanState {
                    human_message_lines: crate::types::hum_insert(st1.human_message_lines, seq_no),
                    ..st1
                }
            } else {
                st1
            };
            assert(st2.ops == st.ops && st2.prior == st.prior);
            if r.entry_type == Some("assistant"@) && r.content_items is Some {
                lemma_scan_items_chr(st2, r.content_items.unwrap(), seq_no, r.uuid, r.timestamp,
                    project);
            } else {
                assert forall|p: Seq<char>| !items_touch(rec_items(rec), p, project)
                    && !items_edit(rec_items(rec), p, project) && !items_prior(
                    rec_items(rec),
                    p,
                    project,
                ) by {
                    lemma_items_pred_empty(rec_items(rec), p, project);
                }
            }
        },
    }
}

proof fn lemma_items_pred_empty(items: Seq<ItemView>, p: Seq<char>, project: Seq<char>)
    requires
        items.len() == 0,
    ensures
        !items_touch(items, p, project),
        !items_edit(items, p, project),
        !items_prior(items, p, project),
{
}

proof fn lemma_scan_fold_chr(st: ScanState, recs: Seq<Option<RecordView>>, start: int,
    project: Seq<char>)
    requires
        assoc_distinct(st.ops),
    ensures
        ({
            let st2 = scan_fold(st, recs, start, project);
            &&& assoc_distinct(st2.ops)
            &&& forall|p: Seq<char>|
                #[trigger] assoc_has_key(st2.ops, p) == (assoc_has_key(st.ops, p) || recs_touch(
                    recs,
                    p,
                    project,
                ))
            &&& forall|p: Seq<char>|
                #![trigger assoc_get(st2.ops, p)]
                (assoc_get(st2.ops, p) == Some(FileEditType::Modified)) == ((assoc_get(st.ops, p)
                    == Some(FileEditType::Modified)) || recs_edit(recs, p, project))
            &&& forall|p: Seq<char>|
                #[trigger] st2.prior.contains(p) == (st.prior.contains(p) || recs_prior(
                    recs,
                    p,
                    project,
                ))
        }),
    decreases recs.len(),
{
    if recs.len() == 0 {
        assert forall|p: Seq<char>| !recs_touch(recs, p, project) && !recs_edit(recs, p, project)
            && !recs_prior(recs, p, project) by {
        }
    } else {
        lemma_scan_record_chr(st, recs[0], start as u32, project);
        let st1 = scan_record(st, recs[0], start as u32, project);
        lemma_scan_fold_chr(st1, recs.drop_first(), start + 1, project);
        let st2 = scan_fold(st, recs, start, project);
        assert forall|p: Seq<char>| #[trigger]
            assoc_has_key(st2.ops, p) == (assoc_has_key(st.ops, p) || recs_touch(
                recs,
                p,
                project,
            )) by {
            lemma_recs_pred_unfold(recs, p, project);
        }
        assert forall|p: Seq<char>|
            #![trigger assoc_get(st2.ops, p)]
            (assoc_get(st2.ops, p) == Some(FileEditType::Modified)) == ((assoc_get(st.ops, p)
                == Some(FileEditType::Modified)) || recs_edit(recs, p, project)) by {
            lemma_recs_pred_unfold(recs, p, project);
        }
        assert forall|p: Seq<char>| #[trigger]
            st2.prior.contains(p) == (st.prior.contains(p) || recs_prior(recs, p, project)) by {
            lemma_recs_pred_unfold(recs, p, project);
        }
    }
}

/// Classification correctness: a full build lists exactly the touched
/// paths, and classifies a path as Modified exactly when some `Edit`
/// invocation on it carried a non-empty `old_string`. In particular an
/// `Edit` with prior content classifies the path as Modified whatever
/// `Write`s surround it; a path only ever written is Added; and an `Edit`
/// whose `old_string` is empty or absent, with no prior content seen
/// elsewhere, is Added as well.
pub proof fn lemma_classification_correctness(recs: Seq<Option<RecordView>>, project: Seq<char>)
    ensures
        ({
            let st = scan_fold(ScanState::init(), recs, 0, project);
            let edits = spec_finalize(st.ops, st.prior, st.stamps);
            &&& forall|p: Seq<char>|
                #[trigger] edits_has_path(edits, p) == recs_touch(recs, p, project)
            &&& forall|p: Seq<char>|
                #[trigger] edits_has_path(edits, p) ==> (edit_entry(edits, p).edit_type
                    == FileEditType::Modified) == recs_prior(recs, p, project)
        }),
{
    let st = scan_fold(ScanState::init(), recs, 0, project);
    let edits = spec_finalize(st.ops, st.prior, st.stamps);
    lemma_scan_fold_chr(ScanState::init(), recs, 0, project);
    assert forall|q: Seq<char>| #[trigger] edits_has_path(Seq::<EditView>::empty(), q)
        implies !assoc_has_key(st.ops, q) by {
        assert(false);
    }
    lemma_finalize_acc_pointwise(Seq::empty(), st.ops, st.prior, st.stamps);
    assert forall|p: Seq<char>| #[trigger]
        edits_has_path(edits, p) == recs_touch(recs, p, project) by {
        assert(assoc_has_key(ScanState::init().ops, p) == false);
    }
    assert forall|p: Seq<char>| #[trigger] edits_has_path(edits, p) implies (edit_entry(
        edits,
        p,
    ).edit_type == FileEditType::Modified) == recs_prior(recs, p, project) by {
        assert(assoc_has_key(st.ops, p));
        assert(edit_entry(edits, p) == finalize_edit(p, assoc_get(st.ops, p).unwrap(), st.prior,
            st.stamps));
        // Modified survives finalization exactly when prior content was
        // seen, and prior content comes only from a prior-carrying Edit,
        // which itself forces the recorded operation to Modified.
        if recs_prior(recs, p, project) {
            assert(st.prior.contains(p));
            lemma_recs_prior_implies_edit(recs, p, project);
            assert(recs_edit(recs, p, project));
            assert(assoc_get(st.ops, p) == Some(FileEditType::Modified));
        } else {
            assert(!st.prior.contains(p));
        }
    }
}

proof fn lemma_recs_prior_implies_edit(recs: Seq<Option<RecordView>>, p: Seq<char>,
    project: Seq<char>)
    requires
        recs_prior(recs, p, project),
    ensures
        recs_edit(recs, p, project),
{
    let i = choose|i: int|
        0 <= i < recs.len() && items_prior(rec_items(#[trigger] recs[i]), p, project);
    let items = rec_items(recs[i]);
    let j = choose|j: int| 0 <= j < items.len() && is_prior_edit_item(#[trigger] items[j], p, project);
    assert(is_tool_item(items[j], "Edit"@, p, project));
    assert(items_edit(items, p, project));
    assert(recs_edit(recs, p, project));
}

/// The context walk is bounded: starting from one collected line, it
/// collects at most one line per unit of fuel, and the fuel is the number
/// of parent links — an upper bound on any chain that never revisits a
/// line. Termination itself is machine-checked by the walk's decreases
/// clause; this states the bound the walk respects.
pub proof fn lemma_walk_bounded(uuid_m: Seq<(Seq<char>, u32)>, parent_m: Seq<(Seq<char>, Seq<char>)>,
    human: Seq<u32>, acc: Seq<u32>, cur: Option<Seq<char>>, fuel: nat)
    ensures
        crate::queries::spec_walk(uuid_m, parent_m, human, acc, cur, fuel).len() <= acc.len()
            + fuel,
    decreases fuel,
{
    match cur {
        None => {},
        Some(u) => {
            if fuel > 0 {
                match assoc_get(parent_m, u) {
                    None => {},
                    Some(p) => match assoc_get(uuid_m, p) {
                        None => {},
                        Some(pl) => {
                            if !acc.contains(pl) && !human.contains(pl) {
                                lemma_walk_bounded(uuid_m, parent_m, human, acc.push(pl), Some(p),
                                    (fuel - 1) as nat);
                            }
                        },
                    },
                }
            }
        },
    }
}

/// Scanning a run of lines in two halves scans each half.
pub proof fn lemma_scans_of_append(a: Seq<Seq<u8>>, b: Seq<Seq<u8>>)
    ensures
        crate::model::scans_of(a + b) == crate::model::scans_of(a) + crate::model::scans_of(b),
{
    assert(crate::model::scans_of(a + b) =~= crate::model::scans_of(a) + crate::model::scans_of(
        b,
    ));
}

/// Incremental equivalence at the index level, over the log's bytes: an
/// index built over a prefix's lines and then updated over the appended
/// lines derives the same identifier map, human-turn boundaries, per-path
/// line lists, chain metadata and file edits as one full build over all the
/// lines. Together with the builder's and updater's contracts this is the
/// executable statement: both passes scan each line to `scans_of` of its
/// bytes.
pub proof fn lemma_incremental_equivalence_for_indexes(m_full: IndexModel, m_pre: IndexModel,
    m_upd: IndexModel, lines_pre: Seq<Seq<u8>>, lines_suf: Seq<Seq<u8>>, project: Seq<char>,
    full_size: u64, full_mtime: u64, pre_size: u64, pre_mtime: u64, upd_size: u64, upd_mtime: u64)
    requires
        build_rel(
            m_full,
            crate::model::scans_of(lines_pre + lines_suf),
            lines_pre + lines_suf,
            project,
            full_size,
            full_mtime,
        ),
        build_rel(m_pre, crate::model::scans_of(lines_pre), lines_pre, project, pre_size,
            pre_mtime),
        crate::model::update_rel(m_pre, m_upd, crate::model::scans_of(lines_suf), lines_suf,
            project, upd_size, upd_mtime),
    ensures
        m_upd.uuid_to_line == m_full.uuid_to_line,
        m_upd.parent_map == m_full.parent_map,
        m_upd.human_message_lines == m_full.human_message_lines,
        m_upd.edit_metadata == m_full.edit_metadata,
        m_upd.file_to_edit_lines == m_full.file_to_edit_lines,
        m_upd.file_edits == m_full.file_edits,
{
    let pre = crate::model::scans_of(lines_pre);
    let suf = crate::model::scans_of(lines_suf);
    lemma_scans_of_append(lines_pre, lines_suf);
    let st_pre = scan_fold(ScanState::init(), pre, 0, project);
    let kset = assoc_key_set(st_pre.file_to_edit_lines);
    let stn0 = ScanState { ops: Seq::empty(), prior: Set::empty(), stamps: Seq::empty(), ..st_pre };
    assert(m_pre.file_to_edit_lines == st_pre.file_to_edit_lines);
    assert(crate::model::ScanState::from_index(m_pre) == stn0);
    lemma_offsets_len(lines_pre, 0);
    assert(m_pre.line_offsets.len() == lines_pre.len());
    assert(m_pre.line_offsets.len() as int == pre.len() as int);
    let stn = scan_fold(stn0, suf, pre.len() as int, project);
    lemma_incremental_equivalence(pre, suf, project);
    let st_full = scan_fold(ScanState::init(), pre + suf, 0, project);
    assert(m_full.uuid_to_line == st_full.uuid_to_line);
    assert(m_upd.uuid_to_line == stn.uuid_to_line);
    assert(m_upd.file_edits == spec_merge(m_pre.file_edits, stn.ops, stn.prior, stn.stamps));
    assert(m_pre.file_edits == spec_finalize(st_pre.ops, st_pre.prior, st_pre.stamps));
    assert(m_full.file_edits == spec_finalize(st_full.ops, st_full.prior, st_full.stamps));
}

/// Classification correctness at the index level: a built index lists
/// exactly the touched paths, classified Modified exactly when some `Edit`
/// invocation on the path carried a non-empty `old_string`.
pub proof fn lemma_classification_for_build(m: IndexModel, lines: Seq<Seq<u8>>,
    project: Seq<char>, fsize: u64, mtime: u64)
    requires
        build_rel(m, crate::model::scans_of(lines), lines, project, fsize, mtime),
    ensures
        forall|p: Seq<char>|
            #[trigger] edits_has_path(m.file_edits, p) == recs_touch(
                crate::model::scans_of(lines),
                p,
                project,
            ),
        forall|p: Seq<char>|
            #[trigger] edits_has_path(m.file_edits, p) ==> (edit_entry(m.file_edits, p).edit_type
                == FileEditType::Modified) == recs_prior(
                crate::model::scans_of(lines),
                p,
                project,
            ),
{
    lemma_classification_correctness(crate::model::scans_of(lines), project);
}

} // verus!
