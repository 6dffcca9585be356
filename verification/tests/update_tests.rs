use session_index::{apply_incremental_update, build_session_index, rebuild_index, FileEdit,
    SessionIndex};

fn build(log: &str, project: &str) -> SessionIndex {
    build_session_index(log.as_bytes(), log.len() as u64, 1, project)
}

/// Join raw log lines, terminating each with a line feed.
fn join(parts: &[&str]) -> String {
    let mut s = String::new();
    for p in parts {
        s.push_str(p);
    }
    s
}

fn same_edits(a: &[FileEdit], b: &[FileEdit]) -> bool {
    a.len() == b.len() && a.iter().zip(b.iter()).all(|(x, y)| {
        x.path == y.path && x.edit_type == y.edit_type && x.last_edited_at == y.last_edited_at
    })
}

fn prefix() -> String {
    join(&[
        "{\"type\":\"user\",\"userType\":\"external\",\"uuid\":\"u1\"}\n",
        "{\"type\":\"assistant\",\"uuid\":\"a1\",\"parentUuid\":\"u1\",\"timestamp\":\"t1\",\"message\":{\"content\":[",
        "{\"type\":\"tool_use\",\"name\":\"Write\",\"input\":{\"file_path\":\"/proj/one.rs\"}}]}}\n",
    ])
}

fn suffix() -> String {
    join(&[
        "{\"type\":\"user\",\"userType\":\"external\",\"uuid\":\"u2\",\"parentUuid\":\"a1\"}\n",
        "{\"type\":\"assistant\",\"uuid\":\"a2\",\"parentUuid\":\"u2\",\"timestamp\":\"t2\",\"message\":{\"content\":[",
        "{\"type\":\"tool_use\",\"name\":\"Edit\",\"input\":{\"file_path\":\"/proj/one.rs\",\"old_string\":\"fn\"}},",
        "{\"type\":\"tool_use\",\"name\":\"Write\",\"input\":{\"file_path\":\"/proj/two.rs\"}}]}}\n",
    ])
}

#[test]
fn incremental_update_matches_full_build() {
    let full: String = format!("{}{}", prefix(), suffix());
    let reference = build(&full, "/proj");

    let mut index = build(&prefix(), "/proj");
    apply_incremental_update(&mut index, suffix().as_bytes(), full.len() as u64, 2, "/proj");

    assert_eq!(index.file_size, full.len() as u64);
    assert_eq!(index.last_modified, 2);
    assert_eq!(index.total_events(), reference.total_events());
    assert_eq!(index.line_offsets, reference.line_offsets);
    assert_eq!(index.human_message_lines, reference.human_message_lines);
    assert!(same_edits(&index.file_edits, &reference.file_edits));
    for uuid in ["u1", "a1", "u2", "a2"] {
        assert_eq!(index.line_for_uuid(uuid), reference.line_for_uuid(uuid));
    }
    // The prefix-known path was promoted by the suffix's prior-content edit.
    assert_eq!(index.file_edits[0].path, "one.rs");
    assert_eq!(index.file_edits[0].edit_type, session_index::FileEditType::Modified);
    assert_eq!(index.file_edits[0].last_edited_at.as_deref(), Some("t2"));
    assert_eq!(index.file_edits[1].path, "two.rs");
    assert_eq!(index.file_edits[1].edit_type, session_index::FileEditType::Added);
}

#[test]
fn noop_update_leaves_the_index_alone() {
    let mut index = build(&prefix(), "/proj");
    let before_events = index.total_events();
    let before_edits = index.file_edits.len();
    // An empty byte range with the same baseline recomputes nothing.
    let size = index.file_size;
    apply_incremental_update(&mut index, b"", size, 1, "/proj");
    assert_eq!(index.total_events(), before_events);
    assert_eq!(index.file_edits.len(), before_edits);
    assert_eq!(index.file_size, size);
}

#[test]
fn rebuild_matches_fresh_build() {
    let full: String = format!("{}{}", prefix(), suffix());
    let reference = build(&prefix(), "/proj");
    // Start from the larger log, then pretend it was truncated back.
    let mut index = build(&full, "/proj");
    rebuild_index(&mut index, prefix().as_bytes(), prefix().len() as u64, 1, "/proj");
    assert_eq!(index.total_events(), reference.total_events());
    assert_eq!(index.line_offsets, reference.line_offsets);
    assert_eq!(index.human_message_lines, reference.human_message_lines);
    assert!(same_edits(&index.file_edits, &reference.file_edits));
}

#[test]
fn update_context_spans_the_appended_records() {
    let full: String = format!("{}{}", prefix(), suffix());
    let mut index = build(&prefix(), "/proj");
    apply_incremental_update(&mut index, suffix().as_bytes(), full.len() as u64, 2, "/proj");
    // Line 3 holds the suffix's edits; its chain walks back to u2 at line 2.
    let ctx = session_index::get_edit_context(&index, 3).unwrap();
    assert_eq!(ctx.lines, vec![2, 3]);
    assert_eq!(ctx.trigger_line, 2);
    assert_eq!(ctx.edit_line, 3);
}

#[test]
fn update_refreshes_timestamp_on_write_of_known_path() {
    // The appended records only Write an already-indexed path, with a new
    // timestamp: the entry keeps its classification but takes the new
    // timestamp, exactly as a full build over the same bytes would.
    let tail = join(&[
        "{\"type\":\"assistant\",\"uuid\":\"a9\",\"timestamp\":\"t9\",\"message\":{\"content\":[",
        "{\"type\":\"tool_use\",\"name\":\"Write\",\"input\":{\"file_path\":\"/proj/one.rs\"}}]}}\n",
    ]);
    let full: String = format!("{}{}", prefix(), tail);
    let reference = build(&full, "/proj");

    let mut index = build(&prefix(), "/proj");
    assert_eq!(index.file_edits[0].last_edited_at.as_deref(), Some("t1"));
    apply_incremental_update(&mut index, tail.as_bytes(), full.len() as u64, 2, "/proj");

    assert_eq!(index.file_edits.len(), 1);
    assert_eq!(index.file_edits[0].path, "one.rs");
    assert_eq!(index.file_edits[0].edit_type, session_index::FileEditType::Added);
    assert_eq!(index.file_edits[0].last_edited_at.as_deref(), Some("t9"));
    assert!(same_edits(&index.file_edits, &reference.file_edits));
}
