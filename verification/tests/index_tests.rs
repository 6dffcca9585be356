use session_index::{build_session_index, get_edit_context, update_decision, FileEditType,
    IndexError, SessionIndex, UpdateResult};

fn build(log: &str, project: &str) -> SessionIndex {
    build_session_index(log.as_bytes(), log.len() as u64, 1, project)
}

/// Join raw log lines, terminating each with a line feed.
fn join(parts: &[&str]) -> String {
    let mut s = String::new();
    for p in parts {
        s.push_str(p);
    }
    s
}

#[test]
fn empty_log_builds_empty_index() {
    let index = build("", "/proj");
    assert_eq!(index.total_events(), 0);
    assert_eq!(index.human_message_lines.len(), 0);
    assert_eq!(index.file_edits.len(), 0);
    let status = index.to_status();
    assert!(status.ready);
    assert_eq!(status.total_events, 0);
    assert_eq!(status.file_edits_count, 0);
    assert_eq!(status.files_edited_count, 0);
    assert!(status.error.is_none());
}

#[test]
fn offsets_are_contiguous() {
    let log = "{\"type\":\"user\"}\nnot json at all\n{\"uuid\":\"u9\"}\n";
    let index = build(&log, "/proj");
    assert_eq!(index.total_events(), 3);
    for i in 0..index.line_offsets.len() - 1 {
        let (off, len) = index.line_offsets[i];
        assert_eq!(off + len as u64, index.line_offsets[i + 1].0);
    }
    assert_eq!(index.line_offsets[0], (0, 16));
    // The malformed middle line still accounts for its byte span.
    assert_eq!(index.line_offsets[1], (16, 16));
    assert_eq!(index.line_for_uuid("u9"), Some(2));
}

#[test]
fn uuid_and_parent_maps_are_filled() {
    let log = join(&[
        "{\"type\":\"user\",\"userType\":\"external\",\"uuid\":\"u1\"}\n",
        "{\"type\":\"assistant\",\"uuid\":\"a1\",\"parentUuid\":\"u1\"}\n",
    ]);
    let index = build(&log, "/proj");
    assert_eq!(index.line_for_uuid("u1"), Some(0));
    assert_eq!(index.line_for_uuid("a1"), Some(1));
    assert_eq!(index.line_for_uuid("missing"), None);
    assert_eq!(index.parent_of("a1").map(|s| s.as_str()), Some("u1"));
    assert!(index.parent_of("u1").is_none());
}

#[test]
fn human_turn_predicate_cases() {
    let log = join(&[
        "{\"type\":\"user\",\"userType\":\"external\",\"uuid\":\"u1\"}\n",
        "{\"type\":\"user\",\"userType\":\"external\",\"uuid\":\"u2\",\"message\":{\"content\":[{\"type\":\"tool_result\"}]}}\n",
        "{\"type\":\"user\",\"userType\":\"external\",\"uuid\":\"u3\",\"isMeta\":true}\n",
        "{\"type\":\"user\",\"userType\":\"external\",\"uuid\":\"u4\",\"isCompactSummary\":true}\n",
        "{\"type\":\"user\",\"userType\":\"agent\",\"uuid\":\"u5\"}\n",
        "{\"type\":\"user\",\"userType\":\"external\",\"uuid\":\"u6\",\"message\":{\"content\":\"hi\"}}\n",
    ]);
    let index = build(&log, "/proj");
    assert_eq!(index.human_message_lines, vec![0, 5]);
    assert!(index.is_human_message(0));
    assert!(!index.is_human_message(1));
    assert!(!index.is_human_message(2));
    assert!(index.is_human_message(5));
}

#[test]
fn classification_edit_with_prior_content_is_modified() {
    let log = join(&[
        "{\"type\":\"assistant\",\"uuid\":\"a1\",\"message\":{\"content\":[",
        "{\"type\":\"tool_use\",\"name\":\"Edit\",\"input\":{\"file_path\":\"/proj/a.rs\",\"old_string\":\"x\"}}]}}\n",
        "{\"type\":\"assistant\",\"uuid\":\"a2\",\"message\":{\"content\":[",
        "{\"type\":\"tool_use\",\"name\":\"Write\",\"input\":{\"file_path\":\"/proj/a.rs\"}}]}}\n",
    ]);
    let index = build(&log, "/proj");
    assert_eq!(index.file_edits.len(), 1);
    assert_eq!(index.file_edits[0].path, "a.rs");
    assert_eq!(index.file_edits[0].edit_type, FileEditType::Modified);
}

#[test]
fn classification_write_only_is_added() {
    let log = join(&[
        "{\"type\":\"assistant\",\"uuid\":\"a1\",\"message\":{\"content\":[",
        "{\"type\":\"tool_use\",\"name\":\"Write\",\"input\":{\"file_path\":\"/proj/b.rs\"}}]}}\n",
    ]);
    let index = build(&log, "/proj");
    assert_eq!(index.file_edits.len(), 1);
    assert_eq!(index.file_edits[0].path, "b.rs");
    assert_eq!(index.file_edits[0].edit_type, FileEditType::Added);
}

#[test]
fn classification_edit_without_prior_content_is_added() {
    let log = join(&[
        "{\"type\":\"assistant\",\"uuid\":\"a1\",\"message\":{\"content\":[",
        "{\"type\":\"tool_use\",\"name\":\"Edit\",\"input\":{\"file_path\":\"/proj/c.rs\",\"old_string\":\"\"}}]}}\n",
    ]);
    let index = build(&log, "/proj");
    assert_eq!(index.file_edits.len(), 1);
    assert_eq!(index.file_edits[0].path, "c.rs");
    assert_eq!(index.file_edits[0].edit_type, FileEditType::Added);
}

#[test]
fn file_edits_are_sorted_by_path_with_timestamps() {
    let log = join(&[
        "{\"type\":\"assistant\",\"uuid\":\"a1\",\"timestamp\":\"t1\",\"message\":{\"content\":[",
        "{\"type\":\"tool_use\",\"name\":\"Write\",\"input\":{\"file_path\":\"/proj/zz.rs\"}}]}}\n",
        "{\"type\":\"assistant\",\"uuid\":\"a2\",\"timestamp\":\"t2\",\"message\":{\"content\":[",
        "{\"type\":\"tool_use\",\"name\":\"Write\",\"input\":{\"file_path\":\"/proj/aa.rs\"}}]}}\n",
        "{\"type\":\"assistant\",\"uuid\":\"a3\",\"timestamp\":\"t3\",\"message\":{\"content\":[",
        "{\"type\":\"tool_use\",\"name\":\"Edit\",\"input\":{\"file_path\":\"/proj/zz.rs\",\"old_string\":\"q\"}}]}}\n",
    ]);
    let index = build(&log, "/proj");
    assert_eq!(index.file_edits.len(), 2);
    assert_eq!(index.file_edits[0].path, "aa.rs");
    assert_eq!(index.file_edits[0].last_edited_at.as_deref(), Some("t2"));
    assert_eq!(index.file_edits[1].path, "zz.rs");
    assert_eq!(index.file_edits[1].edit_type, FileEditType::Modified);
    assert_eq!(index.file_edits[1].last_edited_at.as_deref(), Some("t3"));
    // Both touches of zz.rs are recorded against it, in order.
    assert_eq!(index.file_to_edit_lines.get("zz.rs"), Some(&vec![0, 2]));
    assert_eq!(index.file_to_edit_lines.get("aa.rs"), Some(&vec![1]));
}

#[test]
fn paths_outside_the_project_root_pass_through() {
    let log = join(&[
        "{\"type\":\"assistant\",\"uuid\":\"a1\",\"message\":{\"content\":[",
        "{\"type\":\"tool_use\",\"name\":\"Write\",\"input\":{\"file_path\":\"/etc/hosts\"}}]}}\n",
    ]);
    let index = build(&log, "/proj");
    assert_eq!(index.file_edits[0].path, "/etc/hosts");
}

#[test]
fn project_root_trailing_slashes_are_ignored() {
    let log = join(&[
        "{\"type\":\"assistant\",\"uuid\":\"a1\",\"message\":{\"content\":[",
        "{\"type\":\"tool_use\",\"name\":\"Write\",\"input\":{\"file_path\":\"/proj/sub/d.rs\"}}]}}\n",
    ]);
    let index = build(&log, "/proj//");
    assert_eq!(index.file_edits[0].path, "sub/d.rs");
}

#[test]
fn find_human_boundary_cases() {
    let log = join(&[
        "{\"type\":\"assistant\",\"uuid\":\"a0\"}\n",
        "{\"type\":\"user\",\"userType\":\"external\",\"uuid\":\"u1\"}\n",
        "{\"type\":\"assistant\",\"uuid\":\"a1\"}\n",
        "{\"type\":\"user\",\"userType\":\"external\",\"uuid\":\"u2\"}\n",
    ]);
    let index = build(&log, "/proj");
    assert_eq!(index.human_message_lines, vec![1, 3]);
    assert_eq!(index.find_human_boundary(0), None);
    assert_eq!(index.find_human_boundary(1), Some(1));
    assert_eq!(index.find_human_boundary(2), Some(1));
    assert_eq!(index.find_human_boundary(3), Some(3));
    assert_eq!(index.find_human_boundary(9), Some(3));
}

#[test]
fn scenario_write_under_root_with_context() {
    let log = join(&[
        "{\"type\":\"user\",\"userType\":\"external\",\"uuid\":\"u1\"}\n",
        "{\"type\":\"assistant\",\"uuid\":\"a1\",\"parentUuid\":\"u1\",\"message\":{\"content\":[",
        "{\"type\":\"tool_use\",\"name\":\"Write\",\"input\":{\"file_path\":\"/proj/x.txt\"}}]}}\n",
    ]);
    let index = build(&log, "/proj");
    assert_eq!(index.file_edits.len(), 1);
    assert_eq!(index.file_edits[0].path, "x.txt");
    assert_eq!(index.file_edits[0].edit_type, FileEditType::Added);
    let ctx = get_edit_context(&index, 1).unwrap();
    assert_eq!(ctx.trigger_line, 0);
    assert_eq!(ctx.edit_line, 1);
    assert_eq!(ctx.lines, vec![0, 1]);
}

#[test]
fn edit_context_without_metadata_fails() {
    let log = "{\"type\":\"user\",\"userType\":\"external\",\"uuid\":\"u1\"}\n";
    let index = build(&log, "/proj");
    assert!(matches!(get_edit_context(&index, 0), Err(IndexError::MissingEditMetadata)));
}

#[test]
fn edit_context_terminates_on_a_parent_cycle() {
    let log = join(&[
        "{\"type\":\"assistant\",\"uuid\":\"a1\",\"parentUuid\":\"a2\",\"message\":{\"content\":[",
        "{\"type\":\"tool_use\",\"name\":\"Edit\",\"input\":{\"file_path\":\"/proj/f\",\"old_string\":\"x\"}}]}}\n",
        "{\"type\":\"assistant\",\"uuid\":\"a2\",\"parentUuid\":\"a1\"}\n",
    ]);
    let index = build(&log, "/proj");
    let ctx = get_edit_context(&index, 0).unwrap();
    // The walk visits the cycle once, then stops; no human turn exists, so
    // the trigger falls back to zero.
    assert_eq!(ctx.lines, vec![1, 0]);
    assert_eq!(ctx.trigger_line, 0);
    assert_eq!(ctx.edit_line, 0);
}

#[test]
fn edit_context_stops_when_parent_is_outside_the_index() {
    let log = join(&[
        "{\"type\":\"assistant\",\"uuid\":\"a1\",\"parentUuid\":\"ghostly\",\"message\":{\"content\":[",
        "{\"type\":\"tool_use\",\"name\":\"Write\",\"input\":{\"file_path\":\"/proj/f\"}}]}}\n",
    ]);
    let index = build(&log, "/proj");
    let ctx = get_edit_context(&index, 0).unwrap();
    assert_eq!(ctx.lines, vec![0]);
    assert_eq!(ctx.trigger_line, 0);
}

#[test]
fn update_decision_cases() {
    let log = "{\"type\":\"user\",\"userType\":\"external\",\"uuid\":\"u1\"}\n";
    let index = build(&log, "/proj");
    let size = log.len() as u64;
    // Unchanged, twice in a row: deciding mutates nothing.
    assert_eq!(update_decision(&index, size, 1), UpdateResult::Unchanged);
    assert_eq!(update_decision(&index, size, 1), UpdateResult::Unchanged);
    // A smaller file always forces a rebuild.
    assert_eq!(update_decision(&index, size - 1, 2), UpdateResult::Rebuilt);
    // Growth, or an equal size with a new stamp, extends incrementally.
    assert_eq!(update_decision(&index, size + 10, 2), UpdateResult::Updated);
    assert_eq!(update_decision(&index, size, 2), UpdateResult::Updated);
}

#[test]
fn duplicate_identifiers_last_seen_wins() {
    let log = join(&[
        "{\"type\":\"assistant\",\"uuid\":\"dup\"}\n",
        "{\"type\":\"assistant\",\"uuid\":\"dup\"}\n",
    ]);
    let index = build(&log, "/proj");
    assert_eq!(index.line_for_uuid("dup"), Some(1));
    // The entry was replaced, not duplicated.
    assert_eq!(index.uuid_to_line.len(), 1);
}

#[test]
fn carriage_return_is_stripped_from_the_span() {
    let log = "{\"uuid\":\"r1\"}\r\n";
    let index = build(log, "/proj");
    assert_eq!(index.total_events(), 1);
    // The span counts the stripped content plus one terminator.
    assert_eq!(index.line_offsets[0], (0, 14));
    assert_eq!(index.line_for_uuid("r1"), Some(0));
}

#[test]
fn unrecognized_tools_are_ignored() {
    let log = join(&[
        "{\"type\":\"assistant\",\"uuid\":\"a1\",\"message\":{\"content\":[",
        "{\"type\":\"tool_use\",\"name\":\"Bash\",\"input\":{\"file_path\":\"/proj/e.rs\"}},",
        "{\"type\":\"tool_use\",\"name\":\"Edit\",\"input\":{}},",
        "{\"type\":\"text\"}]}}\n",
    ]);
    let index = build(&log, "/proj");
    assert_eq!(index.file_edits.len(), 0);
    assert!(index.edit_metadata.len() == 0);
}

#[test]
fn status_constructors() {
    let b = session_index::IndexStatus::building();
    assert!(!b.ready);
    assert_eq!(b.total_events, 0);
    assert!(b.error.is_none());
    let e = session_index::IndexStatus::error("broken".to_string());
    assert!(!e.ready);
    assert_eq!(e.error.as_deref(), Some("broken"));
}

#[test]
fn relative_path_rule() {
    assert_eq!(session_index::make_relative_path("/proj/a/b.rs", "/proj"), "a/b.rs");
    assert_eq!(session_index::make_relative_path("/proj/a/b.rs", "/proj///"), "a/b.rs");
    assert_eq!(session_index::make_relative_path("/elsewhere/c.rs", "/proj"), "/elsewhere/c.rs");
    assert_eq!(session_index::make_relative_path("/proj", "/proj"), "");
    // A sibling path that merely shares the root's text is not under the
    // root: it passes through unchanged.
    assert_eq!(session_index::make_relative_path("/project/x", "/proj"), "/project/x");
    assert_eq!(session_index::make_relative_path("/proj.bak/x", "/proj"), "/proj.bak/x");
}

#[test]
fn sibling_of_the_root_passes_through() {
    let log = join(&[
        "{\"type\":\"assistant\",\"uuid\":\"a1\",\"message\":{\"content\":[",
        "{\"type\":\"tool_use\",\"name\":\"Write\",\"input\":{\"file_path\":\"/project/x\"}}]}}\n",
    ]);
    let index = build(&log, "/proj");
    assert_eq!(index.file_edits[0].path, "/project/x");
}

#[test]
fn wrong_typed_fields_reject_the_record_and_null_reads_as_absent() {
    let log = join(&[
        // A numeric identifier is a schema violation: the record is skipped.
        "{\"type\":\"user\",\"userType\":\"external\",\"uuid\":5}\n",
        // A null field reads as absent, not as a violation.
        "{\"type\":\"user\",\"userType\":\"external\",\"uuid\":\"u2\",\"parentUuid\":null}\n",
    ]);
    let index = build(&log, "/proj");
    assert_eq!(index.total_events(), 2);
    assert_eq!(index.line_for_uuid("u2"), Some(1));
    assert!(index.parent_of("u2").is_none());
    assert_eq!(index.human_message_lines, vec![1]);
}
