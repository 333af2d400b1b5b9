use agentseek_desktop::logging::{
    check_retention_days, cleanup_cutoffs, cleanup_excess, compact_runtime_log_record, legacy_log_cursor,
    reached_cursor, read_runtime_log_records, read_runtime_log_tail, retention_report, runtime_log_field,
    runtime_log_spool_paths, runtime_stream_level, spool_start, strip_ansi_codes,
    sync_runtime_log_spools, truncate_log_text, RuntimeLogCursor,
};
use agentseek_desktop::models::MAX_LOG_TEXT_BYTES;

#[test]
fn long_texts_are_cut_behind_a_whole_character() {
    let short = "x".repeat(MAX_LOG_TEXT_BYTES);
    assert_eq!(truncate_log_text(short.clone()), short);
    let long = "é".repeat(MAX_LOG_TEXT_BYTES);
    let expected = format!("{}\n...[log content truncated]", "é".repeat(MAX_LOG_TEXT_BYTES / 2));
    assert_eq!(truncate_log_text(long), expected);
}

#[test]
fn spool_files_stay_in_their_directory() {
    let (log, cursor) = runtime_log_spool_paths("/d", "../a b/ö.x", false);
    assert!(log.starts_with("/d/runtime-logs/") && log.ends_with(".log"));
    assert!(cursor.ends_with(".cursor"));
    let name = log.rsplit('/').next().expect("a name");
    assert!(!name[..name.len() - 4].contains(['/', '.', ' ']));
}

#[test]
fn marks_are_read_in_both_forms() {
    assert_eq!(legacy_log_cursor(" 12\n").offset, 12);
    assert_eq!(legacy_log_cursor("x").offset, 0);
    assert_eq!(spool_start(5, 5), 5);
    assert_eq!(spool_start(6, 5), 0);
}

#[test]
fn lines_are_read_with_the_position_behind_them() {
    let records = read_runtime_log_records("a\r\nè\n\nrest", 10, true);
    let expected: Vec<(String, u64)> = [("a", 13), ("è", 16), ("", 17), ("rest", 21)]
        .iter()
        .map(|(text, position)| (text.to_string(), *position))
        .collect();
    assert_eq!(records, expected);
    assert_eq!(read_runtime_log_records("a\nrest", 0, false).len(), 1);
    assert_eq!(read_runtime_log_tail(None, 3), "");
    assert!(read_runtime_log_tail(Some("a\nb\nc\n"), 2).ends_with("b\nc"));
}

#[test]
fn codes_of_terminals_are_left_out() {
    assert_eq!(strip_ansi_codes("\u{1b}[31mred\u{1b}[0m x"), "red x");
    assert_eq!(strip_ansi_codes("plain"), "plain");
    assert_eq!(runtime_log_field("a name=web.fetch b", "name=").as_deref(), Some("web.fetch"));
    assert_eq!(runtime_log_field("a b", "name="), None);
    assert_eq!(runtime_stream_level("plain output"), "info");
}

#[test]
fn tracebacks_are_left_out_until_their_reason() {
    let mut suppress = false;
    assert_eq!(
        compact_runtime_log_record("\u{1b}[31mhello\u{1b}[0m", &mut suppress).as_deref(),
        Some("\u{1b}[31mhello\u{1b}[0m")
    );
    assert_eq!(
        compact_runtime_log_record("tool.call.error", &mut suppress).as_deref(),
        Some("Tool call failed: unknown")
    );
    assert!(suppress);
    assert_eq!(compact_runtime_log_record("   ", &mut suppress), None);
    assert_eq!(
        compact_runtime_log_record("INFO: next", &mut suppress).as_deref(),
        Some("INFO: next")
    );
    assert!(!suppress);
}

#[test]
fn the_spool_is_taken_over_step_by_step() {
    let records: Vec<(String, u64)> = [
        ("tool.call.error name=x", 10),
        ("Traceback (most recent call last):", 20),
        ("ValueError: bad", 30),
        ("fine", 40),
    ]
    .iter()
    .map(|(text, position)| (text.to_string(), *position))
    .collect();
    let cursor = RuntimeLogCursor { offset: 5, suppress_traceback: false };
    let steps = sync_runtime_log_spools(&cursor, 5, &records);
    let messages: Vec<Option<&str>> = steps.iter().map(|step| step.message.as_deref()).collect();
    assert_eq!(
        messages,
        vec![
            Some("Tool call failed: x"),
            None,
            Some("Failure reason: ValueError: bad"),
            Some("fine")
        ]
    );
    assert!(steps[1].cursor.suppress_traceback);
    assert_eq!(steps[1].cursor.offset, 20);
    assert!(!steps[2].cursor.suppress_traceback);
    assert_eq!(steps[0].level, "error");
    // A file that starts anew does not go on leaving out.
    let stale = RuntimeLogCursor { offset: 500, suppress_traceback: true };
    let steps = sync_runtime_log_spools(&stale, 0, &records[1..2].to_vec());
    assert!(steps[0].message.is_some());
}

#[test]
fn storages_clean_up_by_age_and_number() {
    let day = 86_400;
    assert_eq!(cleanup_cutoffs(3, 10 * day), (7 * day, 3 * day));
    assert_eq!(cleanup_cutoffs(0, 10 * day), (9 * day, 3 * day));
    assert_eq!(cleanup_cutoffs(30, 10 * day), (0, 3 * day));
    assert_eq!(cleanup_excess(100_000), 0);
    assert_eq!(cleanup_excess(100_001), 1_001);
    assert_eq!(check_retention_days(1), Ok(()));
    assert_eq!(check_retention_days(3650), Ok(()));
    assert_eq!(
        check_retention_days(3651),
        Err("Runtime log retention days must be between 1 and 3650".to_string())
    );
    assert_eq!(
        retention_report(7, 3),
        "Runtime log retention set to 7 days; cleaned up 3 log entries"
    );
}

#[test]
fn reading_goes_on_at_the_mark() {
    let text = "a\r\nè\nlast\n";
    let all = read_runtime_log_records(text, 10, false);
    let mark = all[1].1;
    let read = (mark - 10) as usize;
    assert_eq!(read_runtime_log_records(&text[read..], mark, false), all[2..]);

    let cursor = RuntimeLogCursor { offset: 10, suppress_traceback: true };
    let steps = sync_runtime_log_spools(&cursor, 10, &all);
    assert_eq!(reached_cursor(&cursor, 10, &steps, 0), None);
    let reached = reached_cursor(&cursor, 10, &steps, 2).expect("a mark");
    assert_eq!(reached.offset, mark);
    assert_eq!(
        reached_cursor(&cursor, 0, &Vec::new(), 0),
        Some(RuntimeLogCursor { offset: 0, suppress_traceback: false })
    );
}
