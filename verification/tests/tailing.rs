use filewatch::file_watch::{
    extract_lines, should_handle_event, u64_to_dec, ChangeKind, LogsMessage, TailAction, Tailer,
};

fn lines(v: &[&str]) -> Vec<String> {
    v.iter().map(|s| s.to_string()).collect()
}

#[test]
fn extract_lines_splits_on_newlines() {
    assert_eq!(extract_lines("a\nb\n"), lines(&["a", "b"]));
    assert_eq!(extract_lines("x\ny"), lines(&["x", "y"]));
}

#[test]
fn extract_lines_empty_input_gives_no_lines() {
    assert_eq!(extract_lines(""), lines(&[]));
    assert_eq!(extract_lines("\n"), lines(&[]));
    assert_eq!(extract_lines("\n\n\n"), lines(&[]));
}

#[test]
fn extract_lines_drops_empty_lines() {
    assert_eq!(extract_lines("a\n\nb\n"), lines(&["a", "b"]));
    assert_eq!(extract_lines("\na\n"), lines(&["a"]));
}

#[test]
fn extract_lines_strips_carriage_return_before_newline() {
    assert_eq!(extract_lines("a\r\nb\r\n"), lines(&["a", "b"]));
    assert_eq!(extract_lines("\r\n"), lines(&[]));
}

#[test]
fn extract_lines_keeps_final_unterminated_line() {
    assert_eq!(extract_lines("abc"), lines(&["abc"]));
    assert_eq!(extract_lines("a\nbc"), lines(&["a", "bc"]));
    // without a newline after it, a trailing carriage return stays
    assert_eq!(extract_lines("ab\r"), lines(&["ab\r"]));
}

#[test]
fn extract_lines_keeps_interior_carriage_returns() {
    assert_eq!(extract_lines("a\rb\n"), lines(&["a\rb"]));
}

#[test]
fn u64_to_dec_renders_decimal() {
    assert_eq!(u64_to_dec(0), "0");
    assert_eq!(u64_to_dec(7), "7");
    assert_eq!(u64_to_dec(42), "42");
    assert_eq!(u64_to_dec(1005), "1005");
    assert_eq!(u64_to_dec(u64::MAX), "18446744073709551615");
}

#[test]
fn content_change_policy_accepts_only_data_modifications() {
    assert!(should_handle_event(&ChangeKind::ModifyData));
    assert!(should_handle_event(&ChangeKind::ModifyUnknown));
    assert!(should_handle_event(&ChangeKind::ModifyOther));
    assert!(!should_handle_event(&ChangeKind::ModifyMetadata));
    assert!(!should_handle_event(&ChangeKind::ModifyName));
    assert!(!should_handle_event(&ChangeKind::Create));
    assert!(!should_handle_event(&ChangeKind::Remove));
    assert!(!should_handle_event(&ChangeKind::Access));
    assert!(!should_handle_event(&ChangeKind::OtherEvent));
    assert!(!should_handle_event(&ChangeKind::NotifyError));
}

#[test]
fn unchanged_length_is_a_no_op() {
    let mut t = Tailer {
        file_id: "log.txt".to_string(),
        cursor: 10,
    };
    let action = t.on_length(10);
    assert!(matches!(action, TailAction::Ignore));
    assert_eq!(t.cursor, 10);
}

#[test]
fn truncation_emits_one_diagnostic_line_and_resets_cursor() {
    let mut t = Tailer {
        file_id: "log.txt".to_string(),
        cursor: 10,
    };
    let action = t.on_length(5);
    match action {
        TailAction::Truncated { batch } => {
            assert_eq!(batch.file_id, "log.txt");
            assert_eq!(
                batch.lines,
                lines(&["filewatch: File truncated to position 5"])
            );
        }
        _ => panic!("expected a truncation"),
    }
    assert_eq!(t.cursor, 5);
}

#[test]
fn growth_after_truncation_reads_only_from_the_new_length() {
    let mut t = Tailer {
        file_id: "log.txt".to_string(),
        cursor: 10,
    };
    let truncated = t.on_length(4);
    assert!(matches!(truncated, TailAction::Truncated { .. }));
    // the stale interval [4, 10) is never read again
    let action = t.on_length(9);
    match action {
        TailAction::Grow { start, end } => {
            assert_eq!(start, 4);
            assert_eq!(end, 9);
        }
        _ => panic!("expected a growth"),
    }
}

#[test]
fn growth_emits_the_lines_of_the_read_interval() {
    let mut t = Tailer::new("a.log".to_string());
    assert_eq!(t.cursor, 0);
    let action = t.on_length(8);
    assert!(matches!(action, TailAction::Grow { start: 0, end: 8 }));
    let batch = t.apply_growth(8, "one\ntwo\n");
    assert_eq!(batch.file_id, "a.log");
    assert_eq!(batch.lines, lines(&["one", "two"]));
    assert_eq!(t.cursor, 8);
}

#[test]
fn exactly_once_over_a_sequence_of_appends() {
    // every chunk but the last ends with a newline, so the lines extracted
    // chunk by chunk are the lines of the whole content, each exactly once
    let chunks = ["alpha\n", "beta\ngamma\n", "delta"];
    let whole: String = chunks.concat();

    let mut t = Tailer::new("f".to_string());
    let mut emitted: Vec<String> = Vec::new();
    let mut len: u64 = 0;
    for chunk in chunks {
        len += chunk.len() as u64;
        match t.on_length(len) {
            TailAction::Grow { start, end } => {
                assert_eq!(start + chunk.len() as u64, end);
                let batch = t.apply_growth(end, chunk);
                emitted.extend(batch.lines);
            }
            _ => panic!("expected a growth"),
        }
    }
    assert_eq!(emitted, extract_lines(&whole));
    assert_eq!(emitted, lines(&["alpha", "beta", "gamma", "delta"]));
}

#[test]
fn batches_carry_their_file_id() {
    let m = LogsMessage {
        lines: lines(&["x"]),
        file_id: "p".to_string(),
    };
    assert_eq!(m.file_id, "p");
    assert_eq!(m.lines.len(), 1);
}
