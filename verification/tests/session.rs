use rsedit_core::editor::EditorState;

#[test]
fn a_new_session_runs_until_it_quits() {
    let mut s = EditorState::new(0);
    assert!(s.is_running());
    s.quit();
    assert!(!s.is_running());
}

#[test]
fn the_echo_message_reads_back_what_was_written() {
    let mut s = EditorState::new(0);
    assert_eq!(s.get_echo_message(), "");
    s.set_echo_message("Wrote file", 1_000);
    assert_eq!(s.get_echo_message(), "Wrote file");
    assert_eq!(s.echo_expiry_in(1_200, Some(500)), Some(300));
    // Stored as written, whether or not it is still shown.
    assert_eq!(s.echo_expiry_in(2_000, Some(500)), None);
    assert_eq!(s.get_echo_message(), "Wrote file");
}

#[test]
fn the_log_keeps_every_line_oldest_first() {
    let mut s = EditorState::new(0);
    s.log_diagnostic("one".to_string());
    s.log_diagnostic("two".to_string());
    assert_eq!(s.get_logs(), vec!["one".to_string(), "two".to_string()]);
}

#[test]
fn taking_the_backtrace_suffix_clears_it() {
    let mut s = EditorState::new(0);
    assert_eq!(s.take_backtrace_suffix(), "");
    s.capture_backtrace(vec!["inner".to_string(), "outer".to_string()]);
    assert_eq!(s.backtrace(), vec!["inner".to_string(), "outer".to_string()]);
    assert_eq!(s.take_backtrace_suffix(), " | backtrace: inner -> outer");
    assert!(s.backtrace().is_empty());
    s.capture_backtrace(vec!["f".to_string()]);
    s.clear_backtrace();
    assert!(s.backtrace().is_empty());
}
