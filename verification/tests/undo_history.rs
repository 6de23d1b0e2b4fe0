use rsedit_core::buffer::buffer_trait::BufferTrait;
use rsedit_core::buffer::gap_buffer::GapBuffer;
use rsedit_core::buffer::undo::{apply_delete, apply_insert, Command, UndoHistory, AMALGAMATION_LIMIT};

fn typed(history: &mut UndoHistory, text: &mut GapBuffer, s: &str, command: Command) {
    for c in s.chars() {
        let at = text.cursor_pos_1d();
        apply_insert(text, at, &c.to_string());
        history.record_insert(at, 1, at, command);
    }
}

#[test]
fn undo_takes_back_a_command_and_redo_puts_it_again() {
    let mut text = GapBuffer::from_text("abc");
    let mut history = UndoHistory::default();
    let first = Command::after(Command::outside(), 1, false);
    apply_insert(&mut text, 3, "def");
    history.record_insert(3, 3, 3, first);
    assert_eq!(text.to_string(), "abcdef");

    assert_eq!(history.undo(&mut text), Some(3));
    assert_eq!(text.to_string(), "abc");
    assert_eq!(history.redo(&mut text), Some(3));
    assert_eq!(text.to_string(), "abcdef");
    assert_eq!(history.undo(&mut text), Some(3));
    assert_eq!(text.to_string(), "abc");
    assert_eq!(history.undo(&mut text), None);
}

#[test]
fn undoing_a_deletion_puts_the_text_back() {
    let mut text = GapBuffer::from_text("hello world");
    let mut history = UndoHistory::default();
    let command = Command::after(Command::outside(), 1, false);
    apply_delete(&mut text, 5, 11);
    history.record_delete(5, " world".to_string(), 11, command);
    assert_eq!(text.to_string(), "hello");
    assert_eq!(history.undo(&mut text), Some(11));
    assert_eq!(text.to_string(), "hello world");
    assert_eq!(history.redo(&mut text), Some(5));
    assert_eq!(text.to_string(), "hello");
}

#[test]
fn a_run_of_typing_undoes_as_one_step() {
    let mut text = GapBuffer::default();
    let mut history = UndoHistory::default();
    let mut previous = Command::outside();
    let mut epoch = 1;
    for c in "word".chars() {
        let command = Command::after(previous, epoch, true);
        typed(&mut history, &mut text, &c.to_string(), command);
        previous = command;
        epoch += 1;
    }
    assert_eq!(history.open_insert_len(), 4);
    assert_eq!(text.to_string(), "word");
    assert_eq!(history.undo(&mut text), Some(0));
    assert_eq!(text.to_string(), "");
}

#[test]
fn a_long_run_of_typing_breaks_at_the_amalgamation_limit() {
    let mut text = GapBuffer::default();
    let mut history = UndoHistory::default();
    let mut previous = Command::outside();
    let total = AMALGAMATION_LIMIT + 5;
    for i in 0..total {
        let command = Command::after(previous, (i + 1) as u64, true);
        typed(&mut history, &mut text, "x", command);
        previous = command;
    }
    assert_eq!(text.to_string().len(), total);
    history.undo(&mut text);
    assert_eq!(text.to_string().len(), AMALGAMATION_LIMIT);
    history.undo(&mut text);
    assert_eq!(text.to_string(), "");
}

#[test]
fn different_commands_undo_separately() {
    let mut text = GapBuffer::default();
    let mut history = UndoHistory::default();
    let first = Command::after(Command::outside(), 1, false);
    let second = Command::after(first, 2, false);
    typed(&mut history, &mut text, "ab", first);
    typed(&mut history, &mut text, "cd", second);
    assert_eq!(history.undo(&mut text), Some(2));
    assert_eq!(text.to_string(), "ab");
    assert_eq!(history.undo(&mut text), Some(0));
    assert_eq!(text.to_string(), "");
}

#[test]
fn a_fresh_edit_drops_what_could_be_redone() {
    let mut text = GapBuffer::default();
    let mut history = UndoHistory::default();
    let first = Command::after(Command::outside(), 1, false);
    typed(&mut history, &mut text, "ab", first);
    history.undo(&mut text);
    let second = Command::after(first, 2, false);
    typed(&mut history, &mut text, "z", second);
    assert_eq!(history.redo(&mut text), None);
    assert_eq!(text.to_string(), "z");
}

#[test]
fn the_limit_drops_the_oldest_groups_but_keeps_the_latest() {
    let mut text = GapBuffer::from_text("aaaabbbb");
    let mut history = UndoHistory::default();
    history.set_limit(3);
    let first = Command::after(Command::outside(), 1, false);
    apply_delete(&mut text, 4, 8);
    history.record_delete(4, "bbbb".to_string(), 8, first);
    let second = Command::after(first, 2, false);
    apply_delete(&mut text, 0, 4);
    history.record_delete(0, "aaaa".to_string(), 4, second);
    history.boundary();
    assert_eq!(text.to_string(), "");
    assert_eq!(history.undo(&mut text), Some(4));
    assert_eq!(text.to_string(), "aaaa");
    assert_eq!(history.undo(&mut text), None);
}

#[test]
fn commands_join_only_typing_after_typing() {
    let typing = Command::after(Command::outside(), 1, true);
    let more = Command::after(typing, 2, true);
    let other = Command::after(more, 3, false);
    assert!(!typing.joins_previous);
    assert!(more.joins_previous);
    assert!(!other.joins_previous);
    assert_eq!(more.epoch, 2);
}

#[test]
fn apply_delete_clamps_to_the_text() {
    let mut text = GapBuffer::from_text("abc");
    apply_delete(&mut text, 1, 100);
    assert_eq!(text.to_string(), "a");
    assert_eq!(text.cursor_pos_1d(), 1);
    apply_delete(&mut text, 5, 9);
    assert_eq!(text.to_string(), "a");
}

#[test]
fn apply_insert_past_the_end_appends() {
    let mut text = GapBuffer::from_text("ab");
    apply_insert(&mut text, 10, "cd");
    assert_eq!(text.to_string(), "abcd");
    assert_eq!(text.cursor_pos_1d(), 4);
}
