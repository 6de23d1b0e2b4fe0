use rsedit_core::gap_buffer::GapBuffer;

#[test]
fn test_initialization() {
    let buf = GapBuffer::new();
    // Ensure the string is empty but the gap exists
    assert_eq!(buf.to_string(), "");
    assert!(buf.gap_width() > 0);
}

#[test]
fn test_basic_typing_and_unicode() {
    let mut buf = GapBuffer::new();
    buf.insert('R');
    buf.insert('u');
    buf.insert('s');
    buf.insert('t');
    buf.insert(' ');
    buf.insert('🦀');
    buf.insert('ℵ');
    assert_eq!(buf.to_string(), "Rust 🦀ℵ");
}

#[test]
fn test_gap_movement_and_insertion() {
    let mut buf = GapBuffer::new();
    for c in "Hello World".chars() {
        buf.insert(c);
    }
    buf.move_gap(5);
    buf.insert(',');
    assert_eq!(buf.to_string(), "Hello, World");
}

#[test]
fn test_backspace_with_unicode() {
    let mut buf = GapBuffer::new();
    for c in "Logic 💡".chars() {
        buf.insert(c);
    }
    buf.delete();
    assert_eq!(buf.to_string(), "Logic ");
    buf.move_gap(2);
    buf.delete();
    assert_eq!(buf.to_string(), "Lgic ");
}

#[test]
fn test_moving_gap_to_extremes() {
    let mut buf = GapBuffer::new();
    for c in "Limit".chars() {
        buf.insert(c);
    }
    buf.move_gap(0);
    buf.insert('>');
    assert_eq!(buf.to_string(), ">Limit");
    let len = buf.to_string().chars().count();
    buf.move_gap(len);
    buf.insert('<');
    assert_eq!(buf.to_string(), ">Limit<");
}

#[test]
fn test_buffer_growth() {
    let mut buf = GapBuffer::new();
    let long_string = "Specialized Unicode: 🚀💎🌈".repeat(50);
    for c in long_string.chars() {
        buf.insert(c);
    }
    assert_eq!(buf.to_string(), long_string);
    buf.move_gap(10);
    buf.insert('!');
    assert!(buf.to_string().contains("Specialize!d"));
}

#[test]
fn test_complex_unicode_ordering() {
    let mut buf = GapBuffer::new();
    let input = "नमस्ते";
    for c in input.chars() {
        buf.insert(c);
    }
    buf.move_gap(2);
    buf.insert('X');
    let result = buf.to_string();
    assert!(result.contains('X'));
    assert_eq!(result.chars().count(), input.chars().count() + 1);
}

#[test]
fn a_new_buffer_keeps_its_gap_until_it_is_filled() {
    let mut buf = GapBuffer::new();
    let before = buf.gap_width();
    buf.insert('a');
    assert_eq!(buf.gap_width(), before - 1);
    buf.delete();
    assert_eq!(buf.gap_width(), before);
    assert_eq!(buf.cursor_pos(), 0);
}

#[test]
fn moving_to_a_line_and_column_lands_on_that_character() {
    let mut buf = GapBuffer::new();
    for c in "ab\ncde\nf".chars() {
        buf.insert(c);
    }
    assert_eq!(buf.cursor_line_col(), (2, 1));
    buf.move_to_line_col(1, 2);
    assert_eq!(buf.cursor_pos(), 5);
    assert_eq!(buf.cursor_line_col(), (1, 2));
    // A column past the end of its line stops at the line's end.
    buf.move_to_line_col(0, 9);
    assert_eq!(buf.cursor_pos(), 2);
}
