use rsedit_core::buffer::buffer_trait::BufferTrait;
use rsedit_core::buffer::gap_buffer::GapBuffer;

#[test]
fn gap_buffer_test_initialization() {
    let buf = GapBuffer::default();
    // Ensure the string is empty but the gap exists
    assert_eq!(buf.to_string(), "");
    assert!(buf.gap_width() > 0);
}

#[test]
fn gap_buffer_test_basic_typing_and_unicode() {
    let mut buf = GapBuffer::default();
    buf.insert('R');
    buf.insert('u');
    buf.insert('s');
    buf.insert('t');
    buf.insert(' ');
    buf.insert('🦀');
    buf.insert('ℵ');
    assert_eq!(buf.to_string(), "Rust 🦀ℵ");
}

#[test]
fn gap_buffer_test_gap_movement_and_insertion() {
    let mut buf = GapBuffer::default();
    for c in "Hello World".chars() {
        buf.insert(c);
    }
    buf.move_gap(5);
    buf.insert(',');
    assert_eq!(buf.to_string(), "Hello, World");
}

#[test]
fn gap_buffer_test_backspace_with_unicode() {
    let mut buf = GapBuffer::default();
    for c in "Logic 💡".chars() {
        buf.insert(c);
    }
    buf.delete();
    assert_eq!(buf.to_string(), "Logic ");
    buf.move_gap(2);
    buf.delete();
    assert_eq!(buf.to_string(), "Lgic ");
}

#[test]
fn gap_buffer_test_moving_gap_to_extremes() {
    let mut buf = GapBuffer::default();
    for c in "Limit".chars() {
        buf.insert(c);
    }
    buf.move_gap(0);
    buf.insert('>');
    assert_eq!(buf.to_string(), ">Limit");
    let len = buf.to_string().chars().count();
    buf.move_gap(len);
    buf.insert('<');
    assert_eq!(buf.to_string(), ">Limit<");
}

#[test]
fn gap_buffer_test_buffer_growth() {
    let mut buf = GapBuffer::default();
    let long_string = "Specialized Unicode: 🚀💎🌈".repeat(50);
    for c in long_string.chars() {
        buf.insert(c);
    }
    assert_eq!(buf.to_string(), long_string);
    buf.move_gap(10);
    buf.insert('!');
    assert!(buf.to_string().contains("Specialize!d"));
}

#[test]
fn gap_buffer_test_complex_unicode_ordering() {
    let mut buf = GapBuffer::default();
    let input = "नमस्ते";
    for c in input.chars() {
        buf.insert(c);
    }
    buf.move_gap(2);
    buf.insert('X');
    let result = buf.to_string();
    assert!(result.contains('X'));
    assert_eq!(result.chars().count(), input.chars().count() + 1);
}

fn setup_test_buffer<B: BufferTrait>(text: &str) -> B {
    B::from_text(text)
}

#[test]
fn test_empty_buffer_invariants() {
    let mut buf = setup_test_buffer::<GapBuffer>("");
    assert_eq!(buf.len(), 0);
    assert_eq!(buf.cursor_pos(), (0, 0));
    assert_eq!(buf.cursor_pos_1d(), 0);
    assert_eq!(buf.at(0), None);
    assert_eq!(buf.at_line_col(0, 0), None);
    assert!(!buf.cursor_move_forward());
    assert!(!buf.cursor_move_backward());
    buf.delete();
    assert_eq!(buf.len(), 0);
}

#[test]
fn test_coordinate_translations_and_clamping() {
    let buf = setup_test_buffer::<GapBuffer>("abc\ndefg\nhij");
    assert_eq!(buf.cursor_2d_to_1d(0, 0), 0);
    assert_eq!(buf.cursor_2d_to_1d(0, 3), 3);
    assert_eq!(buf.cursor_2d_to_1d(1, 0), 4);
    assert_eq!(buf.cursor_1d_to_2d(3), (0, 3));
    assert_eq!(buf.cursor_1d_to_2d(4), (1, 0));
    let out_of_col = buf.cursor_2d_to_1d(0, 10);
    assert!(
        out_of_col <= 4,
        "Should clamp to line length or newline boundaries"
    );
    let out_of_line = buf.cursor_2d_to_1d(10, 0);
    assert!(
        out_of_line <= buf.len(),
        "Out of bounds coordinates must clamp safely to EOF"
    );
}

#[test]
fn test_movement_and_traversal() {
    let mut buf = setup_test_buffer::<GapBuffer>("a\nb\nc");
    let mut steps = 0;
    while buf.cursor_move_forward() {
        steps += 1;
    }
    assert_eq!(steps, 5);
    assert_eq!(buf.cursor_pos_1d(), 5);
    assert!(buf.cursor_move_backward());
    assert_eq!(buf.cursor_pos_1d(), 4);
    buf.cursor_move(1, 1);
    assert_eq!(buf.cursor_pos_1d(), 3);
    assert_eq!(buf.at(3), Some('\n'));
}

#[test]
fn test_search_mechanisms() {
    let mut buf = setup_test_buffer::<GapBuffer>("hello\nworld\nhello");
    buf.cursor_move(1, 0);
    assert_eq!(buf.find_forward('h'), Some(12));
    assert_eq!(buf.find_backward('h'), Some(0));
    assert_eq!(buf.find_forward('z'), None);
    assert_eq!(buf.find_backward('z'), None);
}

#[test]
fn test_unicode_boundary_safety() {
    let mut buf = setup_test_buffer::<GapBuffer>("🦀\n🚀");
    assert_eq!(buf.len(), 3);
    assert_eq!(buf.at(0), Some('🦀'));
    assert_eq!(buf.at(2), Some('🚀'));
    buf.cursor_move(0, 0);
    assert_eq!(buf.cursor_pos_1d(), 0);
    buf.cursor_move_forward();
    assert_eq!(buf.cursor_pos_1d(), 1);
    assert_eq!(buf.at(buf.cursor_pos_1d()), Some('\n'));
}

#[test]
fn test_viewport_line_extraction() {
    let text = "Line 0\nLine 1\nLine 2\nLine 3\nLine 4\nLine 5";
    let buf = setup_test_buffer::<GapBuffer>(text);
    assert_eq!(buf.line_count(), 6);
    let viewport = buf.get_lines(2, 4);
    assert_eq!(viewport.len(), 2);
    assert_eq!(viewport[0], "Line 2");
    assert_eq!(viewport[1], "Line 3");
    let end_viewport = buf.get_lines(4, 7);
    assert_eq!(end_viewport.len(), 3);
    assert_eq!(end_viewport[0], "Line 4");
    assert_eq!(end_viewport[1], "Line 5");
    assert_eq!(end_viewport[2], "");
}

/// A buffer of `lines` numbered lines, cursor left at the start.
fn numbered(lines: usize) -> GapBuffer {
    let mut text = String::new();
    for i in 0..lines {
        text.push_str(&format!("line {i}\n"));
    }
    GapBuffer::from_text(text.as_str())
}

#[test]
fn the_index_survives_construction_and_gap_movement() {
    let mut buf = numbered(200);
    assert!(buf.assert_index_valid());
    for target in [0usize, 1, 500, 1400, 7, 1399, 0] {
        buf.move_gap(target.min(buf.len()));
        assert!(buf.assert_index_valid());
    }
}

#[test]
fn the_index_survives_typing_and_deleting_newlines() {
    let mut buf = GapBuffer::default();
    for c in "alpha\nbeta\ngamma".chars() {
        buf.insert(c);
        assert!(buf.assert_index_valid());
    }
    assert_eq!(buf.line_count(), 3);
    for _ in 0..7 {
        buf.delete();
        assert!(buf.assert_index_valid());
    }
    assert_eq!(buf.to_string(), "alpha\nbet");
    assert_eq!(buf.line_count(), 2);
}

#[test]
fn the_index_survives_the_gap_growing() {
    let mut buf = numbered(400);
    buf.move_gap(0);
    for c in "typed at the very start\nwith a newline\n".chars() {
        buf.insert(c);
    }
    assert!(buf.assert_index_valid());
    assert_eq!(buf.line_count(), 403);
    assert_eq!(
        buf.get_lines(0, 1),
        vec!["typed at the very start".to_string()]
    );
    assert_eq!(buf.get_lines(2, 3), vec!["line 0".to_string()]);
}

#[test]
fn the_index_survives_arbitrary_editing() {
    let mut buf = numbered(60);
    let mut seed = 0x2545_F491_4F6C_DD1Du64;
    let mut next = move || {
        seed ^= seed << 13;
        seed ^= seed >> 7;
        seed ^= seed << 17;
        seed
    };
    for step in 0..3_000 {
        let len = buf.len();
        match next() % 4 {
            0 => buf.insert(if next() % 5 == 0 { '\n' } else { 'x' }),
            1 => buf.delete(),
            _ => buf.move_gap((next() as usize) % (len + 1)),
        }
        assert!(buf.assert_index_valid());
        assert_eq!(
            buf.line_count(),
            buf.to_string().chars().filter(|&c| c == '\n').count() + 1,
            "line_count disagreed with the text at step {step}"
        );
    }
}

#[test]
fn indexed_lookups_agree_with_a_plain_scan() {
    let buf = numbered(50);
    let text = buf.to_string();
    let flat: Vec<char> = text.chars().collect();
    for (a, b) in [(0, 3), (10, 14), (49, 52), (0, 51), (7, 7)] {
        let expected: Vec<String> = {
            let mut v: Vec<String> = text
                .split('\n')
                .skip(a)
                .take(b - a)
                .map(String::from)
                .collect();
            while v.len() < b - a {
                v.push(String::new());
            }
            v
        };
        assert_eq!(buf.get_lines(a, b), expected, "get_lines({a}, {b})");
    }
    for pos in 0..=flat.len() {
        let (line, col) = buf.cursor_1d_to_2d(pos);
        assert_eq!(
            buf.cursor_2d_to_1d(line, col),
            pos,
            "round trip failed at {pos} -> ({line}, {col})"
        );
    }
}

#[test]
fn reading_a_viewport_costs_the_same_wherever_it_is() {
    const VIEWPORT: usize = 50;
    let small = numbered(1_000);
    let large = numbered(100_000);
    let head = small.get_lines(0, VIEWPORT);
    assert_eq!(head.len(), VIEWPORT);
    assert_eq!(large.get_lines(0, VIEWPORT), head);
    let middle = large.get_lines(50_000, 50_000 + VIEWPORT);
    assert_eq!(middle.len(), VIEWPORT);
    assert_eq!(middle[0], "line 50000");
    assert_eq!(
        middle[VIEWPORT - 1],
        format!("line {}", 50_000 + VIEWPORT - 1)
    );
}
