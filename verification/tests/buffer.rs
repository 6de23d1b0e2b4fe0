use rsedit_core::buffer::buffer_trait::BufferTrait;
use rsedit_core::buffer::gap_buffer::GapBuffer;
use rsedit_core::buffer::mark::{region_bounds, Mark};
use rsedit_core::buffer::Buffer;
use rsedit_core::commands::PrefixArg;

type TextBuffer = Buffer<GapBuffer, (), u32, (), ()>;

#[test]
fn a_new_buffer_is_empty_and_unmodified() {
    let buffer = TextBuffer::new("*scratch*");
    assert_eq!(buffer.name, "*scratch*");
    assert_eq!(buffer.text.to_string(), "");
    assert_eq!(buffer.current_mode, "fundamental-mode");
    assert!(!buffer.is_modified);
    assert!(!buffer.read_only);
    assert_eq!(buffer.version, 0);
    assert!(buffer.mark.is_none());
    assert!(buffer.overlays.is_empty());
}

#[test]
fn a_buffer_from_text_starts_at_its_beginning() {
    let buffer = TextBuffer::from_text("notes", "one\ntwo");
    assert_eq!(buffer.text.to_string(), "one\ntwo");
    assert_eq!(buffer.text.cursor_pos_1d(), 0);
    assert_eq!(buffer.text.line_count(), 2);
}

#[test]
fn a_scan_resumes_only_under_the_current_version_and_mode() {
    let text: String = (0..200).map(|i| format!("line {i}\n")).collect();
    let mut buffer = TextBuffer::from_text("big", &text);
    buffer.scan.reset(0, "fundamental-mode");
    buffer.scan.record(0, 11).unwrap();
    buffer.scan.record(1, 22).unwrap();
    let line_130 = buffer.text.cursor_2d_to_1d(130, 0);
    assert_eq!(buffer.scan_resume(line_130), Some(&22));
    assert_eq!(buffer.scan_resume(0), None);
    assert_eq!(buffer.scan_resume(usize::MAX), Some(&22));
    buffer.version = 1;
    assert_eq!(buffer.scan_resume(line_130), None);
}

#[test]
fn the_region_is_ordered_and_clamped() {
    assert_eq!(region_bounds(Some(Mark::new(8)), 3, 10), Some((3, 8)));
    assert_eq!(region_bounds(Some(Mark::new(2)), 30, 10), Some((2, 10)));
    let mut inactive = Mark::new(2);
    inactive.active = false;
    assert_eq!(region_bounds(Some(inactive), 5, 10), None);
    assert_eq!(region_bounds(None, 5, 10), None);
}

#[test]
fn placing_point_and_mark_shows_a_match() {
    let mut buffer = TextBuffer::from_text("scratch", "find the needle here");
    buffer.place(15, Some(9));
    assert_eq!(buffer.text.cursor_pos_1d(), 15);
    assert_eq!(buffer.mark, Some(Mark::new(9)));
    buffer.place(500, None);
    assert_eq!(buffer.text.cursor_pos_1d(), 20);
    assert_eq!(buffer.mark, None);
}

#[test]
fn an_invocation_captures_the_argument_and_the_region() {
    let mut buffer = TextBuffer::from_text("scratch", "hello world");
    buffer.place(2, Some(7));
    let invocation = buffer.invocation(Some(PrefixArg::Number(3)));
    assert_eq!(invocation.prefix_arg, Some(PrefixArg::Number(3)));
    assert_eq!(invocation.region, Some((2, 7)));
    buffer.place(2, None);
    assert_eq!(buffer.invocation(None).region, None);
}
