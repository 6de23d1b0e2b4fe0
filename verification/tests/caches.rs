use rsedit_core::buffer::scan::{checkpoint_line, ScanCache, LINES_PER_CHECKPOINT};
use rsedit_core::buffer::syntax::SyntaxCache;

#[test]
fn checkpoints_enter_every_sixty_fourth_line() {
    assert_eq!(checkpoint_line(0), LINES_PER_CHECKPOINT);
    assert_eq!(checkpoint_line(2), 3 * LINES_PER_CHECKPOINT);
}

#[test]
fn checkpoints_are_recorded_in_order_only() {
    let mut cache: ScanCache<u32> = ScanCache::default();
    cache.reset(7, "lisp-mode");
    assert_eq!(cache.record(1, 10), Err(()));
    assert_eq!(cache.record(0, 10), Ok(()));
    assert_eq!(cache.record(1, 11), Ok(()));
    assert_eq!(cache.checkpoints(), 2);
    assert_eq!(cache.valid_to(), 128);
    assert_eq!(cache.mode(), "lisp-mode");
    assert_eq!(cache.version(), 7);
}

#[test]
fn a_resume_point_needs_the_same_text_and_mode() {
    let mut cache: ScanCache<u32> = ScanCache::default();
    cache.reset(3, "lisp-mode");
    cache.record(0, 100).unwrap();
    cache.record(1, 200).unwrap();
    assert_eq!(cache.resume_for("lisp-mode", 3, 10), None);
    assert_eq!(cache.resume_for("lisp-mode", 3, 64), Some(&100));
    assert_eq!(cache.resume_for("lisp-mode", 3, 130), Some(&200));
    assert_eq!(cache.resume_for("lisp-mode", 3, 100000), Some(&200));
    assert_eq!(cache.resume_for("text-mode", 3, 130), None);
    assert_eq!(cache.resume_for("lisp-mode", 4, 130), None);
    assert_eq!(cache.frontier_for("lisp-mode", 3), (2, Some(&200)));
    assert_eq!(cache.frontier_for("text-mode", 3), (0, None));
}

#[test]
fn an_edit_keeps_the_checkpoints_above_it() {
    let mut cache: ScanCache<u32> = ScanCache::default();
    for i in 0..4 {
        cache.record(i, i as u32).unwrap();
    }
    cache.invalidate_from(1, 130);
    assert_eq!(cache.checkpoints(), 2);
    assert_eq!(cache.version(), 1);
    assert_eq!(cache.record(3, 9), Err(()));
    assert_eq!(cache.record(2, 9), Ok(()));
    cache.invalidate_from(2, 64);
    assert_eq!(cache.checkpoints(), 1);
}

#[test]
fn colouring_is_recorded_line_by_line_and_states_are_interned() {
    let mut cache: SyntaxCache<&str, Vec<u8>> = SyntaxCache::default();
    assert_eq!(cache.record(1, &vec![], vec!["x"]), Err(()));
    assert_eq!(cache.record(0, &vec![], vec!["keyword"]), Ok(()));
    assert_eq!(cache.record(1, &vec![1], vec!["string"]), Ok(()));
    assert_eq!(cache.record(2, &vec![], vec![]), Ok(()));
    assert_eq!(cache.distinct_states(), 2);
    assert_eq!(cache.spans(0), &["keyword"]);
    assert!(cache.spans(9).is_empty());
    assert_eq!(cache.state_at(1), Some(vec![1]));
    assert_eq!(cache.state_at(2), Some(vec![]));
    assert_eq!(cache.state_at(3), None);
    assert_eq!(cache.valid_to(), 3);
}

#[test]
fn stale_colour_is_kept_after_an_edit() {
    let mut cache: SyntaxCache<&str, u8> = SyntaxCache::default();
    cache.record(0, &0, vec!["a"]).unwrap();
    cache.record(1, &0, vec!["b"]).unwrap();
    cache.invalidate_from(5, 1);
    assert_eq!(cache.valid_to(), 1);
    assert_eq!(cache.version(), 5);
    assert_eq!(cache.spans(1), &["b"]);
    cache.truncate(1);
    assert!(cache.spans(1).is_empty());
    cache.reset(6);
    assert_eq!(cache.distinct_states(), 0);
    assert!(cache.spans(0).is_empty());
}

#[test]
fn any_index_but_the_next_is_refused() {
    let mut cache: ScanCache<u32> = ScanCache::default();
    assert_eq!(cache.record(usize::MAX, 7), Err(()));
    assert_eq!(cache.record(1, 7), Err(()));
    assert_eq!(cache.record(0, 7), Ok(()));
    assert_eq!(cache.record(usize::MAX, 8), Err(()));
    assert_eq!(cache.record(1, 8), Ok(()));
}
