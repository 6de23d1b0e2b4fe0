use rsedit_core::kill_ring::{Direction, KillRing};

#[test]
fn a_kill_is_what_yank_reads() {
    let mut ring = KillRing::default();
    assert_eq!(ring.current(), None);
    ring.push("first".to_string());
    ring.push("second".to_string());
    assert_eq!(ring.current(), Some("second"));
    assert_eq!(ring.nth(1), Some("first"));
    assert_eq!(ring.nth(2), None);
    assert_eq!(ring.len(), 2);
}

#[test]
fn killing_nothing_takes_no_slot() {
    let mut ring = KillRing::default();
    ring.push("kept".to_string());
    ring.push(String::new());
    ring.append(String::new(), Direction::Forward);
    assert_eq!(ring.len(), 1);
    assert_eq!(ring.current(), Some("kept"));
}

#[test]
fn rotating_walks_back_and_wraps_around() {
    let mut ring = KillRing::default();
    ring.push("a".to_string());
    ring.push("b".to_string());
    ring.push("c".to_string());
    assert_eq!(ring.rotate(), Some("b"));
    assert_eq!(ring.rotate(), Some("a"));
    assert_eq!(ring.rotate(), Some("c"));
    assert_eq!(ring.current(), Some("c"));
}

#[test]
fn a_run_of_kills_joins_in_reading_order() {
    let mut ring = KillRing::default();
    ring.append("one ".to_string(), Direction::Forward);
    ring.append("two".to_string(), Direction::Forward);
    assert_eq!(ring.current(), Some("one two"));
    ring.append("zero ".to_string(), Direction::Backward);
    assert_eq!(ring.current(), Some("zero one two"));
    assert_eq!(ring.len(), 1);
}

#[test]
fn the_ring_keeps_at_most_its_maximum() {
    let mut ring = KillRing::default();
    for i in 0..5 {
        ring.push(format!("kill {i}"));
    }
    ring.rotate();
    ring.rotate();
    ring.rotate();
    ring.set_max(2);
    assert_eq!(ring.len(), 2);
    assert_eq!(ring.nth(0), Some("kill 4"));
    assert_eq!(ring.current(), Some("kill 4"));
}

#[test]
fn an_empty_ring_does_not_rotate() {
    let mut ring = KillRing::default();
    assert_eq!(ring.rotate(), None);
}
