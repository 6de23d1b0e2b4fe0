use rsedit_core::buffer::overlay::OverlayTable;

fn table() -> OverlayTable<&'static str> {
    OverlayTable::default()
}

#[test]
fn an_empty_span_is_refused() {
    let mut t = table();
    assert_eq!(t.add(3, 3, "face", 0, "search".to_string()), None);
    assert!(t.is_empty());
}

#[test]
fn ids_are_handed_out_in_order_and_never_reused() {
    let mut t = table();
    assert_eq!(t.add(0, 2, "a", 0, "x".to_string()), Some(0));
    assert_eq!(t.add(5, 1, "b", 0, "x".to_string()), Some(1));
    assert!(t.remove(1));
    assert!(!t.remove(1));
    assert_eq!(t.add(2, 3, "c", 0, "x".to_string()), Some(2));
    assert_eq!(t.len(), 2);
}

#[test]
fn a_reversed_span_is_put_in_order() {
    let mut t = table();
    t.add(9, 4, "a", 0, "x".to_string());
    let found = t.at(4);
    assert_eq!(found.len(), 1);
    assert_eq!((found[0].start, found[0].end), (4, 9));
}

#[test]
fn the_table_stays_in_order_of_start() {
    let mut t = table();
    t.add(10, 12, "a", 0, "x".to_string());
    t.add(2, 4, "b", 0, "x".to_string());
    t.add(6, 8, "c", 0, "x".to_string());
    let starts: Vec<usize> = t.iter().map(|o| o.start).collect();
    assert_eq!(starts, vec![2, 6, 10]);
}

#[test]
fn overlays_at_a_position_come_highest_priority_last() {
    let mut t = table();
    t.add(0, 10, "low", 5, "x".to_string());
    t.add(0, 10, "high", 9, "x".to_string());
    t.add(0, 10, "lowest", 1, "x".to_string());
    t.add(20, 30, "elsewhere", 100, "x".to_string());
    let faces: Vec<&str> = t.at(3).iter().map(|o| o.face).collect();
    assert_eq!(faces, vec!["lowest", "low", "high"]);
    assert!(t.at(10).is_empty());
}

#[test]
fn overlapping_finds_what_crosses_a_range() {
    let mut t = table();
    t.add(0, 5, "a", 0, "x".to_string());
    t.add(5, 10, "b", 0, "x".to_string());
    t.add(10, 15, "c", 0, "x".to_string());
    let faces: Vec<&str> = t.overlapping(4, 10).iter().map(|o| o.face).collect();
    assert_eq!(faces, vec!["a", "b"]);
}

#[test]
fn typing_at_either_edge_stays_outside_and_inside_is_absorbed() {
    let mut t = table();
    t.add(5, 10, "match", 0, "search".to_string());
    t.adjust_for_insert(5, 2);
    assert_eq!(t.at(7)[0].start, 7);
    assert_eq!(t.at(7)[0].end, 12);
    t.adjust_for_insert(12, 3);
    let o = t.at(7)[0];
    assert_eq!((o.start, o.end), (7, 12));
    t.adjust_for_insert(9, 1);
    let o = t.at(7)[0];
    assert_eq!((o.start, o.end), (7, 13));
}

#[test]
fn a_deletion_moves_and_collapses_overlays() {
    let mut t = table();
    t.add(2, 4, "inside", 0, "x".to_string());
    t.add(10, 20, "after", 0, "x".to_string());
    t.add(0, 6, "around", 0, "x".to_string());
    t.adjust_for_delete(1, 5);
    assert_eq!(t.len(), 2);
    let spans: Vec<(usize, usize)> = t.iter().map(|o| (o.start, o.end)).collect();
    assert_eq!(spans, vec![(0, 2), (6, 16)]);
}

#[test]
fn removing_a_category_counts_what_went() {
    let mut t = table();
    t.add(0, 1, "a", 0, "search".to_string());
    t.add(1, 2, "b", 0, "lint".to_string());
    t.add(2, 3, "c", 0, "search".to_string());
    assert_eq!(t.remove_category(Some("search")), 2);
    assert_eq!(t.len(), 1);
    assert_eq!(t.remove_category(None), 1);
    assert!(t.is_empty());
}

#[test]
fn a_deletion_keeps_the_table_in_order_of_start_then_id() {
    let mut t = table();
    assert_eq!(t.add(6, 12, "a", 0, "c".to_string()), Some(0));
    assert_eq!(t.add(5, 10, "b", 0, "c".to_string()), Some(1));
    t.adjust_for_delete(4, 7);
    let spans: Vec<(usize, usize, usize)> = t.iter().map(|o| (o.start, o.end, o.id)).collect();
    assert_eq!(spans, vec![(4, 9, 0), (4, 7, 1)]);
}

#[test]
fn an_overlay_is_added_after_those_starting_with_it() {
    let mut t = table();
    t.add(3, 5, "a", 0, "c".to_string());
    t.add(1, 2, "b", 0, "c".to_string());
    t.add(3, 4, "c", 0, "c".to_string());
    let order: Vec<(usize, usize)> = t.iter().map(|o| (o.start, o.id)).collect();
    assert_eq!(order, vec![(1, 1), (3, 0), (3, 2)]);
}
