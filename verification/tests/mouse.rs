use rsedit_core::mouse::{mouse_step, Hit, MouseButton, MouseCommand, MouseDrag, MouseKind, Orientation};

type Path = Vec<u8>;

fn down() -> MouseKind {
    MouseKind::Down(MouseButton::Left)
}

fn drag() -> MouseKind {
    MouseKind::Drag(MouseButton::Left)
}

#[test]
fn a_click_in_text_sets_point_and_starts_a_selection() {
    let hit: Hit<Path> = Hit::Text { window: 3, line: 7, column: 2 };
    let s = mouse_step(true, down(), 10, 4, None, Some(hit), None, None);
    assert_eq!(s.command, Some(MouseCommand::SetPoint { window: 3, line: 7, column: 2 }));
    assert!(matches!(s.drag, Some(MouseDrag::Text { window: 3, at: (10, 4) })));
}

#[test]
fn a_selection_follows_the_window_it_began_in() {
    let d: MouseDrag<Path> = MouseDrag::Text { window: 3, at: (10, 4) };
    // Over another window, or over nothing at all.
    let other: Hit<Path> = Hit::Text { window: 9, line: 0, column: 0 };
    let s = mouse_step(true, drag(), 12, 30, Some(d), Some(other), Some((20, 5)), None);
    assert_eq!(s.command, Some(MouseCommand::DragTo { window: 3, line: 20, column: 5 }));
    assert!(matches!(s.drag, Some(MouseDrag::Text { window: 3, at: (12, 30) })));
}

#[test]
fn letting_go_ends_the_drag_and_does_nothing_else() {
    let d: MouseDrag<Path> = MouseDrag::Text { window: 3, at: (10, 4) };
    let s = mouse_step(true, MouseKind::Up(MouseButton::Left), 12, 4, Some(d), None, None, None);
    assert!(s.drag.is_none());
    assert!(s.command.is_none());
}

#[test]
fn a_dragged_boundary_moves_by_how_far_the_pointer_came() {
    let hit: Hit<Path> = Hit::Separator { path: vec![1], orientation: Orientation::Vertical };
    let s = mouse_step(true, down(), 40, 5, None, Some(hit), None, None);
    assert!(s.command.is_none());
    let s = mouse_step(true, drag(), 43, 9, s.drag, None, None, None);
    assert_eq!(s.command, Some(MouseCommand::Resize { delta: 3 }));
    let s = mouse_step(true, drag(), 41, 2, s.drag, None, None, None);
    assert_eq!(s.command, Some(MouseCommand::Resize { delta: -2 }));
    // No movement along the axis, nothing to run.
    let s = mouse_step(true, drag(), 41, 20, s.drag, None, None, None);
    assert!(s.command.is_none());
    assert!(matches!(s.drag, Some(MouseDrag::Divider { last: 41, .. })));
}

#[test]
fn a_status_line_drags_the_split_it_divides() {
    let hit: Hit<Path> = Hit::ModeLine { window: 2 };
    let s = mouse_step(true, down(), 40, 12, None, Some(hit), None, Some(vec![0, 1]));
    assert!(s.command.is_none());
    assert!(matches!(&s.drag, Some(MouseDrag::Divider { orientation: Orientation::Horizontal, last: 12, .. })));
    let s = mouse_step(true, drag(), 80, 15, s.drag, None, None, None);
    assert_eq!(s.command, Some(MouseCommand::Resize { delta: 3 }));
    // The bottom status line divides nothing.
    let hit: Hit<Path> = Hit::ModeLine { window: 2 };
    let s = mouse_step(true, down(), 40, 12, None, Some(hit), None, None);
    assert!(s.drag.is_none());
}

#[test]
fn the_wheel_scrolls_the_window_under_the_pointer() {
    let hit: Hit<Path> = Hit::Text { window: 5, line: 0, column: 0 };
    let s = mouse_step(true, MouseKind::ScrollUp, 1, 1, None, Some(hit), None, None);
    assert_eq!(s.command, Some(MouseCommand::Scroll { window: 5, lines: -1 }));
    let hit: Hit<Path> = Hit::Text { window: 5, line: 0, column: 0 };
    let s = mouse_step(true, MouseKind::ScrollDown, 1, 1, None, Some(hit), None, None);
    assert_eq!(s.command, Some(MouseCommand::Scroll { window: 5, lines: 1 }));
}

#[test]
fn with_the_mouse_off_nothing_happens() {
    let hit: Hit<Path> = Hit::Text { window: 3, line: 7, column: 2 };
    let d: MouseDrag<Path> = MouseDrag::Text { window: 3, at: (10, 4) };
    let s = mouse_step(false, down(), 10, 4, Some(d), Some(hit), None, None);
    assert!(s.command.is_none());
    assert!(matches!(s.drag, Some(MouseDrag::Text { window: 3, at: (10, 4) })));
}

#[test]
fn clicks_on_floats_and_other_buttons_are_swallowed() {
    let s = mouse_step::<Path>(true, down(), 1, 1, None, Some(Hit::Float), None, None);
    assert!(s.command.is_none() && s.drag.is_none());
    let hit: Hit<Path> = Hit::Text { window: 3, line: 7, column: 2 };
    let s = mouse_step(true, MouseKind::Down(MouseButton::Right), 1, 1, None, Some(hit), None, None);
    assert!(s.command.is_none() && s.drag.is_none());
    let s = mouse_step::<Path>(true, down(), 1, 1, None, None, None, None);
    assert!(s.command.is_none());
}
