use rsedit_core::input::{fill_default_keymaps, KeyCode, KeyEvent, Keymap};
use rsedit_core::isearch::{fill_isearch_keymap, placement, repeat_step, Direction, Match, Repeat};
use rsedit_core::lisp::Sexp;

fn ctrl(c: char) -> KeyEvent {
    let mut k = KeyEvent::new(KeyCode::Char(c));
    k.modifiers.ctrl = true;
    k
}

fn symbol_at(keymap: &Keymap<Sexp>, key: KeyEvent) -> Option<String> {
    match keymap.get(&[key]) {
        Some(Sexp::Symbol(name)) => Some(name.clone()),
        _ => None,
    }
}

#[test]
fn a_match_is_shown_as_the_region_with_point_where_the_reader_looks() {
    let found = Match { start: 4, end: 9 };
    assert_eq!(placement(Direction::Forward, found), (9, 4));
    assert_eq!(placement(Direction::Backward, found), (4, 9));
}

#[test]
fn turning_around_restarts_at_the_match_on_screen() {
    let found = Some(Match { start: 10, end: 13 });
    assert_eq!(
        repeat_step(Direction::Forward, Direction::Backward, found, false),
        Repeat::Turn { from: Some(13) }
    );
    assert_eq!(
        repeat_step(Direction::Backward, Direction::Forward, found, true),
        Repeat::Turn { from: Some(10) }
    );
    assert_eq!(
        repeat_step(Direction::Backward, Direction::Forward, None, false),
        Repeat::Turn { from: None }
    );
}

#[test]
fn asking_again_after_running_out_wraps_and_otherwise_advances() {
    let found = Some(Match { start: 1, end: 2 });
    assert_eq!(repeat_step(Direction::Forward, Direction::Forward, None, true), Repeat::Wrap);
    assert_eq!(repeat_step(Direction::Backward, Direction::Backward, found, false), Repeat::Advance);
}

#[test]
fn the_search_prompt_binds_its_own_keys() {
    let mut keymap: Keymap<Sexp> = Keymap::new();
    fill_isearch_keymap(&mut keymap);
    assert_eq!(keymap.len(), 6);
    assert_eq!(symbol_at(&keymap, KeyEvent::new(KeyCode::Enter)).as_deref(), Some("minibuffer-confirm"));
    assert_eq!(symbol_at(&keymap, KeyEvent::new(KeyCode::Esc)).as_deref(), Some("minibuffer-cancel"));
    assert_eq!(symbol_at(&keymap, ctrl('g')).as_deref(), Some("minibuffer-cancel"));
    assert_eq!(
        symbol_at(&keymap, KeyEvent::new(KeyCode::Backspace)).as_deref(),
        Some("delete-backward-char")
    );
    assert_eq!(symbol_at(&keymap, ctrl('s')).as_deref(), Some("isearch-repeat-forward"));
    assert_eq!(symbol_at(&keymap, ctrl('r')).as_deref(), Some("isearch-repeat-backward"));
    assert!(keymap.get(&[ctrl('x')]).is_none());
}

#[test]
fn inside_a_search_c_s_repeats_rather_than_saving() {
    let mut keymap: Keymap<Sexp> = Keymap::new();
    fill_default_keymaps(&mut keymap);
    fill_isearch_keymap(&mut keymap);
    assert_eq!(symbol_at(&keymap, ctrl('s')).as_deref(), Some("isearch-repeat-forward"));
    // A key the search does not bind keeps its default binding.
    assert!(matches!(keymap.get(&[ctrl('q')]), Some(Sexp::List(_))));
}
