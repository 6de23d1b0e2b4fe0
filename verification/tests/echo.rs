use rsedit_core::echo::still_shown;

#[test]
fn a_message_goes_once_its_timeout_has_run_out() {
    assert!(still_shown("saved", 10, Some(11)));
    assert!(!still_shown("saved", 11, Some(11)));
    assert!(still_shown("saved", 1_000_000, None));
}

#[test]
fn an_empty_echo_area_shows_nothing() {
    assert!(!still_shown("", 0, None));
    assert!(!still_shown("", 0, Some(5)));
}

use rsedit_core::echo::{next_redraw_in, EchoMessage};

#[test]
fn a_message_counts_its_time_from_when_it_was_written() {
    let m = EchoMessage::new("saved", 100);
    assert_eq!(m.text, "saved");
    assert_eq!(m.visible_for(130, Some(50)), Some(30));
    assert_eq!(m.visible_for(150, Some(50)), None);
    assert_eq!(m.visible_for(1_000, None), Some(900));
    // A reading from before the message was written counts as no time at all.
    assert_eq!(m.visible_for(90, Some(50)), Some(0));
}

#[test]
fn expiry_is_the_time_left_on_the_timeout() {
    let m = EchoMessage::new("saved", 100);
    assert_eq!(m.expiry_in(130, Some(50)), Some(20));
    assert_eq!(m.expiry_in(150, Some(50)), None);
    assert_eq!(m.expiry_in(130, None), None);
    assert_eq!(EchoMessage::new("", 100).expiry_in(130, Some(50)), None);
}

#[test]
fn a_redraw_is_due_at_the_soonest_of_what_is_outstanding() {
    assert_eq!(next_redraw_in(None, false, false, 16), None);
    assert_eq!(next_redraw_in(Some(40), false, false, 16), Some(40));
    assert_eq!(next_redraw_in(Some(40), true, false, 16), Some(16));
    assert_eq!(next_redraw_in(Some(5), false, true, 16), Some(5));
    assert_eq!(next_redraw_in(None, false, true, 16), Some(16));
}
