//! When the echo area stops showing a message.
//!
//! The clock is read by whoever shows the message; what is decided from the
//! reading is decided here, over times counted in nanoseconds of a clock that
//! only goes forward.
use vstd::prelude::*;

verus! {

/// Whether a message reading TEXT, on screen for ELAPSED, is still shown
/// under TIMEOUT (`None` for none): an empty echo area shows nothing, and a
/// message goes once its timeout has run out.
pub open spec fn shown(text: Seq<char>, elapsed: int, timeout: Option<u128>) -> bool {
    text.len() > 0 && match timeout {
        Some(t) => elapsed < t,
        None => true,
    }
}

/// Whether a message reading TEXT, on screen for ELAPSED, is still shown
/// under TIMEOUT.
pub fn still_shown(text: &str, elapsed: u128, timeout: Option<u128>) -> (r: bool)
    ensures
        r == shown(text@, elapsed as int, timeout),
{
    broadcast use vstd::string::group_string_axioms;

    if text.is_empty() {
        return false;
    }
    match timeout {
        Some(t) => elapsed < t,
        None => true,
    }
}

/// What the echo area is showing, and since when.
///
/// The time it was written lives beside the text so that a reader cannot
/// catch a new message paired with the previous one's clock and hide it a
/// moment after it appeared.
#[derive(Debug, Clone)]
pub struct EchoMessage {
    pub text: String,
    /// When the message was last written. Each new message restarts the
    /// clock, so a message is always shown for its full timeout however soon
    /// it followed the one before.
    pub set_at: u128,
}

/// How long a message written at SET_AT has been on screen at NOW: nothing,
/// for a reading of the clock from before it was written.
pub open spec fn elapsed_since(set_at: u128, now: u128) -> int {
    if now >= set_at {
        now - set_at
    } else {
        0
    }
}

impl EchoMessage {
    /// TEXT, written at NOW.
    pub fn new(text: &str, now: u128) -> (r: Self)
        ensures
            r.text@ == text@,
            r.set_at == now,
    {
        EchoMessage { text: text.to_string(), set_at: now }
    }

    /// How long this message has been on screen at NOW, or `None` once
    /// TIMEOUT has run out -- and `None` too when there is no message to
    /// show, so that an empty echo area never counts as something waiting to
    /// expire.
    pub fn visible_for(&self, now: u128, timeout: Option<u128>) -> (r: Option<u128>)
        ensures
            r == (if shown(self.text@, elapsed_since(self.set_at, now), timeout) {
                Some(elapsed_since(self.set_at, now) as u128)
            } else {
                None
            }),
    {
        let elapsed: u128 = if now >= self.set_at { now - self.set_at } else { 0 };
        if still_shown(self.text.as_str(), elapsed, timeout) {
            Some(elapsed)
        } else {
            None
        }
    }

    /// How long until this message stops being shown at NOW, or `None` when
    /// nothing is waiting to expire -- there is no message, no timeout is set,
    /// or the message has already expired.
    pub fn expiry_in(&self, now: u128, timeout: Option<u128>) -> (r: Option<u128>)
        ensures
            r == (match timeout {
                Some(t) => if shown(self.text@, elapsed_since(self.set_at, now), timeout) {
                    Some((t - elapsed_since(self.set_at, now)) as u128)
                } else {
                    None
                },
                None => None,
            }),
    {
        match timeout {
            Some(t) => match self.visible_for(now, timeout) {
                Some(elapsed) => {
                    let left = t - elapsed;
                    if left == 0 {
                        None
                    } else {
                        Some(left)
                    }
                },
                None => None,
            },
            None => None,
        }
    }
}

/// How long a renderer may wait before the frame it has just drawn wants
/// drawing again: the soonest of ECHO, the time left on the echo message, and
/// TURN, the interval at which colouring or a running command's output may
/// arrive, when COLOURING or RUNNING says one is outstanding; `None`, to wait
/// for input alone, when none of them is.
pub fn next_redraw_in(echo: Option<u128>, colouring: bool, running: bool, turn: u128) -> (r: Option<u128>)
    ensures
        (colouring || running) ==> r == Some(match echo {
            Some(e) => if e < turn { e } else { turn },
            None => turn,
        }),
        !(colouring || running) ==> r == echo,
{
    if colouring || running {
        match echo {
            Some(e) => Some(if e < turn { e } else { turn }),
            None => Some(turn),
        }
    } else {
        echo
    }
}

} // verus!
