//! The part of the editor's session that is plain data: whether it is
//! running, what the echo area shows, the call stack captured at the last
//! uncaught error, and the log of diagnostics.
use vstd::prelude::*;
use crate::dispatch::{backtrace_text, texts};
use crate::echo::{EchoMessage, elapsed_since, shown};

verus! {

/// The editor's session state.
pub struct EditorState {
    running: bool,
    echo_message: EchoMessage,
    backtrace: Vec<String>,
    log: Vec<String>,
}

/// A copy of STRINGS.
fn copy_strings(strings: &Vec<String>) -> (r: Vec<String>)
    ensures
        texts(r@) == texts(strings@),
{
    let mut out: Vec<String> = Vec::new();
    let mut i: usize = 0;
    while i < strings.len()
        invariant
            i <= strings@.len(),
            texts(out@) =~= texts(strings@.take(i as int)),
        decreases strings@.len() - i,
    {
        let ghost before = out@;
        out.push(strings[i].clone());
        proof {
            assert(strings@.take(i + 1) =~= strings@.take(i as int).push(strings@[i as int]));
            assert(texts(out@) =~= texts(before).push(strings@[i as int]@));
            assert(texts(strings@.take(i + 1)) =~= texts(strings@.take(i as int)).push(strings@[i as int]@));
        }
        i = i + 1;
    }
    proof {
        assert(strings@.take(i as int) =~= strings@);
    }
    out
}

impl EditorState {
    /// Whether the editor is running.
    pub closed spec fn running(&self) -> bool {
        self.running
    }

    /// The echo message as stored.
    pub closed spec fn echo(&self) -> EchoMessage {
        self.echo_message
    }

    /// The frames captured at the most recent uncaught error, innermost
    /// first; empty when nothing has failed since they were last cleared.
    pub closed spec fn frames(&self) -> Seq<Seq<char>> {
        texts(self.backtrace@)
    }

    /// Every diagnostic logged so far, oldest first.
    pub closed spec fn logs(&self) -> Seq<Seq<char>> {
        texts(self.log@)
    }

    /// A session that is running, shows nothing in the echo area (the clock
    /// read NOW), and has neither a backtrace nor a log yet.
    pub fn new(now: u128) -> (r: Self)
        ensures
            r.running(),
            r.echo().text@ == Seq::<char>::empty(),
            r.echo().set_at == now,
            r.frames() == Seq::<Seq<char>>::empty(),
            r.logs() == Seq::<Seq<char>>::empty(),
    {
        let r = EditorState {
            running: true,
            echo_message: EchoMessage::new("", now),
            backtrace: Vec::new(),
            log: Vec::new(),
        };
        proof {
            reveal_strlit("");
            assert(r.frames() =~= Seq::<Seq<char>>::empty());
            assert(r.logs() =~= Seq::<Seq<char>>::empty());
        }
        r
    }

    /// Quit the editor.
    pub fn quit(&mut self)
        ensures
            !final(self).running(),
            final(self).echo() == old(self).echo(),
            final(self).frames() == old(self).frames(),
            final(self).logs() == old(self).logs(),
    {
        self.running = false;
    }

    /// Whether the editor is running.
    pub fn is_running(&self) -> (r: bool)
        ensures
            r == self.running(),
    {
        self.running
    }

    /// The echo message's text, as stored, whether or not it is still being
    /// shown: expiry is a question for the view, and state is not rewritten
    /// by the passage of time.
    pub fn get_echo_message(&self) -> (r: String)
        ensures
            r@ == self.echo().text@,
    {
        self.echo_message.text.clone()
    }

    /// Set the echo message to MSG, and start its timeout running at NOW.
    pub fn set_echo_message(&mut self, msg: &str, now: u128)
        ensures
            final(self).echo().text@ == msg@,
            final(self).echo().set_at == now,
            final(self).running() == old(self).running(),
            final(self).frames() == old(self).frames(),
            final(self).logs() == old(self).logs(),
    {
        self.echo_message = EchoMessage::new(msg, now);
    }

    /// How long until the echo message stops being shown at NOW under
    /// TIMEOUT, or `None` when nothing is waiting to expire -- there is no
    /// message, no timeout is set, or the message has already expired.
    pub fn echo_expiry_in(&self, now: u128, timeout: Option<u128>) -> (r: Option<u128>)
        ensures
            r == (match timeout {
                Some(t) => if shown(self.echo().text@, elapsed_since(self.echo().set_at, now), timeout) {
                    Some((t - elapsed_since(self.echo().set_at, now)) as u128)
                } else {
                    None
                },
                None => None,
            }),
    {
        self.echo_message.expiry_in(now, timeout)
    }

    /// Add LINE to the log of diagnostics.
    pub fn log_diagnostic(&mut self, line: String)
        ensures
            final(self).logs() == old(self).logs().push(line@),
            final(self).running() == old(self).running(),
            final(self).echo() == old(self).echo(),
            final(self).frames() == old(self).frames(),
    {
        self.log.push(line);
        proof {
            assert(texts(self.log@) =~= texts(old(self).log@).push(line@));
        }
    }

    /// Every diagnostic logged so far, oldest first.
    pub fn get_logs(&self) -> (r: Vec<String>)
        ensures
            texts(r@) == self.logs(),
    {
        copy_strings(&self.log)
    }

    /// Keep FRAMES, innermost first, as the call stack of the uncaught error
    /// just raised.
    pub fn capture_backtrace(&mut self, frames: Vec<String>)
        ensures
            final(self).frames() == texts(frames@),
            final(self).running() == old(self).running(),
            final(self).echo() == old(self).echo(),
            final(self).logs() == old(self).logs(),
    {
        self.backtrace = frames;
    }

    /// The call stack captured at the most recent uncaught error, innermost
    /// call first, or nothing if nothing has failed since the last
    /// [`Self::clear_backtrace`].
    pub fn backtrace(&self) -> (r: Vec<String>)
        ensures
            texts(r@) == self.frames(),
    {
        copy_strings(&self.backtrace)
    }

    /// Discard the captured backtrace, so that the next error starts from a
    /// clean stack rather than one stacked on a stale one.
    pub fn clear_backtrace(&mut self)
        ensures
            final(self).frames() == Seq::<Seq<char>>::empty(),
            final(self).running() == old(self).running(),
            final(self).echo() == old(self).echo(),
            final(self).logs() == old(self).logs(),
    {
        self.backtrace.clear();
        proof {
            assert(texts(self.backtrace@) =~= Seq::<Seq<char>>::empty());
        }
    }

    /// The ` | backtrace: a -> b -> c` suffix an error report carries for
    /// the captured frames, innermost first -- empty when there are none --
    /// with the frames cleared either way.
    pub fn take_backtrace_suffix(&mut self) -> (r: String)
        ensures
            r@ == backtrace_text(old(self).frames()),
            final(self).frames() == Seq::<Seq<char>>::empty(),
            final(self).running() == old(self).running(),
            final(self).echo() == old(self).echo(),
            final(self).logs() == old(self).logs(),
    {
        let r = crate::dispatch::take_backtrace_suffix(&mut self.backtrace);
        proof {
            assert(texts(self.backtrace@) =~= Seq::<Seq<char>>::empty());
        }
        r
    }
}

} // verus!
