//! Incremental search: what its keys are bound to, where a match is shown,
//! and what pressing `C-s` or `C-r` again does to a search in progress.
//!
//! The prompt itself, the scan over the buffer and the hook that re-runs it
//! after every keystroke belong to the editor; what is decided here is decided
//! the same way whichever frontend drives it.
use vstd::prelude::*;
use crate::input::{ctrl_key, is_symbol, plain_key, KeyCode, KeyEvent, Keymap};
use crate::lisp::Sexp;

verus! {

/// Which way a search runs.
#[derive(Clone, Copy, Debug, PartialEq, Eq, Structural)]
pub enum Direction {
    Forward,
    Backward,
}

/// A match: the text from `start` up to `end`.
#[derive(Clone, Copy, Debug, PartialEq, Eq, Structural)]
pub struct Match {
    pub start: usize,
    pub end: usize,
}

/// Where point and mark go to show FOUND: point at the far end, mark at the
/// near one, so the match is the region.
///
/// Point at the end going forwards and at the start going backwards, which is
/// where the reader is looking either way, and where point stays when the
/// search is confirmed.
pub fn placement(direction: Direction, found: Match) -> (r: (usize, usize))
    ensures
        direction == Direction::Forward ==> r == (found.end, found.start),
        direction == Direction::Backward ==> r == (found.start, found.end),
{
    match direction {
        Direction::Forward => (found.end, found.start),
        Direction::Backward => (found.start, found.end),
    }
}

/// What asking for the next match does to the search.
#[derive(Clone, Copy, Debug, PartialEq, Eq, Structural)]
pub enum Repeat {
    /// Turn around. The next scan runs from `from` where it is `Some`, and
    /// from where the search already stood otherwise.
    Turn { from: Option<usize> },
    /// Go round the buffer: the search had run out and was asked again.
    Wrap,
    /// Step past the current match.
    Advance,
}

/// What a repeated `C-s` or `C-r` does to a search GOING one way when ASKED
/// for the next match the ASKED way.
///
/// Changing direction does not move on: the next scan starts at the match on
/// screen, its start going forward and its end going backward, so `C-s C-r`
/// walks back over the same matches rather than skipping one. Asking again
/// after the search has run out is the decision to go round.
pub fn repeat_step(going: Direction, asked: Direction, found: Option<Match>, failing: bool) -> (r:
    Repeat)
    ensures
        going != asked ==> r == (Repeat::Turn {
            from: match found {
                Some(m) => Some(
                    if asked == Direction::Forward {
                        m.start
                    } else {
                        m.end
                    },
                ),
                None => None,
            },
        }),
        going == asked && failing ==> r == Repeat::Wrap,
        going == asked && !failing ==> r == Repeat::Advance,
{
    if going != asked {
        let from = match found {
            Some(m) => Some(
                match asked {
                    Direction::Forward => m.start,
                    Direction::Backward => m.end,
                },
            ),
            None => None,
        };
        Repeat::Turn { from }
    } else if failing {
        Repeat::Wrap
    } else {
        Repeat::Advance
    }
}

/// The command a key runs while a search prompt is open, where the search
/// binds it at all.
///
/// Return and Escape are the minibuffer's own commands, which close the prompt
/// and then call the search's callbacks; `C-g` means what Escape means;
/// Backspace shortens the pattern, after which the search runs again like
/// after any command; `C-s` and `C-r` ask for the next match.
pub open spec fn isearch_binding(k: KeyEvent) -> Option<Seq<char>> {
    if k == plain_key(KeyCode::Enter) {
        Some("minibuffer-confirm"@)
    } else if k == plain_key(KeyCode::Esc) {
        Some("minibuffer-cancel"@)
    } else if k == ctrl_key('g') {
        Some("minibuffer-cancel"@)
    } else if k == plain_key(KeyCode::Backspace) {
        Some("delete-backward-char"@)
    } else if k == ctrl_key('s') {
        Some("isearch-repeat-forward"@)
    } else if k == ctrl_key('r') {
        Some("isearch-repeat-backward"@)
    } else {
        None
    }
}

proof fn lemma_one_key_sequences(a: KeyEvent, b: KeyEvent)
    ensures
        seq![a] == seq![b] <==> a == b,
{
    if seq![a] == seq![b] {
        assert(seq![a][0] == seq![b][0]);
    }
}

fn ctrl(c: char) -> (r: KeyEvent)
    ensures
        r == ctrl_key(c),
{
    let mut k = KeyEvent::new(KeyCode::Char(c));
    k.modifiers.ctrl = true;
    k
}

/// Binds the keys of an incremental search prompt in KEYMAP, leaving every
/// other binding as it was.
pub fn fill_isearch_keymap(keymap: &mut Keymap<Sexp>)
    requires
        old(keymap).inv(),
    ensures
        final(keymap).inv(),
        forall|k: KeyEvent| #[trigger] isearch_binding(k) is Some ==> final(keymap).bindings().contains_key(
            seq![k],
        ) && is_symbol(final(keymap).bindings()[seq![k]], isearch_binding(k)->0),
        forall|ks: Seq<KeyEvent>|
            !(ks.len() == 1 && isearch_binding(ks[0]) is Some) ==> (
            #[trigger] final(keymap).bindings().contains_key(ks) == old(keymap).bindings().contains_key(ks)
                && (old(keymap).bindings().contains_key(ks) ==> final(keymap).bindings()[ks]
                == old(keymap).bindings()[ks])),
{
    let ghost start = keymap.bindings();
    let e1 = Sexp::symbol("minibuffer-confirm");
    let ghost g1 = e1;
    keymap.insert_key(KeyEvent::new(KeyCode::Enter), e1);
    let e2 = Sexp::symbol("minibuffer-cancel");
    let ghost g2 = e2;
    keymap.insert_key(KeyEvent::new(KeyCode::Esc), e2);
    let e3 = Sexp::symbol("minibuffer-cancel");
    let ghost g3 = e3;
    keymap.insert_key(ctrl('g'), e3);
    let e4 = Sexp::symbol("delete-backward-char");
    let ghost g4 = e4;
    keymap.insert_key(KeyEvent::new(KeyCode::Backspace), e4);
    let e5 = Sexp::symbol("isearch-repeat-forward");
    let ghost g5 = e5;
    keymap.insert_key(ctrl('s'), e5);
    let e6 = Sexp::symbol("isearch-repeat-backward");
    let ghost g6 = e6;
    keymap.insert_key(ctrl('r'), e6);
    proof {
        let enter = plain_key(KeyCode::Enter);
        let esc = plain_key(KeyCode::Esc);
        let cg = ctrl_key('g');
        let bs = plain_key(KeyCode::Backspace);
        let cs = ctrl_key('s');
        let cr = ctrl_key('r');
        let m = keymap.bindings();
        assert(m == start.insert(seq![enter], g1).insert(seq![esc], g2).insert(seq![cg], g3).insert(
            seq![bs],
            g4,
        ).insert(seq![cs], g5).insert(seq![cr], g6));
        lemma_one_key_sequences(enter, esc);
        lemma_one_key_sequences(enter, cg);
        lemma_one_key_sequences(enter, bs);
        lemma_one_key_sequences(enter, cs);
        lemma_one_key_sequences(enter, cr);
        lemma_one_key_sequences(esc, cg);
        lemma_one_key_sequences(esc, bs);
        lemma_one_key_sequences(esc, cs);
        lemma_one_key_sequences(esc, cr);
        lemma_one_key_sequences(cg, bs);
        lemma_one_key_sequences(cg, cs);
        lemma_one_key_sequences(cg, cr);
        lemma_one_key_sequences(bs, cs);
        lemma_one_key_sequences(bs, cr);
        lemma_one_key_sequences(cs, cr);
        assert forall|k: KeyEvent| #[trigger] isearch_binding(k) is Some implies m.contains_key(
            seq![k],
        ) && is_symbol(m[seq![k]], isearch_binding(k)->0) by {}
        assert forall|ks: Seq<KeyEvent>|
            !(ks.len() == 1 && isearch_binding(ks[0]) is Some) implies (#[trigger] m.contains_key(ks)
            == start.contains_key(ks) && (start.contains_key(ks) ==> m[ks] == start[ks])) by {
            if ks.len() == 1 {
                assert(ks == seq![ks[0]]);
            }
        }
    }
}

} // verus!
