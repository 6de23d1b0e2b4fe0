//! Per-buffer undo history.
//!
//! # What is recorded
//!
//! Changes, not snapshots. Each entry says what an edit did to the text, so
//! the memory cost is proportional to the text *changed* rather than to the
//! size of the document.
//!
//! # How undo and redo are the same operation
//!
//! Applying the inverse of a group turns the text back into what it was, and
//! produces the group that would undo *that*. So redo is not a second
//! mechanism -- it is the same inversion run against the other stack. The text
//! to re-insert when redoing an insertion is captured at the moment undo
//! removes it.
//!
//! # Which command an edit belongs to
//!
//! Undo works in commands, not in edits: one press of C-k undoes as one step
//! even though it deletes many characters, and a run of typing undoes as one
//! step even though each keystroke is its own command. Each edit is recorded
//! with the [`Command`] it is made by; a group remembers the command it was
//! opened under, and the history closes the group lazily, at the first edit
//! that arrives under a different one.
use vstd::prelude::*;
use crate::buffer::buffer_trait::{BufferTrait, max_text_len};
use crate::buffer::lines::lemma_line_col_offset;
use vstd::std_specs::iter::IteratorSpec;
use vstd::string::StrSliceExecFns;

verus! {

/// How many characters a run of `self-insert` amalgamates before the next one
/// starts a fresh undo group: about a word or two, so that an undo feels local
/// without being per keystroke.
pub const AMALGAMATION_LIMIT: usize = 20;

/// How much deleted text to keep, in bytes, before dropping the oldest
/// history. Only deletions carry text, so this bounds the one part of the
/// history that can grow with the size of the document.
pub const DEFAULT_UNDO_LIMIT: usize = 1048576;

/// The command an edit is being made by.
#[derive(Clone, Copy, Debug, PartialEq, Eq, Structural)]
pub struct Command {
    /// Tells one command from the next.
    pub epoch: u64,
    /// Whether a run of this command amalgamates -- true only for ordinary
    /// typing.
    pub amalgamating_kind: bool,
    /// Whether this command should join the group the previous one opened.
    pub joins_previous: bool,
}

impl Command {
    /// What edits made outside any command belong to: everything evaluated
    /// without a key being pressed shares one group, which is what makes a
    /// function that edits several times undo as a unit.
    pub fn outside() -> (r: Command)
        ensures
            r.epoch == 0,
            !r.amalgamating_kind,
            !r.joins_previous,
    {
        Command { epoch: 0, amalgamating_kind: false, joins_previous: false }
    }

    /// The command that starts after `previous`, stamped with `epoch`.
    ///
    /// Whether it joins the previous group depends on both commands, which is
    /// why it is decided here: only typing after typing joins.
    pub fn after(previous: Command, epoch: u64, amalgamating_kind: bool) -> (r: Command)
        ensures
            r.epoch == epoch,
            r.amalgamating_kind == amalgamating_kind,
            r.joins_previous == (amalgamating_kind && previous.amalgamating_kind),
    {
        Command {
            epoch,
            amalgamating_kind,
            joins_previous: amalgamating_kind && previous.amalgamating_kind,
        }
    }
}

/// One edit, described by what it did.
#[derive(Clone, Debug, PartialEq)]
pub enum Change {
    /// `len` characters were inserted at `at`. Undoing deletes them.
    Inserted { at: usize, len: usize },
    /// `text` was deleted from `at`. Undoing puts it back.
    Deleted { at: usize, text: String },
}

/// A change as the text sees it.
pub enum ChangeView {
    Inserted { at: nat, len: nat },
    Deleted { at: nat, text: Seq<char> },
}

impl View for Change {
    type V = ChangeView;

    open spec fn view(&self) -> ChangeView {
        match self {
            Change::Inserted { at, len } => ChangeView::Inserted { at: *at as nat, len: *len as nat },
            Change::Deleted { at, text } => ChangeView::Deleted { at: *at as nat, text: text@ },
        }
    }
}

/// The changes one command made, undone and redone as a unit.
#[derive(Clone, Debug, Default, PartialEq)]
pub struct Group {
    pub changes: Vec<Change>,
    /// Where point was before the group's first change, so undo puts the
    /// cursor back where the edit happened.
    pub point: usize,
}

/// A group as the text sees it.
pub struct GroupView {
    pub changes: Seq<ChangeView>,
    pub point: nat,
}

impl View for Group {
    type V = GroupView;

    open spec fn view(&self) -> GroupView {
        GroupView { changes: self.changes@.map_values(|c: Change| c@), point: self.point as nat }
    }
}

/// Where a change happened.
pub open spec fn change_at(c: ChangeView) -> nat {
    match c {
        ChangeView::Inserted { at, .. } => at,
        ChangeView::Deleted { at, .. } => at,
    }
}

/// Where the characters an insertion of `len` at `at` put into `s` end, as far
/// as `s` reaches.
pub open spec fn inserted_end(s: Seq<char>, at: nat, len: nat) -> int {
    if at + len <= s.len() {
        (at + len) as int
    } else {
        s.len() as int
    }
}

/// The text before `c` was made, from the text after it: an insertion is
/// taken out again, a deletion put back. Positions past the end are clamped to
/// it, as the text itself clamps them.
pub open spec fn undo_change(s: Seq<char>, c: ChangeView) -> Seq<char> {
    match c {
        ChangeView::Inserted { at, len } => {
            let end = inserted_end(s, at, len);
            if at < end {
                s.take(at as int) + s.skip(end)
            } else {
                s
            }
        },
        ChangeView::Deleted { at, text } => {
            let p = if at <= s.len() {
                at as int
            } else {
                s.len() as int
            };
            s.take(p) + text + s.skip(p)
        },
    }
}

/// The change that undoing `c` on `s` amounts to: removing an insertion is a
/// deletion of what it had inserted, putting back a deletion is an insertion.
pub open spec fn inverse_change(s: Seq<char>, c: ChangeView) -> ChangeView {
    match c {
        ChangeView::Inserted { at, len } => {
            let end = inserted_end(s, at, len);
            ChangeView::Deleted {
                at,
                text: if at < end {
                    s.subrange(at as int, end)
                } else {
                    Seq::empty()
                },
            }
        },
        ChangeView::Deleted { at, text } => ChangeView::Inserted { at, len: text.len() },
    }
}

/// Whether `c` describes an edit that can have produced `s`: what it inserted
/// is all there, and where it deleted is inside the text.
pub open spec fn change_fits(s: Seq<char>, c: ChangeView) -> bool {
    match c {
        ChangeView::Inserted { at, len } => at + len <= s.len(),
        ChangeView::Deleted { at, .. } => at <= s.len(),
    }
}

/// The text before all of `cs` were made, from the text after: the latest
/// change is taken back first.
pub open spec fn undo_all(s: Seq<char>, cs: Seq<ChangeView>) -> Seq<char>
    decreases cs.len(),
{
    if cs.len() == 0 {
        s
    } else {
        undo_change(undo_all(s, cs.drop_first()), cs[0])
    }
}

/// The changes that undoing all of `cs` on `s` amounts to, in the order they
/// are made: the inverse of the latest change first.
pub open spec fn inverse_all(s: Seq<char>, cs: Seq<ChangeView>) -> Seq<ChangeView>
    decreases cs.len(),
{
    if cs.len() == 0 {
        Seq::empty()
    } else {
        inverse_all(s, cs.drop_first()).push(inverse_change(undo_all(s, cs.drop_first()), cs[0]))
    }
}

/// Whether every change of `cs` fits the text it is undone on.
pub open spec fn fits_all(s: Seq<char>, cs: Seq<ChangeView>) -> bool
    decreases cs.len(),
{
    if cs.len() == 0 {
        true
    } else {
        fits_all(s, cs.drop_first()) && change_fits(undo_all(s, cs.drop_first()), cs[0])
    }
}

/// Whether undoing `cs` on `s` keeps the text within what a buffer holds at
/// every step.
pub open spec fn undo_room(s: Seq<char>, cs: Seq<ChangeView>) -> bool
    decreases cs.len(),
{
    if cs.len() == 0 {
        true
    } else {
        undo_room(s, cs.drop_first()) && undo_change(undo_all(s, cs.drop_first()), cs[0]).len()
            <= max_text_len()
    }
}

/// Where point goes when the inverse of `g` is itself undone: where `g`'s
/// first change was made, which is where the user was standing.
pub open spec fn inverse_point(g: GroupView) -> nat {
    if g.changes.len() > 0 {
        change_at(g.changes[0])
    } else {
        g.point
    }
}

/// The group that undoing `g` on `s` amounts to.
pub open spec fn inverse_group(s: Seq<char>, g: GroupView) -> GroupView {
    GroupView { changes: inverse_all(s, g.changes), point: inverse_point(g) }
}

/// Undoing a sequence of changes with one more at its end takes that one back
/// first.
proof fn lemma_undo_all_push(s: Seq<char>, cs: Seq<ChangeView>, c: ChangeView)
    ensures
        undo_all(s, cs.push(c)) == undo_all(undo_change(s, c), cs),
        inverse_all(s, cs.push(c)) == seq![inverse_change(s, c)] + inverse_all(undo_change(s, c), cs),
        fits_all(s, cs.push(c)) == (change_fits(s, c) && fits_all(undo_change(s, c), cs)),
        undo_room(s, cs.push(c)) == (undo_change(s, c).len() <= max_text_len() && undo_room(
            undo_change(s, c),
            cs,
        )),
    decreases cs.len(),
{
    let x = cs.push(c);
    if cs.len() == 0 {
        let e = Seq::<ChangeView>::empty();
        assert(x.drop_first() =~= e);
        assert(x[0] == c);
        assert(undo_all(s, e) == s);
        assert(undo_all(undo_change(s, c), e) == undo_change(s, c));
        assert(inverse_all(s, e) == e);
        assert(inverse_all(undo_change(s, c), e) == e);
        assert(fits_all(s, e));
        assert(fits_all(undo_change(s, c), e));
        assert(undo_room(s, e));
        assert(undo_room(undo_change(s, c), e));
        assert(e.push(inverse_change(s, c)) =~= seq![inverse_change(s, c)] + e);
    } else {
        let rest = cs.drop_first();
        let s2 = undo_change(s, c);
        assert(x.drop_first() =~= rest.push(c));
        assert(x[0] == cs[0]);
        lemma_undo_all_push(s, rest, c);
        assert(undo_all(s, x) == undo_change(undo_all(s, rest.push(c)), cs[0]));
        assert(undo_all(s2, cs) == undo_change(undo_all(s2, rest), cs[0]));
        assert(inverse_all(s, x) == inverse_all(s, rest.push(c)).push(
            inverse_change(undo_all(s, rest.push(c)), cs[0]),
        ));
        assert(inverse_all(s2, cs) == inverse_all(s2, rest).push(
            inverse_change(undo_all(s2, rest), cs[0]),
        ));
        assert(inverse_all(s, x) =~= seq![inverse_change(s, c)] + inverse_all(s2, cs));
        assert(fits_all(s, x) == (fits_all(s, rest.push(c)) && change_fits(
            undo_all(s, rest.push(c)),
            cs[0],
        )));
        assert(fits_all(s2, cs) == (fits_all(s2, rest) && change_fits(undo_all(s2, rest), cs[0])));
        assert(undo_room(s, x) == (undo_room(s, rest.push(c)) && undo_change(
            undo_all(s, rest.push(c)),
            cs[0],
        ).len() <= max_text_len()));
        assert(undo_room(s2, cs) == (undo_room(s2, rest) && undo_change(undo_all(s2, rest), cs[0]).len()
            <= max_text_len()));
    }
}

/// A change that fits is taken back exactly by its inverse, and the inverse's
/// inverse is the change again.
proof fn lemma_change_round_trip(s: Seq<char>, c: ChangeView)
    requires
        change_fits(s, c),
    ensures
        change_fits(undo_change(s, c), inverse_change(s, c)),
        undo_change(undo_change(s, c), inverse_change(s, c)) == s,
        inverse_change(undo_change(s, c), inverse_change(s, c)) == c,
{
    let t = undo_change(s, c);
    match c {
        ChangeView::Inserted { at, len } => {
            if len == 0 {
                assert(s.take(at as int) + s.subrange(at as int, at as int) + s.skip(at as int) =~= s);
                assert(s.subrange(at as int, at as int) =~= Seq::<char>::empty());
                assert(inverse_change(s, c) == ChangeView::Deleted { at, text: Seq::<char>::empty() });
                assert(t == s);
                assert(undo_change(t, inverse_change(s, c)) =~= s);
            } else {
                let text = s.subrange(at as int, (at + len) as int);
                assert(inverse_change(s, c) == ChangeView::Deleted { at, text });
                assert(t.take(at as int) =~= s.take(at as int));
                assert(t.skip(at as int) =~= s.skip((at + len) as int));
                assert(t.take(at as int) + text + t.skip(at as int) =~= s);
                assert(text.len() == len);
            }
        },
        ChangeView::Deleted { at, text } => {
            assert(t == s.take(at as int) + text + s.skip(at as int));
            assert(t.len() == s.len() + text.len());
            assert(t.subrange(at as int, (at + text.len()) as int) =~= text);
            if text.len() > 0 {
                assert(t.take(at as int) + t.skip((at + text.len()) as int) =~= s);
            } else {
                assert(text =~= Seq::<char>::empty());
                assert(s.take(at as int) + text + s.skip(at as int) =~= s);
            }
        },
    }
}

/// Whether `c` is the record of an edit that took `before` to `after`: an
/// insertion of `len` characters at `at`, or a deletion of `text` from `at`.
pub open spec fn describes(before: Seq<char>, after: Seq<char>, c: ChangeView) -> bool {
    match c {
        ChangeView::Inserted { at, len } => at <= before.len() && exists|content: Seq<char>|
            content.len() == len && after == #[trigger] (before.take(at as int) + content
                + before.skip(at as int)),
        ChangeView::Deleted { at, text } => at + text.len() <= before.len() && before.subrange(
            at as int,
            (at + text.len()) as int,
        ) == text && after == before.take(at as int) + before.skip((at + text.len()) as int),
    }
}

/// Whether `cs`, oldest first, is the record of edits that took the text
/// through `ts`, one after the other: `cs[i]` took `ts[i]` to `ts[i + 1]`.
pub open spec fn describes_all(ts: Seq<Seq<char>>, cs: Seq<ChangeView>) -> bool {
    &&& ts.len() == cs.len() + 1
    &&& forall|i: int| 0 <= i < cs.len() ==> describes(ts[i], ts[i + 1], #[trigger] cs[i])
}

/// Undoing the record of a run of edits, the latest first, gives back the
/// text from before the first of them.
pub proof fn lemma_undo_restores_edits(ts: Seq<Seq<char>>, cs: Seq<ChangeView>)
    requires
        describes_all(ts, cs),
    ensures
        undo_all(ts.last(), cs) == ts[0],
    decreases cs.len(),
{
    if cs.len() > 0 {
        let rest = cs.drop_last();
        let c = cs.last();
        let k = rest.len() as int;
        let mid = ts[k];
        assert(describes(mid, ts.last(), cs[k]));
        let ts0 = ts.drop_last();
        assert forall|i: int| 0 <= i < rest.len() implies describes(ts0[i], ts0[i + 1], #[trigger] rest[i]) by {
            assert(describes(ts[i], ts[i + 1], cs[i]));
        }
        lemma_undo_restores_edits(ts0, rest);
        assert(rest.push(c) =~= cs);
        lemma_undo_all_push(ts.last(), rest, c);
        match c {
            ChangeView::Inserted { at, len } => {
                let content = choose|content: Seq<char>| content.len() == len && ts.last() == #[trigger] (
                mid.take(at as int) + content + mid.skip(at as int));
                lemma_undo_insertion(mid, at, content);
            },
            ChangeView::Deleted { at, text } => {
                lemma_undo_deletion(mid, at, (at + text.len()) as nat);
            },
        }
    }
}

/// The texts a group's record runs through once `c`, taking the last of `ts`
/// to `next`, is recorded into it: an insertion folded into the one it
/// continues replaces that one's step.
pub open spec fn texts_after(ts: Seq<Seq<char>>, cs: Seq<ChangeView>, c: ChangeView, next: Seq<char>) -> Seq<Seq<char>> {
    if cs.len() > 0 && continues(cs.last(), c) {
        ts.drop_last().push(next)
    } else {
        ts.push(next)
    }
}

/// Recording an edit into a group keeps the group the record of the edits
/// made: an insertion folded into the one it continues describes both.
pub proof fn lemma_recording_describes(ts: Seq<Seq<char>>, cs: Seq<ChangeView>, c: ChangeView, next: Seq<char>)
    requires
        describes_all(ts, cs),
        describes(ts.last(), next, c),
    ensures
        describes_all(texts_after(ts, cs, c, next), add_change(cs, c)),
        texts_after(ts, cs, c, next)[0] == ts[0],
        texts_after(ts, cs, c, next).last() == next,
{
    let added = add_change(cs, c);
    let us = texts_after(ts, cs, c, next);
    if cs.len() > 0 && continues(cs.last(), c) {
        let k = cs.len() - 1;
        let prev = cs.last();
        let before = ts[k];
        let mid = ts.last();
        assert(describes(before, mid, cs[k]));
        if let (ChangeView::Inserted { at: pa, len: pl }, ChangeView::Inserted { at, len }) = (prev, c) {
            let a = choose|content: Seq<char>| content.len() == pl && mid == #[trigger] (before.take(
                pa as int,
            ) + content + before.skip(pa as int));
            let b = choose|content: Seq<char>| content.len() == len && next == #[trigger] (mid.take(
                at as int,
            ) + content + mid.skip(at as int));
            let merged = ChangeView::Inserted { at: pa, len: pl + len };
            assert(mid.take(at as int) =~= before.take(pa as int) + a);
            assert(mid.skip(at as int) =~= before.skip(pa as int));
            assert(next =~= before.take(pa as int) + (a + b) + before.skip(pa as int));
            assert(describes(before, next, merged));
            assert(added == cs.drop_last().push(merged));
            assert forall|i: int| 0 <= i < added.len() implies describes(us[i], us[i + 1], #[trigger] added[i]) by {
                if i < k {
                    assert(describes(ts[i], ts[i + 1], cs[i]));
                }
            }
        }
    } else {
        assert(added == cs.push(c));
        assert forall|i: int| 0 <= i < added.len() implies describes(us[i], us[i + 1], #[trigger] added[i]) by {
            if i < cs.len() {
                assert(describes(ts[i], ts[i + 1], cs[i]));
            }
        }
    }
}

/// A boundary with no group open adds none: after one boundary the next
/// closes nothing, so calling it twice between commands is calling it once.
pub proof fn lemma_boundary_twice(h: UndoHistory)
    requires
        h.open() is None,
    ensures
        h.closed_done() == h.done(),
{
}

/// The record a group keeps of the edits CS, made one after the other under
/// one command: each added to the record of those before it.
pub open spec fn recorded(cs: Seq<ChangeView>) -> Seq<ChangeView>
    decreases cs.len(),
{
    if cs.len() == 0 {
        Seq::empty()
    } else {
        add_change(recorded(cs.drop_last()), cs.last())
    }
}

/// The texts the record of CS runs through, for edits that took the text
/// through TS.
pub open spec fn recorded_texts(ts: Seq<Seq<char>>, cs: Seq<ChangeView>) -> Seq<Seq<char>>
    decreases cs.len(),
{
    if cs.len() == 0 {
        seq![ts[0]]
    } else {
        texts_after(recorded_texts(ts.drop_last(), cs.drop_last()), recorded(cs.drop_last()), cs.last(), ts.last())
    }
}

proof fn lemma_recorded_describes(ts: Seq<Seq<char>>, cs: Seq<ChangeView>)
    requires
        describes_all(ts, cs),
    ensures
        describes_all(recorded_texts(ts, cs), recorded(cs)),
        recorded_texts(ts, cs)[0] == ts[0],
        recorded_texts(ts, cs).last() == ts.last(),
    decreases cs.len(),
{
    if cs.len() == 0 {
        assert(describes_all(seq![ts[0]], Seq::<ChangeView>::empty()));
    } else {
        let ts0 = ts.drop_last();
        let rest = cs.drop_last();
        assert forall|i: int| 0 <= i < rest.len() implies describes(ts0[i], ts0[i + 1], #[trigger] rest[i]) by {
            assert(describes(ts[i], ts[i + 1], cs[i]));
        }
        lemma_recorded_describes(ts0, rest);
        let k = rest.len() as int;
        assert(describes(ts[k], ts[k + 1], cs[k]));
        lemma_recording_describes(recorded_texts(ts0, rest), recorded(rest), cs.last(), ts.last());
    }
}

/// Undo takes back a whole command: when edits CS took the text through TS,
/// undoing the group they were recorded into gives back the text from
/// before the first of them, however the record merged them.
pub proof fn lemma_command_undone(ts: Seq<Seq<char>>, cs: Seq<ChangeView>)
    requires
        describes_all(ts, cs),
    ensures
        undo_all(ts.last(), recorded(cs)) == ts[0],
{
    lemma_recorded_describes(ts, cs);
    lemma_undo_restores_edits(recorded_texts(ts, cs), recorded(cs));
}

/// The edits of one command land in one group: the first edit after a
/// boundary opens it, with point where it was before that edit, and each
/// later edit of the same command joins it, leaving the completed groups as
/// they were.
pub proof fn lemma_command_edits_one_group(h: UndoHistory, c: ChangeView, point: nat, command: Command)
    requires
        h.open() is None || h.open_epoch() == command.epoch,
    ensures
        h.after_record(c, point, command).0 == h.done(),
        h.after_record(c, point, command).1 == match h.open() {
            Some(g) => GroupView { changes: add_change(g.changes, c), point: g.point },
            None => GroupView { changes: seq![c], point },
        },
{
}

/// Undoing a group and then undoing the group that undo recorded gives back
/// the text the first undo started from, and records the first group again.
///
/// This is why redo needs no mechanism of its own: it is undo run on the
/// other stack, and this is what makes it return the text to where it was.
pub proof fn lemma_redo_reverses_undo(s: Seq<char>, cs: Seq<ChangeView>)
    requires
        fits_all(s, cs),
    ensures
        fits_all(undo_all(s, cs), inverse_all(s, cs)),
        undo_all(undo_all(s, cs), inverse_all(s, cs)) == s,
        inverse_all(undo_all(s, cs), inverse_all(s, cs)) == cs,
        s.len() <= max_text_len() && undo_room(s, cs) ==> undo_room(
            undo_all(s, cs),
            inverse_all(s, cs),
        ),
    decreases cs.len(),
{
    if cs.len() > 0 {
        let rest = cs.drop_first();
        let m = undo_all(s, rest);
        let t = undo_all(s, cs);
        let inv = inverse_change(m, cs[0]);
        lemma_redo_reverses_undo(s, rest);
        lemma_change_round_trip(m, cs[0]);
        lemma_undo_all_push(t, inverse_all(s, rest), inv);
        assert(seq![cs[0]] + rest =~= cs);
        if s.len() <= max_text_len() && undo_room(s, cs) {
            assert(undo_room(s, rest));
            lemma_undo_fits_len(s, rest);
        }
    }
}

/// Every text met while undoing `cs` within room fits a buffer, given the
/// text it starts from does.
proof fn lemma_undo_fits_len(s: Seq<char>, cs: Seq<ChangeView>)
    requires
        s.len() <= max_text_len(),
        undo_room(s, cs),
    ensures
        undo_all(s, cs).len() <= max_text_len(),
    decreases cs.len(),
{
    if cs.len() > 0 {
        lemma_undo_fits_len(s, cs.drop_first());
    }
}

/// Undoing what an insertion recorded gives back the text from before it.
pub proof fn lemma_undo_insertion(s: Seq<char>, at: nat, content: Seq<char>)
    requires
        at <= s.len(),
    ensures
        undo_change(
            s.take(at as int) + content + s.skip(at as int),
            ChangeView::Inserted { at, len: content.len() },
        ) == s,
{
    let t = s.take(at as int) + content + s.skip(at as int);
    assert(t.take(at as int) =~= s.take(at as int));
    assert(t.skip((at + content.len()) as int) =~= s.skip(at as int));
    if content.len() > 0 {
        assert(t.take(at as int) + t.skip((at + content.len()) as int) =~= s);
    } else {
        assert(t =~= s);
    }
}

/// Undoing what a deletion recorded gives back the text from before it.
pub proof fn lemma_undo_deletion(s: Seq<char>, from: nat, to: nat)
    requires
        from <= to <= s.len(),
    ensures
        undo_change(
            s.take(from as int) + s.skip(to as int),
            ChangeView::Deleted { at: from, text: s.subrange(from as int, to as int) },
        ) == s,
{
    let t = s.take(from as int) + s.skip(to as int);
    assert(t.take(from as int) =~= s.take(from as int));
    assert(t.skip(from as int) =~= s.skip(to as int));
    assert(s.take(from as int) + s.subrange(from as int, to as int) + s.skip(to as int) =~= s);
}

/// Two adjacent insertions, the second continuing where the first ended,
/// undo exactly as one insertion of both: which is why typing is recorded as
/// one growing insertion rather than one per key.
pub proof fn lemma_adjacent_insertions_merge(s: Seq<char>, at: nat, first: nat, second: nat)
    requires
        at + first + second <= s.len(),
    ensures
        undo_all(
            s,
            seq![
                ChangeView::Inserted { at, len: first },
                ChangeView::Inserted { at: at + first, len: second },
            ],
        ) == undo_change(s, ChangeView::Inserted { at, len: first + second }),
{
    let cs = seq![
        ChangeView::Inserted { at, len: first },
        ChangeView::Inserted { at: at + first, len: second },
    ];
    assert(cs.drop_first().drop_first() =~= Seq::<ChangeView>::empty());
    assert(cs.drop_first()[0] == ChangeView::Inserted { at: at + first, len: second });
    let m = undo_change(s, ChangeView::Inserted { at: at + first, len: second });
    assert(undo_all(s, cs.drop_first().drop_first()) == s);
    assert(undo_all(s, cs.drop_first()) == m);
    if second > 0 {
        assert(m =~= s.take((at + first) as int) + s.skip((at + first + second) as int));
    } else {
        assert(m =~= s);
    }
    if first > 0 {
        assert(m.take(at as int) =~= s.take(at as int));
        assert(m.skip((at + first) as int) =~= s.skip((at + first + second) as int));
    }
    assert(undo_all(s, cs) =~= undo_change(s, ChangeView::Inserted { at, len: first + second }));
}

/// Put point at OFFSET, doing nothing if it is already there.
///
/// The guard matters: an edit at point is the common case -- it is what
/// typing is -- and seeking to where the cursor already stands would cost a
/// conversion and a gap move between a key and its character.
fn seek<B: BufferTrait>(text: &mut B, offset: usize)
    requires
        old(text).wf(),
        offset <= old(text)@.len(),
    ensures
        final(text).wf(),
        final(text)@ == old(text)@,
        final(text).point() == offset,
{
    if text.cursor_pos_1d() == offset {
        return;
    }
    let (line, col) = text.cursor_1d_to_2d(offset);
    proof {
        lemma_line_col_offset(text@, offset as int);
    }
    text.cursor_move(line, col);
}

/// Remove `[from, to)` from the text, as far as the text reaches, leaving
/// point at `from`.
///
/// This is the unrecorded application step: history is written by the layer
/// that makes edits, and undo and redo reuse this directly, since replaying
/// history must not record itself as new history.
pub fn apply_delete<B: BufferTrait>(text: &mut B, from: usize, to: usize)
    requires
        old(text).wf(),
    ensures
        final(text).wf(),
        ({
            let s = old(text)@;
            let end = if to <= s.len() {
                to as int
            } else {
                s.len() as int
            };
            if from < end {
                final(text)@ == s.take(from as int) + s.skip(end) && final(text).point() == from
            } else {
                final(text)@ == s && final(text).point() == old(text).point()
            }
        }),
{
    let len = text.len();
    let end = if to <= len {
        to
    } else {
        len
    };
    if from >= end {
        return;
    }
    let ghost s = text@;
    seek(text, end);
    let mut k: usize = 0;
    while k < end - from
        invariant
            text.wf(),
            from < end <= s.len(),
            k <= end - from,
            text@ == s.take(end - k) + s.skip(end as int),
            text.point() == end - k,
        decreases end - from - k,
    {
        text.delete();
        proof {
            let e = end - k;
            assert((s.take(e) + s.skip(end as int)).remove(e - 1) =~= s.take(e - 1) + s.skip(
                end as int,
            ));
        }
        k = k + 1;
    }
}

/// Insert `content` at offset `at`, or at the end when `at` is past it,
/// leaving point after it.
pub fn apply_insert<B: BufferTrait>(text: &mut B, at: usize, content: &str)
    requires
        old(text).wf(),
        old(text)@.len() + content@.len() <= max_text_len(),
    ensures
        final(text).wf(),
        ({
            let s = old(text)@;
            let p = if at <= s.len() {
                at as int
            } else {
                s.len() as int
            };
            &&& final(text)@ == s.take(p) + content@ + s.skip(p)
            &&& final(text).point() == p + content@.len()
        }),
{
    broadcast use vstd::string::group_string_axioms;

    let len = text.len();
    let p = if at <= len {
        at
    } else {
        len
    };
    let ghost s = text@;
    let ghost all = content@;
    seek(text, p);
    let mut it = content.chars();
    let ghost mut n: int = 0;
    loop
        invariant
            text.wf(),
            all == content@,
            s.len() + all.len() <= max_text_len(),
            p <= s.len(),
            0 <= n <= all.len(),
            it.remaining() == all.skip(n),
            text@ == s.take(p as int) + all.take(n) + s.skip(p as int),
            text.point() == p + n,
        ensures
            text@ == s.take(p as int) + all + s.skip(p as int),
            text.point() == p + all.len(),
        decreases all.len() - n,
    {
        match it.next() {
            Some(c) => {
                assert(all.skip(n)[0] == all[n]);
                assert(all.skip(n).drop_first() =~= all.skip(n + 1));
                text.insert(c);
                proof {
                    assert((s.take(p as int) + all.take(n) + s.skip(p as int)).insert(p + n, c)
                        =~= s.take(p as int) + all.take(n + 1) + s.skip(p as int));
                    n = n + 1;
                }
            },
            None => {
                assert(all.skip(n).len() == 0);
                assert(all.take(n) =~= all);
                break;
            },
        }
    }
}


/// How many bytes `t` takes in UTF-8: what the history counts deleted text
/// in.
pub open spec fn text_bytes(t: Seq<char>) -> nat {
    (vstd::utf8::encode_utf8(t).len() as usize) as nat
}

/// What a change holds on to: the text a deletion took, nothing for an
/// insertion.
pub open spec fn change_weight(c: ChangeView) -> nat {
    match c {
        ChangeView::Inserted { .. } => 0,
        ChangeView::Deleted { text, .. } => text_bytes(text),
    }
}

pub open spec fn changes_weight(cs: Seq<ChangeView>) -> nat
    decreases cs.len(),
{
    if cs.len() == 0 {
        0
    } else {
        changes_weight(cs.drop_last()) + change_weight(cs.last())
    }
}

pub open spec fn groups_weight(gs: Seq<GroupView>) -> nat
    decreases gs.len(),
{
    if gs.len() == 0 {
        0
    } else {
        groups_weight(gs.drop_last()) + changes_weight(gs.last().changes)
    }
}

/// How many characters the insertions of `cs` put in, together.
pub open spec fn inserted_total(cs: Seq<ChangeView>) -> nat
    decreases cs.len(),
{
    if cs.len() == 0 {
        0
    } else {
        inserted_total(cs.drop_last()) + match cs.last() {
            ChangeView::Inserted { len, .. } => len,
            ChangeView::Deleted { .. } => 0,
        }
    }
}

/// Whether `c` continues the insertion `prev`, starting where it ended.
pub open spec fn continues(prev: ChangeView, c: ChangeView) -> bool {
    match (prev, c) {
        (ChangeView::Inserted { at: pa, len: pl }, ChangeView::Inserted { at, .. }) => pa + pl == at,
        _ => false,
    }
}

/// A group's changes with `c` added: an insertion continuing the last one is
/// folded into it, since a hundred adjacent one-character insertions describe
/// exactly the same edit as one insertion of a hundred.
pub open spec fn add_change(cs: Seq<ChangeView>, c: ChangeView) -> Seq<ChangeView> {
    if cs.len() > 0 && continues(cs.last(), c) {
        match (cs.last(), c) {
            (ChangeView::Inserted { at: pa, len: pl }, ChangeView::Inserted { len, .. }) => cs.drop_last().push(
                ChangeView::Inserted { at: pa, len: pl + len },
            ),
            _ => cs.push(c),
        }
    } else {
        cs.push(c)
    }
}

/// The oldest groups dropped until the text they hold is within `limit`,
/// always keeping the latest.
pub open spec fn trimmed(gs: Seq<GroupView>, bytes: int, limit: nat) -> Seq<GroupView>
    decreases gs.len(),
{
    if bytes > limit && gs.len() > 1 {
        trimmed(gs.drop_first(), bytes - changes_weight(gs[0].changes), limit)
    } else {
        gs
    }
}

proof fn lemma_groups_weight_first(gs: Seq<GroupView>)
    requires
        gs.len() > 0,
    ensures
        groups_weight(gs) == changes_weight(gs[0].changes) + groups_weight(gs.drop_first()),
    decreases gs.len(),
{
    if gs.len() > 1 {
        lemma_groups_weight_first(gs.drop_last());
        assert(gs.drop_last().drop_first() =~= gs.drop_first().drop_last());
        assert(gs.drop_last()[0] == gs[0]);
    } else {
        assert(gs.drop_first() =~= Seq::<GroupView>::empty());
        assert(gs.drop_last() =~= Seq::<GroupView>::empty());
    }
}

proof fn lemma_changes_weight_prefix(cs: Seq<ChangeView>, i: int)
    requires
        0 <= i <= cs.len(),
    ensures
        changes_weight(cs.take(i)) <= changes_weight(cs),
    decreases cs.len(),
{
    if i < cs.len() {
        lemma_changes_weight_prefix(cs.drop_last(), i);
        assert(cs.drop_last().take(i) =~= cs.take(i));
    } else {
        assert(cs.take(i) =~= cs);
    }
}

proof fn lemma_trimmed_len(gs: Seq<GroupView>, bytes: int, limit: nat)
    requires
        gs.len() > 0,
    ensures
        trimmed(gs, bytes, limit).len() > 0,
        trimmed(gs, bytes, limit).last() == gs.last(),
        exists|k: int| 0 <= k < gs.len() && trimmed(gs, bytes, limit) == #[trigger] gs.skip(k),
    decreases gs.len(),
{
    if bytes > limit && gs.len() > 1 {
        lemma_trimmed_len(gs.drop_first(), bytes - changes_weight(gs[0].changes), limit);
        let k = choose|k: int|
            0 <= k < gs.drop_first().len() && trimmed(
                gs.drop_first(),
                bytes - changes_weight(gs[0].changes),
                limit,
            ) == #[trigger] gs.drop_first().skip(k);
        assert(gs.drop_first().skip(k) =~= gs.skip(k + 1));
    } else {
        assert(gs.skip(0) =~= gs);
    }
}

impl Change {
    /// The bytes of deleted text this change holds.
    fn weight(&self) -> (r: usize)
        ensures
            r == change_weight(self@),
    {
        match self {
            Change::Inserted { .. } => 0,
            Change::Deleted { text, .. } => text.as_str().len(),
        }
    }
}

/// The bytes of deleted text a group holds.
fn group_weight(group: &Group) -> (r: usize)
    requires
        changes_weight(group@.changes) <= usize::MAX,
    ensures
        r == changes_weight(group@.changes),
{
    let ghost cs = group@.changes;
    let mut total: usize = 0;
    let mut i: usize = 0;
    while i < group.changes.len()
        invariant
            cs == group@.changes,
            changes_weight(cs) <= usize::MAX,
            i <= cs.len(),
            total == changes_weight(cs.take(i as int)),
        decreases cs.len() - i,
    {
        proof {
            assert(cs.take(i + 1).drop_last() =~= cs.take(i as int));
            assert(group.changes@[i as int]@ == cs[i as int]);
            lemma_changes_weight_prefix(cs, i + 1);
        }
        total = total + group.changes[i].weight();
        i = i + 1;
    }
    proof {
        assert(cs.take(i as int) =~= cs);
    }
    total
}

/// Whether recording the deletion of `text` keeps the count of deleted bytes
/// within a `usize`, with `retained` already held.
pub fn text_fits(retained: usize, text: &String) -> (r: bool)
    ensures
        r == (retained + text_bytes(text@) <= usize::MAX),
{
    text.as_str().len() <= usize::MAX - retained
}

/// A buffer's history of edits, for undo and redo.
#[derive(Debug)]
pub struct UndoHistory {
    /// Completed groups, most recent last.
    done: Vec<Group>,
    /// Groups that have been undone and can be redone, most recent last.
    undone: Vec<Group>,
    /// The group currently being accumulated, if a command is mid-edit.
    open: Option<Group>,
    /// The command `open` was opened under, so that the first edit of the
    /// next command can close it.
    open_epoch: u64,
    /// Bytes of deleted text held in `done` and `open`.
    bytes: usize,
    limit: usize,
}

pub open spec fn groups_view(gs: Seq<Group>) -> Seq<GroupView> {
    gs.map_values(|g: Group| g@)
}

impl UndoHistory {
    /// Completed groups, most recent last.
    pub closed spec fn done(&self) -> Seq<GroupView> {
        groups_view(self.done@)
    }

    /// Undone groups that can be redone, most recent last.
    pub closed spec fn undone(&self) -> Seq<GroupView> {
        groups_view(self.undone@)
    }

    /// The group the current command is adding to.
    pub closed spec fn open(&self) -> Option<GroupView> {
        match self.open {
            Some(g) => Some(g@),
            None => None,
        }
    }

    pub closed spec fn open_epoch(&self) -> u64 {
        self.open_epoch
    }

    /// Bytes of deleted text the history holds.
    pub closed spec fn retained(&self) -> nat {
        self.bytes as nat
    }

    pub closed spec fn limit(&self) -> nat {
        self.limit as nat
    }

    pub closed spec fn inv(&self) -> bool {
        &&& self.bytes == groups_weight(self.done()) + match self.open() {
            Some(g) => changes_weight(g.changes),
            None => 0,
        }
        &&& self.open() matches Some(g) ==> g.changes.len() > 0
    }

    /// The completed groups once the open one is closed.
    pub open spec fn closed_done(&self) -> Seq<GroupView> {
        match self.open() {
            Some(g) => if g.changes.len() > 0 {
                trimmed(self.done().push(g), self.retained() as int, self.limit())
            } else {
                self.done()
            },
            None => self.done(),
        }
    }

    /// The group the next undo takes back, if there is one.
    pub open spec fn pending_undo(&self) -> Option<GroupView> {
        if self.closed_done().len() > 0 {
            Some(self.closed_done().last())
        } else {
            None
        }
    }

    /// Whether an edit made by `command` starts a group of its own: it comes
    /// from another command, and is not a continuing run of typing still
    /// short of the amalgamation limit.
    pub open spec fn closes_for(&self, command: Command) -> bool {
        &&& self.open() is Some
        &&& command.epoch != self.open_epoch()
        &&& !(command.joins_previous && inserted_total(self.open()->0.changes)
            < AMALGAMATION_LIMIT)
    }

    /// What recording `c`, made by `command` with point at `point`, leaves as
    /// the open group and the completed ones.
    pub open spec fn after_record(&self, c: ChangeView, point: nat, command: Command) -> (
        Seq<GroupView>,
        GroupView,
    ) {
        let closes = self.closes_for(command);
        let done = if closes {
            self.closed_done()
        } else {
            self.done()
        };
        let open = if closes {
            GroupView { changes: seq![c], point }
        } else {
            match self.open() {
                Some(g) => GroupView { changes: add_change(g.changes, c), point: g.point },
                None => GroupView { changes: seq![c], point },
            }
        };
        (done, open)
    }
}

impl Default for UndoHistory {
    fn default() -> (r: Self)
        ensures
            r.inv(),
            r.done() == Seq::<GroupView>::empty(),
            r.undone() == Seq::<GroupView>::empty(),
            r.open() is None,
            r.open_epoch() == 0,
            r.limit() == DEFAULT_UNDO_LIMIT,
    {
        let r = UndoHistory {
            done: Vec::new(),
            undone: Vec::new(),
            open: None,
            open_epoch: 0,
            bytes: 0,
            limit: DEFAULT_UNDO_LIMIT,
        };
        proof {
            assert(r.done() =~= Seq::<GroupView>::empty());
            assert(r.undone() =~= Seq::<GroupView>::empty());
        }
        r
    }
}


impl UndoHistory {
    /// Drop the oldest groups until the retained deleted text is under the
    /// limit. Always keeps at least one group, so a single enormous deletion
    /// stays undoable rather than being discarded for being too big.
    fn trim(&mut self)
        requires
            old(self).inv(),
        ensures
            final(self).inv(),
            final(self).done() == trimmed(old(self).done(), old(self).retained() as int, old(self).limit()),
            final(self).undone() == old(self).undone(),
            final(self).open() == old(self).open(),
            final(self).open_epoch() == old(self).open_epoch(),
            final(self).limit() == old(self).limit(),
    {
        let ghost target = trimmed(self.done(), self.bytes as int, self.limit as nat);
        while self.bytes > self.limit && self.done.len() > 1
            invariant
                self.inv(),
                trimmed(self.done(), self.bytes as int, self.limit as nat) == target,
                self.undone() == old(self).undone(),
                self.open() == old(self).open(),
                self.open_epoch() == old(self).open_epoch(),
                self.limit() == old(self).limit(),
            decreases self.done.len(),
        {
            let ghost before = self.done();
            proof {
                lemma_groups_weight_first(before);
            }
            let dropped = self.done.remove(0);
            proof {
                assert(self.done() =~= before.drop_first());
                assert(dropped@ == before[0]);
            }
            let w = group_weight(&dropped);
            self.bytes = self.bytes.saturating_sub(w);
        }
    }
}


impl UndoHistory {
    pub fn set_limit(&mut self, limit: usize)
        requires
            old(self).inv(),
        ensures
            final(self).inv(),
            final(self).limit() == limit,
            final(self).done() == trimmed(old(self).done(), old(self).retained() as int, limit as nat),
            final(self).undone() == old(self).undone(),
            final(self).open() == old(self).open(),
            final(self).open_epoch() == old(self).open_epoch(),
    {
        self.limit = limit;
        self.trim();
    }

    /// Close the group being accumulated, if any. Called between commands --
    /// this is what makes one command undo as one unit.
    pub fn boundary(&mut self)
        requires
            old(self).inv(),
        ensures
            final(self).inv(),
            final(self).done() == old(self).closed_done(),
            final(self).open() is None,
            final(self).undone() == old(self).undone(),
            final(self).open_epoch() == old(self).open_epoch(),
            final(self).limit() == old(self).limit(),
    {
        match self.open.take() {
            Some(group) => {
                if group.changes.len() > 0 {
                    let ghost before = self.done();
                    self.done.push(group);
                    proof {
                        assert(self.done() =~= before.push(group@));
                        assert(self.done().drop_last() =~= before);
                    }
                    self.trim();
                }
            },
            None => {},
        }
    }

    /// How many characters the open group has inserted so far, for deciding
    /// whether a run of typing has grown long enough to break up. A total too
    /// large for a `usize` is reported as `usize::MAX`.
    pub fn open_insert_len(&self) -> (r: usize)
        ensures
            r == match self.open() {
                Some(g) => if inserted_total(g.changes) <= usize::MAX {
                    inserted_total(g.changes)
                } else {
                    usize::MAX as nat
                },
                None => 0,
            },
    {
        match &self.open {
            Some(group) => {
                let ghost cs = group@.changes;
                let mut total: usize = 0;
                let mut i: usize = 0;
                while i < group.changes.len()
                    invariant
                        cs == group@.changes,
                        i <= cs.len(),
                        total == (if inserted_total(cs.take(i as int)) <= usize::MAX {
                            inserted_total(cs.take(i as int))
                        } else {
                            usize::MAX as nat
                        }),
                    decreases cs.len() - i,
                {
                    proof {
                        assert(cs.take(i + 1).drop_last() =~= cs.take(i as int));
                        assert(group.changes@[i as int]@ == cs[i as int]);
                    }
                    let n = match &group.changes[i] {
                        Change::Inserted { len, .. } => *len,
                        Change::Deleted { .. } => 0,
                    };
                    total = total.saturating_add(n);
                    i = i + 1;
                }
                proof {
                    assert(cs.take(i as int) =~= cs);
                }
                total
            },
            None => 0,
        }
    }

    /// Bytes of deleted text the history holds, for a caller that has to
    /// know whether recording more would overflow the count.
    pub fn retained_bytes(&self) -> (r: usize)
        ensures
            r == self.retained(),
    {
        self.bytes
    }

    /// Note that `len` characters were inserted at `at`, by `command`, with
    /// point at `point` before the edit.
    pub fn record_insert(&mut self, at: usize, len: usize, point: usize, command: Command)
        requires
            old(self).inv(),
            at + len <= usize::MAX,
        ensures
            final(self).inv(),
            final(self).undone() == Seq::<GroupView>::empty(),
            (final(self).done(), final(self).open()->0) == old(self).after_record(
                ChangeView::Inserted { at: at as nat, len: len as nat },
                point as nat,
                command,
            ),
            final(self).open() is Some,
            final(self).open_epoch() == command.epoch,
            final(self).limit() == old(self).limit(),
    {
        self.push(Change::Inserted { at, len }, point, command);
    }

    /// Note that `text` was deleted from `at`, by `command`, with point at
    /// `point` before the edit.
    pub fn record_delete(&mut self, at: usize, text: String, point: usize, command: Command)
        requires
            old(self).inv(),
            old(self).retained() + text_bytes(text@) <= usize::MAX,
        ensures
            final(self).inv(),
            final(self).undone() == Seq::<GroupView>::empty(),
            (final(self).done(), final(self).open()->0) == old(self).after_record(
                ChangeView::Deleted { at: at as nat, text: text@ },
                point as nat,
                command,
            ),
            final(self).open() is Some,
            final(self).open_epoch() == command.epoch,
            final(self).limit() == old(self).limit(),
    {
        self.push(Change::Deleted { at, text }, point, command);
    }

    fn push(&mut self, change: Change, point: usize, command: Command)
        requires
            old(self).inv(),
            old(self).retained() + change_weight(change@) <= usize::MAX,
            change matches Change::Inserted { at, len } ==> at + len <= usize::MAX,
        ensures
            final(self).inv(),
            final(self).undone() == Seq::<GroupView>::empty(),
            (final(self).done(), final(self).open()->0) == old(self).after_record(
                change@,
                point as nat,
                command,
            ),
            final(self).open() is Some,
            final(self).open_epoch() == command.epoch,
            final(self).limit() == old(self).limit(),
    {
        // A fresh edit makes the redo branch unreachable: the one cost of a
        // plain two-stack model over a tree, and the behaviour people expect.
        self.undone.clear();
        proof {
            assert(self.undone() =~= Seq::<GroupView>::empty());
        }
        let ghost c = change@;
        let ghost target = old(self).after_record(c, point as nat, command);
        let closes = match &self.open {
            Some(_) => command.epoch != self.open_epoch && !(command.joins_previous
                && self.open_insert_len() < AMALGAMATION_LIMIT),
            None => false,
        };
        if closes {
            self.boundary();
        }
        self.open_epoch = command.epoch;
        let w = change.weight();
        proof {
            if closes {
                let pushed = old(self).done().push(old(self).open()->0);
                assert(pushed.drop_last() =~= old(self).done());
                lemma_trimmed_weight(pushed, old(self).retained() as int, old(self).limit());
            }
        }
        self.bytes = self.bytes + w;
        assert(self.bytes == groups_weight(self.done()) + change_weight(c) + match self.open() {
            Some(g) => changes_weight(g.changes),
            None => 0,
        });
        match self.open.take() {
            None => {
                let mut changes: Vec<Change> = Vec::new();
                changes.push(change);
                let group = Group { changes, point };
                proof {
                    assert(group@.changes =~= seq![c]);
                    assert(seq![c].drop_last() =~= Seq::<ChangeView>::empty());
                    assert(changes_weight(Seq::<ChangeView>::empty()) == 0);
                    assert(changes_weight(seq![c]) == change_weight(c));
                }
                self.open = Some(group);
            },
            Some(mut group) => {
                let ghost before = group@;
                let n = group.changes.len();
                proof {
                    if n > 0 {
                        assert(group.changes@[n - 1]@ == before.changes.last());
                    }
                }
                let mut merged = false;
                if n > 0 {
                    if let Change::Inserted { at, len } = change {
                        if let Change::Inserted { at: prev_at, len: prev_len } = group.changes[n - 1] {
                            if prev_len <= at && at - prev_len == prev_at {
                                group.changes.set(n - 1, Change::Inserted { at: prev_at, len: prev_len + len });
                                merged = true;
                            }
                        }
                    }
                }
                if !merged {
                    group.changes.push(change);
                }
                proof {
                    let cs = before.changes;
                    if merged {
                        assert(continues(cs.last(), c));
                        assert(group@.changes =~= add_change(cs, c));
                        assert(group@.changes.drop_last() =~= cs.drop_last());
                        assert(change_weight(cs.last()) == 0);
                    } else {
                        assert(!(cs.len() > 0 && continues(cs.last(), c)));
                        assert(group@.changes =~= add_change(cs, c));
                        assert(group@.changes.drop_last() =~= cs);
                    }
                    assert(changes_weight(group@.changes) == changes_weight(cs) + change_weight(c));
                }
                self.open = Some(group);
            },
        }
    }
}

impl UndoHistory {
    /// Undo the most recent group. Returns where point should go, or `None`
    /// when there is nothing left to undo.
    pub fn undo<B: BufferTrait>(&mut self, text: &mut B) -> (r: Option<usize>)
        requires
            old(self).inv(),
            old(text).wf(),
            old(self).pending_undo() matches Some(g) ==> undo_room(old(text)@, g.changes),
        ensures
            final(self).inv(),
            final(text).wf(),
            final(self).open() is None,
            final(self).open_epoch() == old(self).open_epoch(),
            final(self).limit() == old(self).limit(),
            match old(self).pending_undo() {
                None => {
                    &&& r is None
                    &&& final(text)@ == old(text)@
                    &&& final(self).done() == old(self).closed_done()
                    &&& final(self).undone() == old(self).undone()
                },
                Some(g) => {
                    &&& r == Some(g.point as usize)
                    &&& final(text)@ == undo_all(old(text)@, g.changes)
                    &&& final(self).done() == old(self).closed_done().drop_last()
                    &&& final(self).undone() == old(self).undone().push(inverse_group(old(text)@, g))
                },
            },
    {
        self.boundary();
        let ghost closed = self.done();
        let group = match self.done.pop() {
            Some(g) => g,
            None => {
                return None;
            },
        };
        proof {
            assert(self.done() =~= closed.drop_last());
            assert(group@ == closed.last());
            assert(closed.drop_last() =~= closed.drop_last());
        }
        let w = group_weight(&group);
        self.bytes = self.bytes.saturating_sub(w);
        let point = group.point;
        let ghost undone_before = self.undone();
        let inverse = Self::apply_inverse(text, group);
        self.undone.push(inverse);
        proof {
            assert(self.undone() =~= undone_before.push(inverse@));
        }
        Some(point)
    }

    /// Redo the most recently undone group. Returns where point should go, or
    /// `None` when there is nothing to redo.
    pub fn redo<B: BufferTrait>(&mut self, text: &mut B) -> (r: Option<usize>)
        requires
            old(self).inv(),
            old(text).wf(),
            old(self).undone().len() > 0 ==> undo_room(old(text)@, old(self).undone().last().changes)
                && old(self).retained() + changes_weight(
                inverse_all(old(text)@, old(self).undone().last().changes),
            ) <= usize::MAX,
        ensures
            final(self).inv(),
            final(text).wf(),
            final(self).open() == old(self).open(),
            final(self).open_epoch() == old(self).open_epoch(),
            final(self).limit() == old(self).limit(),
            old(self).undone().len() == 0 ==> {
                &&& r is None
                &&& final(text)@ == old(text)@
                &&& final(self).done() == old(self).done()
                &&& final(self).undone() == old(self).undone()
            },
            old(self).undone().len() > 0 ==> {
                let g = old(self).undone().last();
                &&& r == Some(g.point as usize)
                &&& final(text)@ == undo_all(old(text)@, g.changes)
                &&& final(self).done() == old(self).done().push(inverse_group(old(text)@, g))
                &&& final(self).undone() == old(self).undone().drop_last()
            },
    {
        let ghost undone_before = self.undone();
        let group = match self.undone.pop() {
            Some(g) => g,
            None => {
                return None;
            },
        };
        proof {
            assert(self.undone() =~= undone_before.drop_last());
            assert(group@ == undone_before.last());
        }
        let point = group.point;
        let ghost done_before = self.done();
        let inverse = Self::apply_inverse(text, group);
        let w = group_weight(&inverse);
        self.bytes = self.bytes + w;
        self.done.push(inverse);
        proof {
            assert(self.done() =~= done_before.push(inverse@));
            assert(self.done().drop_last() =~= done_before);
        }
        Some(point)
    }

    /// Apply the inverse of `group` to the text, and return the group that
    /// would in turn undo what was just done.
    ///
    /// Changes are inverted in reverse order: a group's later edits are
    /// described in terms of the text its earlier edits produced, so they
    /// come apart in the opposite order to the one they went together in.
    ///
    /// Replaying history cannot record itself as new history: this reaches
    /// for [`apply_delete`] and [`apply_insert`] directly, below the layer that
    /// writes the history.
    fn apply_inverse<B: BufferTrait>(text: &mut B, group: Group) -> (r: Group)
        requires
            old(text).wf(),
            undo_room(old(text)@, group@.changes),
        ensures
            final(text).wf(),
            final(text)@ == undo_all(old(text)@, group@.changes),
            r@ == inverse_group(old(text)@, group@),
    {
        let ghost s = text@;
        let ghost cs = group@.changes;
        let n = group.changes.len();
        let mut inverse: Vec<Change> = Vec::with_capacity(n);
        let mut i = n;
        while i > 0
            invariant
                text.wf(),
                cs == group@.changes,
                n == cs.len(),
                i <= n,
                undo_room(s, cs),
                text@ == undo_all(s, cs.skip(i as int)),
                inverse@.map_values(|c: Change| c@) == inverse_all(s, cs.skip(i as int)),
            decreases i,
        {
            i = i - 1;
            let ghost rest = cs.skip(i + 1);
            let ghost cur = text@;
            proof {
                assert(cs.skip(i as int).drop_first() =~= rest);
                assert(cs.skip(i as int)[0] == cs[i as int]);
                assert(group.changes@[i as int]@ == cs[i as int]);
                lemma_undo_room_suffix(s, cs, i as int);
            }
            let ghost before_inv = inverse@;
            match &group.changes[i] {
                Change::Inserted { at, len } => {
                    let at = *at;
                    let len = *len;
                    let tl = text.len();
                    let stop = if at <= tl {
                        if len <= tl - at {
                            at + len
                        } else {
                            tl
                        }
                    } else {
                        at
                    };
                    // Capture the text as it is removed: this is what makes
                    // the corresponding redo possible without a copy stored
                    // in advance.
                    let mut removed = String::new();
                    if at < stop {
                        let mut j = at;
                        while j < stop
                            invariant
                                text.wf(),
                                text@ == cur,
                                at <= j <= stop <= cur.len(),
                                removed@ == cur.subrange(at as int, j as int),
                            decreases stop - j,
                        {
                            match text.at(j) {
                                Some(c) => {
                                    removed.push(c);
                                },
                                None => {},
                            }
                            proof {
                                assert(removed@ =~= cur.subrange(at as int, j + 1));
                            }
                            j = j + 1;
                        }
                    }
                    apply_delete(text, at, at.saturating_add(len));
                    proof {
                        if !(at < stop) {
                            assert(removed@ =~= Seq::<char>::empty());
                        }
                    }
                    inverse.push(Change::Deleted { at, text: removed });
                },
                Change::Deleted { at, text: content } => {
                    apply_insert(text, *at, content.as_str());
                    inverse.push(Change::Inserted { at: *at, len: content.as_str().unicode_len() });
                },
            }
            proof {
                assert(inverse@.map_values(|c: Change| c@) =~= before_inv.map_values(|c: Change| c@).push(
                    inverse_change(cur, cs[i as int]),
                ));
            }
        }
        let point = if n > 0 {
            match &group.changes[0] {
                Change::Inserted { at, .. } => *at,
                Change::Deleted { at, .. } => *at,
            }
        } else {
            group.point
        };
        proof {
            assert(cs.skip(0) =~= cs);
            if n > 0 {
                assert(group.changes@[0]@ == cs[0]);
            }
        }
        Group { changes: inverse, point }
    }
}

/// Room to undo a sequence of changes includes room to undo any of its later
/// parts.
proof fn lemma_undo_room_suffix(s: Seq<char>, cs: Seq<ChangeView>, i: int)
    requires
        0 <= i < cs.len(),
        undo_room(s, cs),
    ensures
        undo_room(s, cs.skip(i)),
        undo_room(s, cs.skip(i + 1)),
        undo_change(undo_all(s, cs.skip(i + 1)), cs[i]).len() <= max_text_len(),
    decreases i,
{
    if i > 0 {
        assert(cs.drop_first().skip(i - 1) =~= cs.skip(i));
        assert(cs.drop_first().skip(i) =~= cs.skip(i + 1));
        assert(cs.drop_first()[i - 1] == cs[i]);
        lemma_undo_room_suffix(s, cs.drop_first(), i - 1);
    } else {
        assert(cs.skip(0) =~= cs);
        assert(cs.skip(1) =~= cs.drop_first());
    }
}

/// Trimming never adds to what the history holds.
proof fn lemma_trimmed_weight(gs: Seq<GroupView>, bytes: int, limit: nat)
    ensures
        groups_weight(trimmed(gs, bytes, limit)) <= groups_weight(gs),
    decreases gs.len(),
{
    if bytes > limit && gs.len() > 1 {
        lemma_trimmed_weight(gs.drop_first(), bytes - changes_weight(gs[0].changes), limit);
        lemma_groups_weight_first(gs);
    }
}

} // verus!
