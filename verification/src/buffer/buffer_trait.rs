//! What the editor asks of the text behind a buffer.
use vstd::prelude::*;
use crate::buffer::lines::{line_col, line_col_to_offset, line_text, newline_count, offset_to_line_col};

verus! {

/// The longest text a buffer will hold: a quarter of the address space, so
/// that the storage behind it can always double without overflowing.
pub open spec fn max_text_len() -> nat {
    (usize::MAX / 4) as nat
}

/// The nearest offset before `p` holding `c`.
pub open spec fn nearest_before(s: Seq<char>, p: int, c: char) -> Option<int>
    decreases p,
{
    if p <= 0 {
        None
    } else if s[p - 1] == c {
        Some(p - 1)
    } else {
        nearest_before(s, p - 1, c)
    }
}

/// The nearest offset after `p` holding `c`. The character at `p` itself is
/// not looked at.
pub open spec fn nearest_after(s: Seq<char>, p: int, c: char) -> Option<int>
    decreases s.len() - p,
{
    if p + 1 >= s.len() {
        None
    } else if s[p + 1] == c {
        Some(p + 1)
    } else {
        nearest_after(s, p + 1, c)
    }
}

/// The character whose end sits at `line`, `col`: after reading it, a reader
/// stands on that line at that column. A newline ends at column 0 of the next
/// line.
pub open spec fn char_ending_at(s: Seq<char>, line: int, col: int) -> Option<char> {
    if exists|i: int| 0 <= i < s.len() && #[trigger] line_col(s, i + 1) == (line, col) {
        Some(s[choose|i: int| 0 <= i < s.len() && #[trigger] line_col(s, i + 1) == (line, col)])
    } else {
        None
    }
}

/// A text with a point in it: what a buffer is, as far as editing goes.
///
/// The view is the text; `point` is where the cursor stands in it.
pub trait BufferTrait: Sized + View<V = Seq<char>> {
    /// Where the cursor stands, as a character offset.
    spec fn point(&self) -> nat;

    /// Whether the representation is in order.
    spec fn wf(&self) -> bool;

    proof fn lemma_wf(&self)
        requires
            self.wf(),
        ensures
            self.point() <= self@.len(),
            self@.len() <= max_text_len(),
    ;

    /// An empty text.
    fn new_empty() -> (r: Self)
        ensures
            r.wf(),
            r@ == Seq::<char>::empty(),
            r.point() == 0,
    ;

    /// A text holding TEXT, with the cursor at its start.
    fn from_text(text: &str) -> (r: Self)
        requires
            text@.len() <= max_text_len(),
        ensures
            r.wf(),
            r@ == text@,
            r.point() == 0,
    ;

    fn len(&self) -> (r: usize)
        requires
            self.wf(),
        ensures
            r == self@.len(),
    ;

    fn at_line_col(&self, line: usize, col: usize) -> (r: Option<char>)
        requires
            self.wf(),
        ensures
            r == char_ending_at(self@, line as int, col as int),
    ;

    fn at(&self, pos: usize) -> (r: Option<char>)
        requires
            self.wf(),
        ensures
            r == (if pos < self@.len() {
                Some(self@[pos as int])
            } else {
                None
            }),
    ;

    fn cursor_pos(&self) -> (r: (usize, usize))
        requires
            self.wf(),
        ensures
            (r.0 as int, r.1 as int) == line_col(self@, self.point() as int),
    ;

    fn cursor_pos_1d(&self) -> (r: usize)
        requires
            self.wf(),
        ensures
            r == self.point(),
    ;

    fn cursor_1d_to_2d(&self, pos: usize) -> (r: (usize, usize))
        requires
            self.wf(),
        ensures
            (r.0 as int, r.1 as int) == offset_to_line_col(self@, pos as int),
    ;

    fn cursor_2d_to_1d(&self, line: usize, col: usize) -> (r: usize)
        requires
            self.wf(),
        ensures
            r == line_col_to_offset(self@, line as int, col as int),
    ;

    fn cursor_move_forward(&mut self) -> (moved: bool)
        requires
            old(self).wf(),
        ensures
            final(self).wf(),
            final(self)@ == old(self)@,
            moved == (old(self).point() < old(self)@.len()),
            final(self).point() == (if moved {
                old(self).point() + 1
            } else {
                old(self).point() + 0
            }),
    ;

    fn cursor_move_backward(&mut self) -> (moved: bool)
        requires
            old(self).wf(),
        ensures
            final(self).wf(),
            final(self)@ == old(self)@,
            moved == (old(self).point() > 0),
            final(self).point() == (if moved {
                old(self).point() - 1
            } else {
                old(self).point() as int
            }),
    ;

    fn cursor_move(&mut self, line: usize, col: usize)
        requires
            old(self).wf(),
        ensures
            final(self).wf(),
            final(self)@ == old(self)@,
            final(self).point() == line_col_to_offset(old(self)@, line as int, col as int),
    ;

    fn find_backward(&mut self, c: char) -> (r: Option<usize>)
        requires
            old(self).wf(),
        ensures
            final(self).wf(),
            final(self)@ == old(self)@,
            final(self).point() == old(self).point(),
            r matches Some(p) ==> nearest_before(old(self)@, old(self).point() as int, c) == Some(
                p as int,
            ),
            r is None ==> nearest_before(old(self)@, old(self).point() as int, c) is None,
    ;

    /// The search stops one short of the end, which an empty text does not
    /// have, so an empty text is not accepted.
    fn find_forward(&mut self, c: char) -> (r: Option<usize>)
        requires
            old(self).wf(),
            old(self)@.len() > 0,
        ensures
            final(self).wf(),
            final(self)@ == old(self)@,
            final(self).point() == old(self).point(),
            r matches Some(p) ==> nearest_after(old(self)@, old(self).point() as int, c) == Some(
                p as int,
            ),
            r is None ==> nearest_after(old(self)@, old(self).point() as int, c) is None,
    ;

    fn insert(&mut self, c: char)
        requires
            old(self).wf(),
            old(self)@.len() < max_text_len(),
        ensures
            final(self).wf(),
            final(self)@ == old(self)@.insert(old(self).point() as int, c),
            final(self).point() == old(self).point() + 1,
    ;

    fn delete(&mut self)
        requires
            old(self).wf(),
        ensures
            final(self).wf(),
            old(self).point() > 0 ==> final(self)@ == old(self)@.remove(old(self).point() - 1)
                && final(self).point() == old(self).point() - 1,
            old(self).point() == 0 ==> final(self)@ == old(self)@ && final(self).point() == 0,
    ;

    fn clear(&mut self)
        ensures
            final(self).wf(),
            final(self)@ == Seq::<char>::empty(),
            final(self).point() == 0,
    ;

    fn line_count(&self) -> (r: usize)
        requires
            self.wf(),
        ensures
            r == newline_count(self@) + 1,
    ;

    fn get_lines(&self, start_line: usize, end_line: usize) -> (r: Vec<String>)
        requires
            self.wf(),
        ensures
            r.len() == (if start_line <= end_line {
                end_line - start_line
            } else {
                0
            }),
            forall|i: int|
                0 <= i < r.len() ==> (#[trigger] r[i])@ == line_text(self@, start_line + i),
    ;
}


/// Deleting the character just typed gives back the text from before it: an
/// insertion at point leaves point after the character, and a deletion takes
/// the character before point.
pub proof fn lemma_delete_undoes_insert(s: Seq<char>, point: nat, c: char)
    requires
        point <= s.len(),
    ensures
        s.insert(point as int, c).remove(point as int) == s,
{
    assert(s.insert(point as int, c).remove(point as int) =~= s);
}
} // verus!
