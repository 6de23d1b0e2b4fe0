//! The first gap buffer: text with a hole at the cursor, and nothing else.
//!
//! Line and column are found by counting from the start of the text, which is
//! what the buffer with a line index beside it was later written to avoid.
use vstd::prelude::*;
use vstd::std_specs::iter::IteratorSpec;
use crate::buffer::buffer_trait::max_text_len;
use crate::buffer::gap_buffer::copy_within;
use crate::buffer::lines::{
    line_col, line_col_to_offset, line_start, line_end, newlines, lemma_line_col_within,
    lemma_line_bounds, lemma_line_col_newlines, lemma_newlines_split, lemma_line_col_offset,
    lemma_line_col_at_end,
};

verus! {

/// A text with a cursor in it, as the first gap buffer offered it.
pub trait BufferTrait: Sized + View<V = Seq<char>> {
    /// Where the cursor stands, as a character offset.
    spec fn point(&self) -> nat;

    /// Whether the representation is in order.
    spec fn wf(&self) -> bool;

    fn from_text(text: &str) -> (r: Self)
        requires
            text@.len() <= max_text_len(),
        ensures
            r.wf(),
            r@ == text@,
            r.point() == 0,
    ;

    fn cursor_pos(&self) -> (r: (usize, usize))
        requires
            self.wf(),
        ensures
            (r.0 as int, r.1 as int) == line_col(self@, self.point() as int),
    ;

    fn cursor_move(&mut self, row: usize, col: usize)
        requires
            old(self).wf(),
        ensures
            final(self).wf(),
            final(self)@ == old(self)@,
            final(self).point() == line_col_to_offset(old(self)@, row as int, col as int),
    ;

    fn insert(&mut self, c: char)
        requires
            old(self).wf(),
            old(self)@.len() < max_text_len(),
        ensures
            final(self).wf(),
            final(self)@ == old(self)@.insert(old(self).point() as int, c),
            final(self).point() == old(self).point() + 1,
    ;

    fn delete_char(&mut self)
        requires
            old(self).wf(),
        ensures
            final(self).wf(),
            old(self).point() > 0 ==> final(self)@ == old(self)@.remove(old(self).point() - 1)
                && final(self).point() == old(self).point() - 1,
            old(self).point() == 0 ==> final(self)@ == old(self)@ && final(self).point() == 0,
    ;
}

pub struct GapBuffer {
    data: Vec<char>,
    gap_start: usize,
    gap_end: usize,
}

impl View for GapBuffer {
    type V = Seq<char>;

    closed spec fn view(&self) -> Seq<char> {
        self.data@.subrange(0, self.gap_start as int) + self.data@.subrange(
            self.gap_end as int,
            self.data@.len() as int,
        )
    }
}

impl Default for GapBuffer {
    fn default() -> (r: Self)
        ensures
            r.inv(),
            r@ == Seq::<char>::empty(),
            r.cursor() == 0,
            r.capacity() == GapBuffer::GAPBUFFER_BASE_LEN,
    {
        let r = GapBuffer {
            data: vec![char::default(); GapBuffer::GAPBUFFER_BASE_LEN],
            gap_start: 0,
            gap_end: GapBuffer::GAPBUFFER_BASE_LEN,
        };
        assert(r@ =~= Seq::<char>::empty());
        r
    }
}

impl GapBuffer {
    pub const GAPBUFFER_BASE_LEN: usize = 1024;

    pub closed spec fn inv(&self) -> bool {
        &&& self.gap_start <= self.gap_end <= self.data@.len()
        &&& 0 < self.data@.len() <= 2 * max_text_len()
        &&& self@.len() <= max_text_len()
    }

    /// Where the cursor stands: the start of the gap.
    pub closed spec fn cursor(&self) -> nat {
        self.gap_start as nat
    }

    /// How many characters the storage holds, text and gap together.
    pub closed spec fn capacity(&self) -> nat {
        self.data@.len()
    }

    proof fn lemma_text(&self)
        requires
            self.inv(),
        ensures
            self@.len() == self.gap_start + (self.data@.len() - self.gap_end),
            forall|i: int| 0 <= i < self.gap_start ==> #[trigger] self@[i] == self.data@[i],
            forall|i: int|
                self.gap_start <= i < self@.len() ==> #[trigger] self@[i] == self.data@[i
                    + self.gap_end - self.gap_start],
    {
    }

    pub fn new() -> (r: Self)
        ensures
            r.inv(),
            r@ == Seq::<char>::empty(),
            r.cursor() == 0,
            r.capacity() == GapBuffer::GAPBUFFER_BASE_LEN,
    {
        GapBuffer::default()
    }

    /// How many characters can be typed before the storage has to grow.
    pub fn gap_width(&self) -> (r: usize)
        requires
            self.inv(),
        ensures
            r == self.capacity() - self@.len(),
    {
        proof {
            self.lemma_text();
        }
        self.gap_end - self.gap_start
    }

    /// The text, as a string.
    pub fn to_string(&self) -> (r: String)
        requires
            self.inv(),
        ensures
            r@ == self@,
    {
        proof {
            self.lemma_text();
        }
        let len = self.gap_start + self.data.len() - self.gap_end;
        let mut ret = String::new();
        let mut i: usize = 0;
        while i < len
            invariant
                self.inv(),
                len == self@.len(),
                i <= len,
                ret@ == self@.take(i as int),
            decreases len - i,
        {
            let c = self.logical_char(i);
            ret.push(c);
            proof {
                assert(self@.take(i + 1) =~= self@.take(i as int).push(c));
            }
            i = i + 1;
        }
        proof {
            assert(self@.take(len as int) =~= self@);
        }
        ret
    }

    fn logical_char(&self, i: usize) -> (r: char)
        requires
            self.inv(),
            i < self@.len(),
        ensures
            r == self@[i as int],
    {
        proof {
            self.lemma_text();
        }
        if i < self.gap_start {
            self.data[i]
        } else {
            self.data[i + (self.gap_end - self.gap_start)]
        }
    }

    pub fn cursor_pos(&self) -> (r: usize)
        ensures
            r == self.cursor(),
    {
        self.gap_start
    }

    pub fn cursor_line_col(&self) -> (r: (usize, usize))
        requires
            self.inv(),
        ensures
            (r.0 as int, r.1 as int) == line_col(self@, self.cursor() as int),
    {
        let mut line: usize = 0;
        let mut col: usize = 0;
        let mut i: usize = 0;
        while i < self.gap_start
            invariant
                self.inv(),
                i <= self.gap_start,
                (line as int, col as int) == line_col(self@, i as int),
                line <= i,
                col <= i,
            decreases self.gap_start - i,
        {
            proof {
                self.lemma_text();
            }
            if self.data[i] == '\n' {
                line = line + 1;
                col = 0;
            } else {
                col = col + 1;
            }
            i = i + 1;
        }
        (line, col)
    }

    pub fn move_gap(&mut self, new_cursor_pos: usize)
        requires
            old(self).inv(),
        ensures
            final(self).inv(),
            final(self)@ == old(self)@,
            final(self).cursor() == (if new_cursor_pos <= old(self)@.len() {
                new_cursor_pos as nat
            } else {
                old(self).cursor()
            }),
            final(self).capacity() == old(self).capacity(),
    {
        proof {
            self.lemma_text();
        }
        if new_cursor_pos > self.data.len() - self.gap_end + self.gap_start {
            return ;
        }
        let ghost old_self = *self;
        if new_cursor_pos < self.gap_start {
            let range = self.gap_start - new_cursor_pos;
            copy_within(&mut self.data, new_cursor_pos, self.gap_start, self.gap_end - range);
            self.gap_start = self.gap_start - range;
            self.gap_end = self.gap_end - range;
            assert(self@ =~= old_self@);
        } else if new_cursor_pos > self.gap_start {
            let range = new_cursor_pos - self.gap_start;
            copy_within(&mut self.data, self.gap_end, self.gap_end + range, self.gap_start);
            self.gap_start = self.gap_start + range;
            self.gap_end = self.gap_end + range;
            assert(self@ =~= old_self@);
        }
    }

    pub fn move_to_line_col(&mut self, target_line: usize, target_col: usize)
        requires
            old(self).inv(),
        ensures
            final(self).inv(),
            final(self)@ == old(self)@,
            final(self).cursor() == line_col_to_offset(
                old(self)@,
                target_line as int,
                target_col as int,
            ),
    {
        proof {
            self.lemma_text();
        }
        let ghost text = self@;
        let ghost l = target_line as int;
        let ghost cc = target_col as int;
        let len = self.gap_start + self.data.len() - self.gap_end;
        let mut current_line: usize = 0;
        let mut current_col: usize = 0;
        let mut new_pos: usize = 0;
        proof {
            if len == 0 {
                lemma_line_col_offset(text, 0);
                lemma_line_bounds(text, 0);
            }
        }
        while new_pos < len
            invariant
                self.inv(),
                text == self@,
                l == target_line,
                cc == target_col,
                len == text.len(),
                new_pos <= len,
                (current_line as int, current_col as int) == line_col(text, new_pos as int),
                current_line <= target_line,
                current_line <= new_pos,
                current_col <= new_pos,
                forall|j: int|
                    0 <= j < new_pos ==> #[trigger] line_col(text, j) != (l, cc),
                new_pos == len ==> new_pos == line_col_to_offset(text, l, cc),
            ensures
                new_pos == line_col_to_offset(text, l, cc),
            decreases len - new_pos,
        {
            let c = self.logical_char(new_pos);
            // reached the goal cursor position
            if current_line == target_line && current_col == target_col {
                proof {
                    lemma_line_col_offset(text, new_pos as int);
                }
                break;
            }
            // the goal line has no the goal col
            if current_line == target_line && c == '\n' {
                proof {
                    self.lemma_past_goal(text, new_pos as int, l, cc);
                }
                break;
            }
            new_pos = new_pos + 1;
            if c == '\n' {
                current_line = current_line + 1;
                current_col = 0;
            } else {
                current_col = current_col + 1;
            }
            proof {
                if new_pos == len {
                    if current_line == target_line {
                        if (current_line as int, current_col as int) == (l, cc) {
                            lemma_line_col_offset(text, len as int);
                        } else {
                            self.lemma_past_goal(text, len as int, l, cc);
                        }
                    } else {
                        lemma_line_col_newlines(text, len as int);
                        assert(text.take(len as int) =~= text);
                    }
                }
            }
        }
        self.move_gap(new_pos);
    }

    /// Reaching the end of the goal line without meeting the goal column
    /// means the column is past that end, which is where the cursor goes.
    proof fn lemma_past_goal(&self, text: Seq<char>, p: int, l: int, cc: int)
        requires
            0 <= p <= text.len(),
            p == text.len() || text[p] == '\n',
            line_col(text, p).0 == l,
            line_col(text, p) != (l, cc),
            0 <= cc,
            forall|j: int| 0 <= j < p ==> #[trigger] line_col(text, j) != (l, cc),
        ensures
            line_col_to_offset(text, l, cc) == p,
    {
        lemma_line_col_offset(text, p);
        lemma_line_col_at_end(text, p);
        let st = line_start(text, l)->0;
        if st + cc < p {
            lemma_line_col_within(text, l, st + cc);
        }
    }

    pub fn insert(&mut self, c: char)
        requires
            old(self).inv(),
            old(self)@.len() < max_text_len(),
        ensures
            final(self).inv(),
            final(self)@ == old(self)@.insert(old(self).cursor() as int, c),
            final(self).cursor() == old(self).cursor() + 1,
    {
        if self.gap_start == self.gap_end {
            self.gap_grow();
        }
        let ghost old_self = *self;
        self.data[self.gap_start] = c;
        self.gap_start = self.gap_start + 1;
        assert(self@ =~= old_self@.insert(old_self.gap_start as int, c));
    }

    pub fn delete(&mut self)
        requires
            old(self).inv(),
        ensures
            final(self).inv(),
            old(self).cursor() > 0 ==> final(self)@ == old(self)@.remove(old(self).cursor() - 1)
                && final(self).cursor() == old(self).cursor() - 1,
            old(self).cursor() == 0 ==> final(self)@ == old(self)@ && final(self).cursor() == 0,
    {
        if self.gap_start > 0 {
            let ghost old_self = *self;
            self.gap_start = self.gap_start - 1;
            assert(self@ =~= old_self@.remove(old_self.gap_start - 1));
        }
    }

    pub fn gap_grow(&mut self)
        requires
            old(self).inv(),
            old(self).capacity() <= max_text_len(),
        ensures
            final(self).inv(),
            final(self)@ == old(self)@,
            final(self).cursor() == old(self).cursor(),
            final(self).capacity() == 2 * old(self).capacity(),
    {
        let ghost old_self = *self;
        let old_data_len = self.data.len();
        let new_data_len = 2 * old_data_len;
        let mut new_data = vec![char::default(); new_data_len];
        let gs = self.gap_start;
        let ge = self.gap_end;
        let mut i: usize = 0;
        while i < gs
            invariant
                old_self == *self,
                gs == self.gap_start,
                ge == self.gap_end,
                old_data_len == self.data@.len(),
                new_data_len == 2 * old_data_len,
                gs <= ge <= old_data_len,
                i <= gs,
                new_data@.len() == new_data_len,
                forall|k: int| 0 <= k < i ==> #[trigger] new_data@[k] == self.data@[k],
            decreases gs - i,
        {
            let c = self.data[i];
            new_data[i] = c;
            i = i + 1;
        }
        let mut j: usize = ge;
        while j < old_data_len
            invariant
                old_self == *self,
                gs == self.gap_start,
                ge == self.gap_end,
                old_data_len == self.data@.len(),
                new_data_len == 2 * old_data_len,
                gs <= ge <= j <= old_data_len,
                new_data@.len() == new_data_len,
                forall|k: int| 0 <= k < gs ==> #[trigger] new_data@[k] == self.data@[k],
                forall|k: int|
                    ge <= k < j ==> #[trigger] new_data@[k + old_data_len] == self.data@[k],
            decreases old_data_len - j,
        {
            let c = self.data[j];
            new_data[j + old_data_len] = c;
            j = j + 1;
        }
        self.data = new_data;
        self.gap_end = ge + old_data_len;
        proof {
            assert forall|m: int| 0 <= m < self@.len() implies #[trigger] self@[m] == old_self@[m] by {
                if m >= gs {
                    let k = m + ge - gs;
                    assert(new_data@[k + old_data_len] == old_self.data@[k]);
                }
            }
            assert(self@ =~= old_self@);
        }
    }
}

impl BufferTrait for GapBuffer {
    open spec fn point(&self) -> nat {
        self.cursor()
    }

    open spec fn wf(&self) -> bool {
        self.inv()
    }

    fn from_text(text: &str) -> (r: Self) {
        broadcast use vstd::string::group_string_axioms;

        let mut ret = GapBuffer::new();
        let mut it = text.chars();
        let ghost all = text@;
        let mut n: usize = 0;
        loop
            invariant
                ret.inv(),
                ret@ == all.take(n as int),
                ret.cursor() == n,
                n <= all.len(),
                all.len() <= max_text_len(),
                all == text@,
                it.remaining() == all.skip(n as int),
            ensures
                ret.inv(),
                ret@ == all,
            decreases all.len() - n,
        {
            let next = it.next();
            match next {
                Some(c) => {
                    assert(all.skip(n as int)[0] == all[n as int]);
                    assert(all.skip(n as int).drop_first() =~= all.skip(n + 1));
                    ret.insert(c);
                    assert(all.take(n + 1) =~= all.take(n as int).insert(n as int, c));
                    n = n + 1;
                },
                None => {
                    assert(all.skip(n as int).len() == 0);
                    assert(all.take(n as int) =~= all);
                    break;
                },
            }
        }
        ret.move_gap(0);
        ret
    }

    fn cursor_pos(&self) -> (r: (usize, usize)) {
        self.cursor_line_col()
    }

    fn cursor_move(&mut self, row: usize, col: usize) {
        self.move_to_line_col(row, col);
    }

    fn insert(&mut self, c: char) {
        GapBuffer::insert(self, c)
    }

    fn delete_char(&mut self) {
        self.delete()
    }
}

} // verus!
