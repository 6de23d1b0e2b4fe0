//! A gap buffer with a line index.
use vstd::prelude::*;
use std::collections::VecDeque;
use vstd::std_specs::iter::IteratorSpec;
use crate::buffer::buffer_trait::{
    BufferTrait, max_text_len, nearest_after, nearest_before, char_ending_at,
};
use crate::buffer::lines::{
    newlines, shift, newline_count, line_col, offset_to_line_col, line_start, line_end,
    line_text, line_col_to_offset, last_line_begin, lemma_newlines_concat, lemma_newlines_props,
    lemma_line_col_increasing, lemma_line_bounds,
    lemma_newlines_push, lemma_line_col_newlines, lemma_newlines_split, lemma_newlines_len,
    lemma_newline_at,
};

verus! {

/// Physical offsets as plain integers.
pub open spec fn ints(s: Seq<usize>) -> Seq<int> {
    Seq::new(s.len(), |i: int| s[i] as int)
}

/// Text in a vector with a hole at the cursor: typing fills the hole, and
/// moving the cursor moves the hole.
///
/// Beside the text, the physical positions of every newline, split around the
/// gap and ascending within each half. Physical rather than logical on
/// purpose: an edit only ever happens at the gap, and a physical position on
/// either side of the gap does not move when the gap grows or shrinks.
pub struct GapBuffer {
    data: Vec<char>,
    gap_start: usize,
    gap_end: usize,
    newlines_before: Vec<usize>,
    newlines_after: VecDeque<usize>,
}

impl View for GapBuffer {
    type V = Seq<char>;

    closed spec fn view(&self) -> Seq<char> {
        self.pre() + self.post()
    }
}

/// Copy `data[src..end]` to `data[dest..]`, correctly even when the two
/// ranges overlap.
pub(crate) fn copy_within(data: &mut Vec<char>, src: usize, end: usize, dest: usize)
    requires
        src <= end <= old(data)@.len(),
        dest + (end - src) <= old(data)@.len(),
    ensures
        final(data)@.len() == old(data)@.len(),
        forall|k: int|
            0 <= k < old(data)@.len() ==> #[trigger] final(data)@[k] == (if dest <= k < dest + (
            end - src) {
                old(data)@[src + k - dest]
            } else {
                old(data)@[k]
            }),
{
    let n = end - src;
    let total = data.len();
    let ghost orig = data@;
    if dest <= src {
        let mut i: usize = 0;
        while i < n
            invariant
                n == end - src,
                src <= end <= orig.len(),
                dest <= src,
                dest + n <= orig.len(),
                i <= n,
                data@.len() == orig.len(),
                forall|k: int|
                    0 <= k < orig.len() ==> #[trigger] data@[k] == (if dest <= k < dest + i {
                        orig[src + k - dest]
                    } else {
                        orig[k]
                    }),
            decreases n - i,
        {
            let c = data[src + i];
            data[dest + i] = c;
            i = i + 1;
        }
    } else {
        let mut i: usize = n;
        while i > 0
            invariant
                n == end - src,
                src <= end <= orig.len(),
                dest > src,
                dest + n <= orig.len(),
                orig.len() == total,
                i <= n,
                data@.len() == orig.len(),
                forall|k: int|
                    0 <= k < orig.len() ==> #[trigger] data@[k] == (if dest + i <= k < dest + n {
                        orig[src + k - dest]
                    } else {
                        orig[k]
                    }),
            decreases i,
        {
            let c = data[src + (i - 1)];
            data[dest + (i - 1)] = c;
            i = i - 1;
        }
    }
}

proof fn lemma_shift_concat(a: Seq<int>, b: Seq<int>, d: int)
    ensures
        shift(a + b, d) =~= shift(a, d) + shift(b, d),
{
}

proof fn lemma_shift_shift(a: Seq<int>, d1: int, d2: int)
    ensures
        shift(shift(a, d1), d2) =~= shift(a, d1 + d2),
{
}

impl GapBuffer {
    /// How long an empty buffer's storage is.
    pub const GAPBUFFER_BASE_LEN: usize = 1024;

    /// The text before the gap.
    pub closed spec fn pre(&self) -> Seq<char> {
        self.data@.subrange(0, self.gap_start as int)
    }

    /// The text after the gap.
    pub closed spec fn post(&self) -> Seq<char> {
        self.data@.subrange(self.gap_end as int, self.data@.len() as int)
    }

    /// Where the cursor stands: the start of the gap.
    pub closed spec fn cursor(&self) -> nat {
        self.gap_start as nat
    }

    /// How many characters the storage holds, text and gap together.
    pub closed spec fn capacity(&self) -> nat {
        self.data@.len()
    }

    /// How many characters can be typed before the storage has to grow.
    pub closed spec fn gap_size(&self) -> nat {
        (self.gap_end - self.gap_start) as nat
    }

    pub closed spec fn inv(&self) -> bool {
        &&& self.gap_start <= self.gap_end <= self.data@.len()
        &&& 0 < self.data@.len() <= 2 * max_text_len()
        &&& self.pre().len() + self.post().len() <= max_text_len()
        &&& ints(self.newlines_before@) == newlines(self.pre())
        &&& ints(self.newlines_after@) == shift(newlines(self.post()), self.gap_end as int)
    }

    proof fn lemma_text(&self)
        requires
            self.inv(),
        ensures
            self@.len() == self.gap_start + (self.data@.len() - self.gap_end),
            forall|i: int|
                0 <= i < self.gap_start ==> #[trigger] self@[i] == self.data@[i],
            forall|i: int|
                self.gap_start <= i < self@.len() ==> #[trigger] self@[i] == self.data@[i
                    + self.gap_end - self.gap_start],
            newlines(self@) =~= newlines(self.pre()) + shift(
                newlines(self.post()),
                self.gap_start as int,
            ),
    {
        lemma_newlines_concat(self.pre(), self.post());
    }

    /// The index, entry by entry.
    proof fn lemma_index(&self)
        requires
            self.inv(),
        ensures
            self.newlines_before@.len() == newlines(self.pre()).len(),
            self.newlines_after@.len() == newlines(self.post()).len(),
            newlines(self@).len() == self.newlines_before@.len() + self.newlines_after@.len(),
            newlines(self@).len() <= self@.len(),
            forall|k: int|
                0 <= k < self.newlines_before@.len() ==> #[trigger] self.newlines_before@[k]
                    == newlines(self.pre())[k] && self.newlines_before@[k] < self.gap_start,
            forall|k: int|
                0 <= k < self.newlines_after@.len() ==> #[trigger] self.newlines_after@[k]
                    == newlines(self.post())[k] + self.gap_end && self.gap_end
                    <= self.newlines_after@[k] < self.data@.len(),
    {
        self.lemma_text();
        lemma_newlines_props(self.pre());
        lemma_newlines_props(self.post());
        lemma_newlines_len(self@);
        assert(ints(self.newlines_before@).len() == self.newlines_before@.len());
        assert(ints(self.newlines_after@).len() == self.newlines_after@.len());
        assert forall|k: int| 0 <= k < self.newlines_before@.len() implies #[trigger] self.newlines_before@[k]
            == newlines(self.pre())[k] && self.newlines_before@[k] < self.gap_start by {
            assert(ints(self.newlines_before@)[k] == self.newlines_before@[k]);
        }
        assert forall|k: int| 0 <= k < self.newlines_after@.len() implies #[trigger] self.newlines_after@[k]
            == newlines(self.post())[k] + self.gap_end && self.gap_end <= self.newlines_after@[k]
            < self.data@.len() by {
            assert(ints(self.newlines_after@)[k] == self.newlines_after@[k]);
        }
    }

    /// Width of the gap, i.e. how far a physical position after the gap sits
    /// ahead of its logical one.
    pub fn gap_width(&self) -> (r: usize)
        requires
            self.inv(),
        ensures
            r == self.gap_size(),
    {
        self.gap_end - self.gap_start
    }

    /// Logical (text) position of a physical `data` index.
    fn logical_of(&self, physical: usize) -> (r: usize)
        requires
            self.inv(),
            physical < self.gap_start || self.gap_end <= physical,
        ensures
            r == (if physical < self.gap_start {
                physical as int
            } else {
                physical - (self.gap_end - self.gap_start)
            }),
    {
        if physical < self.gap_start {
            physical
        } else {
            physical - self.gap_width()
        }
    }

    /// The character at logical position `i`, skipping over the gap.
    fn logical_char(&self, i: usize) -> (r: char)
        requires
            self.inv(),
            i < self@.len(),
        ensures
            r == self@[i as int],
    {
        proof {
            self.lemma_text();
        }
        let physical = if i < self.gap_start {
            i
        } else {
            i + self.gap_width()
        };
        self.data[physical]
    }

    /// Move the newlines between NP and the gap from the "before" half to the
    /// "after" half, as the text they sit in is about to move right across
    /// the gap.
    fn migrate_left(&mut self, np: usize)
        requires
            old(self).inv(),
            np < old(self).gap_start,
        ensures
            final(self).data == old(self).data,
            final(self).gap_start == old(self).gap_start,
            final(self).gap_end == old(self).gap_end,
            ints(final(self).newlines_before@) == newlines(old(self).pre().take(np as int)),
            ints(final(self).newlines_after@) == shift(
                newlines(old(self).pre().skip(np as int)),
                np + old(self).gap_end - old(self).gap_start,
            ) + ints(old(self).newlines_after@),
    {
        let ghost old_self = *self;
        let ghost pre = self.pre();
        let ghost gs = self.gap_start as int;
        let ghost ge = self.gap_end as int;
        let ghost len = self.data@.len();
        let width = self.gap_width();
        let ghost p_all = newlines(pre);
        let ghost keep = newlines(pre.take(np as int));
        proof {
            lemma_newlines_split(pre, np as int);
            lemma_newlines_props(pre);
        }
        // Popping largest-first and pushing to the front leaves
        // `newlines_after` ascending.
        loop
            invariant
                old_self.inv(),
                gs == old_self.gap_start,
                ge == old_self.gap_end,
                len == old_self.data@.len(),
                pre == old_self.pre(),
                self.data == old_self.data,
                self.gap_start == old_self.gap_start,
                self.gap_end == old_self.gap_end,
                width == ge - gs,
                0 <= np < gs <= ge <= len,
                p_all == newlines(pre),
                forall|k: int| 0 <= k < keep.len() ==> #[trigger] p_all[k] < np,
                forall|k: int| keep.len() <= k < p_all.len() ==> #[trigger] p_all[k] >= np,
                forall|k: int| 0 <= k < p_all.len() ==> 0 <= #[trigger] p_all[k] < gs,
                keep.len() <= self.newlines_before@.len() <= p_all.len(),
                ints(self.newlines_before@) == p_all.take(self.newlines_before@.len() as int),
                ints(self.newlines_after@) == shift(
                    p_all.subrange(self.newlines_before@.len() as int, p_all.len() as int),
                    width as int,
                ) + ints(old_self.newlines_after@),
            ensures
                self.newlines_before@.len() == keep.len(),
            decreases self.newlines_before@.len(),
        {
            let n = self.newlines_before.len();
            if n == 0 {
                break;
            }
            let physical = self.newlines_before[n - 1];
            assert(ints(self.newlines_before@)[n - 1] == physical as int);
            assert(p_all[n - 1] == physical);
            if physical < np {
                break;
            }
            let ghost prev_after = self.newlines_after@;
            self.newlines_before.pop();
            self.newlines_after.push_front(physical + width);
            proof {
                assert(ints(self.newlines_before@) =~= p_all.take(n - 1));
                assert(ints(self.newlines_after@) =~= seq![(physical + width) as int] + ints(
                    prev_after,
                ));
                assert(shift(p_all.subrange(n - 1, p_all.len() as int), width as int) =~= seq![
                    p_all[n - 1] + width,
                ] + shift(p_all.subrange(n as int, p_all.len() as int), width as int));
                assert(ints(self.newlines_after@) =~= shift(
                    p_all.subrange(n - 1, p_all.len() as int),
                    width as int,
                ) + ints(old_self.newlines_after@));
            }
        }
        proof {
            assert(ints(self.newlines_before@) =~= keep);
            assert(p_all.subrange(keep.len() as int, p_all.len() as int) =~= shift(
                newlines(pre.skip(np as int)),
                np as int,
            ));
            lemma_shift_shift(newlines(pre.skip(np as int)), np as int, width as int);
        }
    }

    /// Move the newlines between the gap and the gap's end plus RANGE from
    /// the "after" half to the "before" half, as the text they sit in is
    /// about to move left across the gap.
    fn migrate_right(&mut self, range: usize)
        requires
            old(self).inv(),
            0 < range <= old(self).post().len(),
        ensures
            final(self).data == old(self).data,
            final(self).gap_start == old(self).gap_start,
            final(self).gap_end == old(self).gap_end,
            ints(final(self).newlines_before@) == ints(old(self).newlines_before@) + shift(
                newlines(old(self).post().take(range as int)),
                old(self).gap_start as int,
            ),
            ints(final(self).newlines_after@) == shift(
                newlines(old(self).post().skip(range as int)),
                old(self).gap_end + range,
            ),
    {
        let ghost old_self = *self;
        let ghost post = self.post();
        let ghost gs = self.gap_start as int;
        let ghost ge = self.gap_end as int;
        let ghost len = self.data@.len();
        let width = self.gap_width();
        let ghost a_all = newlines(post);
        let ghost moving = newlines(post.take(range as int));
        proof {
            lemma_newlines_split(post, range as int);
            lemma_newlines_props(post);
            assert(ints(self.newlines_after@).len() == a_all.len());
        }
        loop
            invariant
                old_self.inv(),
                gs == old_self.gap_start,
                ge == old_self.gap_end,
                len == old_self.data@.len(),
                post == old_self.post(),
                self.data == old_self.data,
                self.gap_start == old_self.gap_start,
                self.gap_end == old_self.gap_end,
                width == ge - gs,
                0 < range <= len - ge,
                ge <= len,
                a_all == newlines(post),
                moving.len() <= a_all.len(),
                forall|k: int| 0 <= k < moving.len() ==> #[trigger] a_all[k] < range,
                forall|k: int| moving.len() <= k < a_all.len() ==> #[trigger] a_all[k] >= range,
                forall|k: int| 0 <= k < a_all.len() ==> 0 <= #[trigger] a_all[k] < len - ge,
                moving.len() + self.newlines_after@.len() >= a_all.len(),
                self.newlines_after@.len() <= a_all.len(),
                ints(self.newlines_after@) == shift(
                    a_all.subrange(a_all.len() - self.newlines_after@.len(), a_all.len() as int),
                    ge,
                ),
                ints(self.newlines_before@) == ints(old_self.newlines_before@) + shift(
                    a_all.take(a_all.len() - self.newlines_after@.len()),
                    gs,
                ),
            ensures
                a_all.len() - self.newlines_after@.len() == moving.len(),
            decreases self.newlines_after@.len(),
        {
            let n = self.newlines_after.len();
            if n == 0 {
                break;
            }
            let physical = self.newlines_after[0];
            let ghost j = a_all.len() - n;
            assert(ints(self.newlines_after@)[0] == a_all[j] + ge);
            if physical >= self.gap_end + range {
                break;
            }
            let ghost old_na = self.newlines_after@;
            let ghost old_nb = self.newlines_before@;
            self.newlines_after.pop_front();
            assert(self.newlines_after@ =~= old_na.subrange(1, n as int));
            self.newlines_before.push(physical - width);
            proof {
                assert(ints(self.newlines_after@) =~= ints(old_na).subrange(1, n as int));
                assert(ints(self.newlines_after@) =~= shift(
                    a_all.subrange(j + 1, a_all.len() as int),
                    ge,
                ));
                assert(ints(self.newlines_before@) =~= ints(old_nb).push(a_all[j] + gs));
                assert(a_all.take(j + 1) =~= a_all.take(j).push(a_all[j]));
                assert(ints(self.newlines_before@) =~= ints(old_self.newlines_before@) + shift(
                    a_all.take(j + 1),
                    gs,
                ));
            }
        }
        proof {
            assert(a_all.take(moving.len() as int) =~= moving);
            assert(a_all.subrange(moving.len() as int, a_all.len() as int) =~= shift(
                newlines(post.skip(range as int)),
                range as int,
            ));
            lemma_shift_shift(newlines(post.skip(range as int)), range as int, ge);
        }
    }

    pub fn move_gap(&mut self, new_cursor_pos: usize)
        requires
            old(self).inv(),
        ensures
            final(self).inv(),
            final(self)@ == old(self)@,
            final(self).cursor() == (if new_cursor_pos <= old(self)@.len() {
                new_cursor_pos as nat
            } else {
                old(self).cursor()
            }),
            final(self).capacity() == old(self).capacity(),
            final(self).gap_size() == old(self).gap_size(),
    {
        proof {
            self.lemma_text();
        }
        if new_cursor_pos > self.data.len() - self.gap_end + self.gap_start {
            return ;
        }
        let ghost old_self = *self;
        let ghost pre = self.pre();
        let ghost post = self.post();
        // Moving the gap is the one operation that relocates text, so it is
        // also the one that has to migrate index entries between the halves.
        // Only the newlines inside the moved span are touched.
        if new_cursor_pos < self.gap_start {
            let range = self.gap_start - new_cursor_pos;
            self.migrate_left(new_cursor_pos);
            copy_within(&mut self.data, new_cursor_pos, self.gap_start, self.gap_end - range);
            self.gap_start = self.gap_start - range;
            self.gap_end = self.gap_end - range;
            proof {
                let np = new_cursor_pos as int;
                let mid = pre.skip(np);
                assert(self.pre() =~= pre.take(np));
                assert(self.post() =~= mid + post);
                lemma_newlines_concat(mid, post);
                lemma_shift_concat(
                    newlines(mid),
                    shift(newlines(post), mid.len() as int),
                    self.gap_end as int,
                );
                lemma_shift_shift(newlines(post), mid.len() as int, self.gap_end as int);
                assert(self@ =~= old_self@);
            }
        } else if new_cursor_pos > self.gap_start {
            let range = new_cursor_pos - self.gap_start;
            self.migrate_right(range);
            copy_within(&mut self.data, self.gap_end, self.gap_end + range, self.gap_start);
            self.gap_start = self.gap_start + range;
            self.gap_end = self.gap_end + range;
            proof {
                let mid = post.take(range as int);
                assert(self.pre() =~= pre + mid);
                assert(self.post() =~= post.skip(range as int));
                lemma_newlines_concat(pre, mid);
                assert(self@ =~= old_self@);
            }
        }
    }

    pub fn gap_grow(&mut self)
        requires
            old(self).inv(),
            old(self).capacity() <= max_text_len(),
        ensures
            final(self).inv(),
            final(self)@ == old(self)@,
            final(self).cursor() == old(self).cursor(),
            final(self).capacity() == 2 * old(self).capacity(),
            final(self).gap_size() == old(self).gap_size() + old(self).capacity(),
    {
        let ghost old_self = *self;
        let old_data_len = self.data.len();
        let new_data_len = 2 * old_data_len;
        let mut new_data = vec![char::default(); new_data_len];
        let gs = self.gap_start;
        let ge = self.gap_end;
        let mut i: usize = 0;
        while i < gs
            invariant
                old_self == *self,
                gs == self.gap_start,
                ge == self.gap_end,
                old_data_len == self.data@.len(),
                new_data_len == 2 * old_data_len,
                gs <= ge <= old_data_len,
                i <= gs,
                new_data@.len() == new_data_len,
                forall|k: int| 0 <= k < i ==> #[trigger] new_data@[k] == self.data@[k],
            decreases gs - i,
        {
            let c = self.data[i];
            new_data[i] = c;
            i = i + 1;
        }
        let mut j: usize = ge;
        while j < old_data_len
            invariant
                old_self == *self,
                gs == self.gap_start,
                ge == self.gap_end,
                old_data_len == self.data@.len(),
                new_data_len == 2 * old_data_len,
                gs <= ge <= j <= old_data_len,
                new_data@.len() == new_data_len,
                forall|k: int| 0 <= k < gs ==> #[trigger] new_data@[k] == self.data@[k],
                forall|k: int|
                    ge <= k < j ==> #[trigger] new_data@[k + old_data_len] == self.data@[k],
            decreases old_data_len - j,
        {
            let c = self.data[j];
            new_data[j + old_data_len] = c;
            j = j + 1;
        }
        // Everything after the gap slid to the far end of the larger buffer,
        // so the physical positions recorded for it slid by the same amount.
        let mut shifted: VecDeque<usize> = VecDeque::new();
        let mut k: usize = 0;
        let after_len = self.newlines_after.len();
        while k < after_len
            invariant
                old_self == *self,
                old_self.inv(),
                old_data_len == self.data@.len(),
                after_len == self.newlines_after@.len(),
                k <= after_len,
                shifted@.len() == k,
                forall|m: int|
                    0 <= m < k ==> #[trigger] shifted@[m] == self.newlines_after@[m]
                        + old_data_len,
            decreases after_len - k,
        {
            proof {
                self.lemma_index();
            }
            let physical = self.newlines_after[k];
            shifted.push_back(physical + old_data_len);
            k = k + 1;
        }
        self.data = new_data;
        self.newlines_after = shifted;
        self.gap_end = ge + old_data_len;
        proof {
            old_self.lemma_index();
            assert(self.pre() =~= old_self.pre());
            assert forall|m: int| 0 <= m < old_self.post().len() implies #[trigger] self.post()[m]
                == old_self.post()[m] by {
                let k = ge + m;
                assert(new_data@[k + old_data_len] == old_self.data@[k]);
            }
            assert(self.post() =~= old_self.post());
            assert(ints(self.newlines_after@) =~= shift(
                newlines(self.post()),
                self.gap_end as int,
            ));
        }
    }

    /// How many newlines the text holds, from the index alone.
    fn newline_count(&self) -> (r: usize)
        requires
            self.inv(),
        ensures
            r == newline_count(self@),
    {
        proof {
            self.lemma_index();
        }
        self.newlines_before.len() + self.newlines_after.len()
    }

    /// Logical position of the `k`-th newline in the text, 0-based.
    fn newline_logical(&self, k: usize) -> (r: usize)
        requires
            self.inv(),
            k < newline_count(self@),
        ensures
            r == newlines(self@)[k as int],
    {
        proof {
            self.lemma_text();
            self.lemma_index();
        }
        let nb = self.newlines_before.len();
        if k < nb {
            self.newlines_before[k]
        } else {
            let physical = self.newlines_after[k - nb];
            self.logical_of(physical)
        }
    }

    /// Logical position where `line` begins, or `None` if the buffer has no
    /// such line. Line 0 always begins at 0; every later line begins one past
    /// the newline that ended its predecessor.
    fn line_start(&self, line: usize) -> (r: Option<usize>)
        requires
            self.inv(),
        ensures
            r matches Some(x) ==> line_start(self@, line as int) == Some(x as int),
            r is None ==> line_start(self@, line as int) is None,
    {
        if line == 0 {
            return Some(0);
        }
        if line > self.newline_count() {
            return None;
        }
        proof {
            lemma_newlines_props(self@);
            self.lemma_text();
        }
        Some(self.newline_logical(line - 1) + 1)
    }

    /// Logical position one past the last character of `line`, not counting
    /// its newline.
    fn line_end(&self, line: usize) -> (r: usize)
        requires
            self.inv(),
        ensures
            r == line_end(self@, line as int),
    {
        proof {
            self.lemma_text();
        }
        if line < self.newline_count() {
            self.newline_logical(line)
        } else {
            self.gap_start + self.data.len() - self.gap_end
        }
    }

    /// Re-derive the newline index by scanning the text, and say whether it
    /// agrees with the index kept alongside the text.
    pub fn assert_index_valid(&self) -> (r: bool)
        requires
            self.inv(),
        ensures
            r,
    {
        proof {
            self.lemma_text();
        }
        let len = self.gap_start + self.data.len() - self.gap_end;
        let count = self.newline_count();
        let mut seen: usize = 0;
        let mut i: usize = 0;
        let mut agrees = true;
        while i < len
            invariant
                self.inv(),
                len == self@.len(),
                count == newline_count(self@),
                i <= len,
                seen == newlines(self@.take(i as int)).len(),
                agrees,
            decreases len - i,
        {
            proof {
                lemma_newline_at(self@, i as int);
            }
            if self.logical_char(i) == '\n' {
                if self.newline_logical(seen) != i {
                    agrees = false;
                }
                seen = seen + 1;
            }
            i = i + 1;
        }
        proof {
            assert(self@.take(len as int) =~= self@);
        }
        agrees && seen == count && self.halves_in_place()
    }

    /// Whether every newline recorded before the gap is before it, and every
    /// one recorded after it is after it.
    fn halves_in_place(&self) -> (r: bool)
        requires
            self.inv(),
        ensures
            r,
    {
        let mut ok = true;
        let mut i: usize = 0;
        while i < self.newlines_before.len()
            invariant
                self.inv(),
                ok,
            decreases self.newlines_before@.len() - i,
        {
            proof {
                self.lemma_index();
            }
            if self.newlines_before[i] >= self.gap_start {
                ok = false;
            }
            i = i + 1;
        }
        let mut j: usize = 0;
        while j < self.newlines_after.len()
            invariant
                self.inv(),
                ok,
            decreases self.newlines_after@.len() - j,
        {
            proof {
                self.lemma_index();
            }
            if self.newlines_after[j] < self.gap_end {
                ok = false;
            }
            j = j + 1;
        }
        ok
    }
}

impl Default for GapBuffer {
    fn default() -> (r: Self)
        ensures
            r.inv(),
            r@ == Seq::<char>::empty(),
            r.cursor() == 0,
            r.capacity() == GapBuffer::GAPBUFFER_BASE_LEN,
    {
        let r = GapBuffer {
            data: vec![char::default(); GapBuffer::GAPBUFFER_BASE_LEN],
            gap_start: 0,
            gap_end: GapBuffer::GAPBUFFER_BASE_LEN,
            newlines_before: Vec::new(),
            newlines_after: VecDeque::new(),
        };
        proof {
            assert(r.pre() =~= Seq::<char>::empty());
            assert(r.post() =~= Seq::<char>::empty());
            assert(ints(r.newlines_before@) =~= newlines(r.pre()));
            assert(ints(r.newlines_after@) =~= shift(newlines(r.post()), r.gap_end as int));
            assert(r@ =~= Seq::<char>::empty());
        }
        r
    }
}

impl GapBuffer {
    /// The text, as a string.
    pub fn to_string(&self) -> (r: String)
        requires
            self.inv(),
        ensures
            r@ == self@,
    {
        proof {
            self.lemma_text();
        }
        let len = self.gap_start + self.data.len() - self.gap_end;
        let mut ret = String::new();
        let mut i: usize = 0;
        while i < len
            invariant
                self.inv(),
                len == self@.len(),
                i <= len,
                ret@ == self@.take(i as int),
            decreases len - i,
        {
            let c = self.logical_char(i);
            ret.push(c);
            proof {
                assert(self@.take(i + 1) =~= self@.take(i as int).push(c));
            }
            i = i + 1;
        }
        proof {
            assert(self@.take(len as int) =~= self@);
        }
        ret
    }
}

impl BufferTrait for GapBuffer {
    open spec fn point(&self) -> nat {
        self.cursor()
    }

    open spec fn wf(&self) -> bool {
        self.inv()
    }

    proof fn lemma_wf(&self) {
        self.lemma_text();
    }

    fn new_empty() -> (r: Self) {
        GapBuffer::default()
    }

    fn from_text(text: &str) -> (r: Self) {
        broadcast use vstd::string::group_string_axioms;

        let mut ret = GapBuffer::default();
        let mut it = text.chars();
        let ghost all = text@;
        let mut n: usize = 0;
        loop
            invariant
                ret.inv(),
                ret@ == all.take(n as int),
                ret.cursor() == n,
                n <= all.len(),
                all.len() <= max_text_len(),
                all == text@,
                it.remaining() == all.skip(n as int),
            ensures
                ret.inv(),
                ret@ == all,
            decreases all.len() - n,
        {
            let next = it.next();
            match next {
                Some(c) => {
                    assert(all.skip(n as int)[0] == all[n as int]);
                    assert(all.skip(n as int).drop_first() =~= all.skip(n + 1));
                    ret.insert(c);
                    assert(all.take(n + 1) =~= all.take(n as int).insert(n as int, c));
                    n = n + 1;
                },
                None => {
                    assert(all.skip(n as int).len() == 0);
                    assert(all.take(n as int) =~= all);
                    break;
                },
            }
        }
        ret.move_gap(0);
        ret
    }

    fn len(&self) -> (r: usize) {
        proof {
            self.lemma_text();
        }
        self.gap_start + self.data.len() - self.gap_end
    }

    fn at_line_col(&self, line: usize, col: usize) -> (r: Option<char>) {
        proof {
            self.lemma_text();
        }
        let len = self.gap_start + self.data.len() - self.gap_end;
        let mut current_line: usize = 0;
        let mut current_col: usize = 0;
        let mut i: usize = 0;
        while i < len
            invariant
                self.inv(),
                len == self@.len(),
                i <= len,
                (current_line as int, current_col as int) == line_col(self@, i as int),
                current_line <= i,
                current_col <= i,
                forall|j: int| 0 <= j < i ==> #[trigger] line_col(self@, j + 1) != (line as int, col as int),
            decreases len - i,
        {
            let c = self.logical_char(i);
            if c == '\n' {
                current_line = current_line + 1;
                current_col = 0;
            } else {
                current_col = current_col + 1;
            }
            assert((current_line as int, current_col as int) == line_col(self@, i + 1));
            if current_line == line {
                if current_col > col {
                    proof {
                        assert forall|j: int| 0 <= j < self@.len() implies #[trigger] line_col(self@, j + 1) != (line as int, col as int) by {
                            if j > i {
                                lemma_line_col_increasing(self@, i + 1, j + 1);
                            }
                        }
                    }
                    return None;
                } else if current_col == col {
                    proof {
                        assert forall|j: int| 0 <= j < self@.len() && #[trigger] line_col(self@, j + 1) == (line as int, col as int) implies j == i by {
                            if j > i {
                                lemma_line_col_increasing(self@, i + 1, j + 1);
                            }
                        }
                    }
                    return Some(c);
                }
            }
            i = i + 1;
        }
        None
    }

    fn at(&self, pos: usize) -> (r: Option<char>) {
        proof {
            self.lemma_text();
        }
        // `<`, not `<=`: at `pos == gap_start` the logical character lives at
        // `data[gap_end]`, on the far side of the gap.
        if pos >= self.len() {
            None
        } else if pos < self.gap_start {
            Some(self.data[pos])
        } else {
            Some(self.data[pos + self.gap_end - self.gap_start])
        }
    }

    fn cursor_pos(&self) -> (r: (usize, usize)) {
        proof {
            self.lemma_text();
        }
        let mut line: usize = 0;
        let mut col: usize = 0;
        let mut i: usize = 0;
        while i < self.gap_start
            invariant
                self.inv(),
                i <= self.gap_start,
                (line as int, col as int) == line_col(self@, i as int),
                line <= i,
                col <= i,
            decreases self.gap_start - i,
        {
            proof {
                self.lemma_text();
            }
            if self.data[i] == '\n' {
                line = line + 1;
                col = 0;
            } else {
                col = col + 1;
            }
            i = i + 1;
        }
        (line, col)
    }

    fn cursor_pos_1d(&self) -> (r: usize) {
        self.gap_start
    }

    fn cursor_1d_to_2d(&self, pos: usize) -> (r: (usize, usize)) {
        proof {
            self.lemma_text();
            self.lemma_index();
            lemma_newlines_props(self@);
        }
        let len = self.len();
        let q: usize = if pos < len {
            pos
        } else {
            len
        };
        let ghost nl = newlines(self@);
        proof {
            lemma_newlines_split(self@, q as int);
            lemma_line_col_newlines(self@, q as int);
        }
        // Binary search for how many newlines lie strictly before `pos`; that
        // count is the line number, and the column is the distance from the
        // line's start.
        let mut low: usize = 0;
        let mut high = self.newline_count();
        while low < high
            invariant
                self.inv(),
                nl == newlines(self@),
                low <= high <= nl.len(),
                forall|k: int| 0 <= k < low ==> #[trigger] nl[k] < pos,
                forall|k: int| high <= k < nl.len() ==> #[trigger] nl[k] >= pos,
            decreases high - low,
        {
            proof {
                lemma_newlines_props(self@);
            }
            let mid = low + (high - low) / 2;
            if self.newline_logical(mid) < pos {
                low = mid + 1;
            } else {
                high = mid;
            }
        }
        let line = low;
        proof {
            let a = newlines(self@.take(q as int));
            if pos <= len {
                if line < a.len() {
                    assert(nl[line as int] < q);
                }
                if line > a.len() {
                    assert(nl[a.len() as int] >= q);
                }
            } else {
                assert(a =~= nl) by {
                    assert(self@.take(q as int) =~= self@);
                }
            }
            assert(line == a.len());
            if line > 0 {
                assert(a[line - 1] == nl[line - 1]);
            }
        }
        let start = match self.line_start(line) {
            Some(s) => s,
            None => 0,
        };
        let col = pos - start;
        (line, col)
    }

    fn cursor_2d_to_1d(&self, line: usize, col: usize) -> (r: usize) {
        // A column past the end of its line clamps to the line's end, and a
        // line past the end of the buffer clamps to the end of the text.
        match self.line_start(line) {
            Some(start) => {
                proof {
                    lemma_line_bounds(self@, line as int);
                }
                let end = self.line_end(line);
                if col <= end - start {
                    start + col
                } else {
                    end
                }
            },
            None => self.len(),
        }
    }

    fn cursor_move_forward(&mut self) -> (moved: bool) {
        if self.gap_start < self.len() {
            self.move_gap(self.gap_start + 1);
            true
        } else {
            false
        }
    }

    fn cursor_move_backward(&mut self) -> (moved: bool) {
        if self.gap_start > 0 {
            self.move_gap(self.gap_start - 1);
            true
        } else {
            false
        }
    }

    fn cursor_move(&mut self, line: usize, col: usize) {
        let target = self.cursor_2d_to_1d(line, col);
        proof {
            self.lemma_text();
            if line_start(self@, line as int) is Some {
                lemma_line_bounds(self@, line as int);
            }
        }
        self.move_gap(target);
    }

    fn find_backward(&mut self, c: char) -> (r: Option<usize>) {
        let mut current_pos = self.cursor_pos_1d();
        proof {
            self.lemma_text();
        }
        while current_pos > 0
            invariant
                self.inv(),
                current_pos <= self.cursor(),
                self.cursor() <= self@.len(),
                nearest_before(self@, self.cursor() as int, c) == nearest_before(
                    self@,
                    current_pos as int,
                    c,
                ),
            decreases current_pos,
        {
            let tc = self.logical_char(current_pos - 1);
            if c == tc {
                return Some(current_pos - 1);
            } else {
                current_pos = current_pos - 1;
            }
        }
        None
    }

    fn find_forward(&mut self, c: char) -> (r: Option<usize>) {
        let mut current_pos = self.cursor_pos_1d();
        proof {
            self.lemma_text();
        }
        while current_pos < self.len() - 1
            invariant
                self.inv(),
                self@.len() > 0,
                self.cursor() <= current_pos <= self@.len(),
                nearest_after(self@, self.cursor() as int, c) == nearest_after(
                    self@,
                    current_pos as int,
                    c,
                ),
            decreases self@.len() - current_pos,
        {
            let tc = self.logical_char(current_pos + 1);
            if c == tc {
                return Some(current_pos + 1);
            } else {
                current_pos = current_pos + 1;
            }
        }
        None
    }

    fn insert(&mut self, c: char) {
        proof {
            self.lemma_text();
        }
        if self.gap_start == self.gap_end {
            self.gap_grow();
        }
        let ghost old_self = *self;
        self.data[self.gap_start] = c;
        // The new character lands at the gap, so every newline already
        // recorded keeps its physical position. A newline typed here is simply
        // the new largest of the "before" half.
        if c == '\n' {
            self.newlines_before.push(self.gap_start);
        }
        self.gap_start = self.gap_start + 1;
        proof {
            assert(self.pre() =~= old_self.pre().push(c));
            assert(self.post() =~= old_self.post());
            lemma_newlines_push(old_self.pre(), c);
            assert(ints(self.newlines_before@) =~= newlines(self.pre()));
            assert(self@ =~= old_self@.insert(old_self.gap_start as int, c));
        }
    }

    fn delete(&mut self) {
        if self.gap_start > 0 {
            let ghost old_self = *self;
            let ghost p = old_self.pre();
            proof {
                assert(p.len() > 0);
                assert(p =~= p.drop_last().push(p.last()));
                lemma_newlines_push(p.drop_last(), p.last());
            }
            self.gap_start = self.gap_start - 1;
            // The character just swallowed by the gap sat at `gap_start`; if it
            // was a newline it was the last entry of the "before" half.
            if self.data[self.gap_start] == '\n' {
                self.newlines_before.pop();
                proof {
                    assert(ints(self.newlines_before@) =~= ints(old_self.newlines_before@).drop_last());
                }
            }
            proof {
                assert(self.pre() =~= p.drop_last());
                assert(ints(self.newlines_before@) =~= newlines(self.pre()));
                assert(self@ =~= old_self@.remove(old_self.gap_start - 1));
            }
        }
    }

    fn clear(&mut self) {
        // Reset to a fresh buffer rather than unwinding: one allocation
        // instead of one gap move per character, and the line index with it.
        *self = GapBuffer::default();
    }

    fn line_count(&self) -> (r: usize) {
        // One more line than there are newlines: a buffer with no newline at
        // all still has a first line, and one ending in a newline has an
        // empty last line.
        proof {
            self.lemma_index();
            self.lemma_text();
        }
        self.newline_count() + 1
    }

    fn get_lines(&self, start_line: usize, end_line: usize) -> (r: Vec<String>) {
        proof {
            self.lemma_text();
        }
        let capacity: usize = if start_line <= end_line {
            end_line - start_line
        } else {
            0
        };
        let mut lines: Vec<String> = Vec::with_capacity(capacity);
        let ghost text = self@;
        // Seek straight to the first line wanted instead of counting newlines
        // from character zero.
        if let Some(first) = self.line_start(start_line) {
            let len = self.len();
            let mut pos = first;
            let mut line = start_line;
            let mut current = String::new();
            proof {
                lemma_line_bounds(text, start_line as int);
            }
            while pos < len && line < end_line
                invariant
                    self.inv(),
                    text == self@,
                    len == text.len(),
                    start_line <= line,
                    line <= end_line || line == start_line,
                    lines@.len() == line - start_line,
                    forall|i: int| 0 <= i < lines@.len() ==> (#[trigger] lines@[i])@ == line_text(text, start_line + i),
                    line_start(text, line as int) is Some,
                    line_start(text, line as int)->0 <= pos <= line_end(text, line as int),
                    current@ == text.subrange(line_start(text, line as int)->0, pos as int),
                decreases len - pos,
            {
                proof {
                    lemma_line_bounds(text, line as int);
                }
                let c = self.logical_char(pos);
                let ghost old_pos = pos as int;
                pos = pos + 1;
                if c == '\n' {
                    proof {
                        assert(old_pos == line_end(text, line as int));
                        assert(line < newlines(text).len());
                        assert(lines@.len() == line - start_line);
                    }
                    lines.push(current);
                    current = String::new();
                    line = line + 1;
                    proof {
                        assert(line_start(text, line as int) == Some(pos as int));
                        lemma_line_bounds(text, line as int);
                        assert(current@ =~= text.subrange(pos as int, pos as int));
                    }
                } else {
                    current.push(c);
                    proof {
                        assert(current@ =~= text.subrange(line_start(text, line as int)->0, pos as int));
                    }
                }
            }
            // The final line, when the text does not end in a newline.
            if line < end_line {
                proof {
                    lemma_line_bounds(text, line as int);
                    assert(pos == len);
                    assert(line_end(text, line as int) == len);
                }
                lines.push(current);
            }
            proof {
                if lines@.len() < capacity {
                    lemma_line_bounds(text, line as int);
                    assert(line == newlines(text).len());
                }
                assert(lines@.len() < capacity ==> start_line + lines@.len() > newlines(text).len());
            }
        }
        let ghost filled = lines@.len();
        proof {
            assert(filled < capacity ==> start_line + filled > newlines(text).len());
            assert forall|i: int| filled <= i < capacity implies #[trigger] line_text(text, start_line + i) == Seq::<char>::empty() by {
                assert(line_start(text, start_line + i) is None);
            }
        }
        // Fill remaining requested space with empty strings (if scrolled past
        // EOF).
        while lines.len() < capacity
            invariant
                lines@.len() <= capacity,
                filled <= lines@.len(),
                forall|i: int| 0 <= i < filled ==> (#[trigger] lines@[i])@ == line_text(text, start_line + i),
                forall|i: int| filled <= i < lines@.len() ==> (#[trigger] lines@[i])@ == Seq::<char>::empty(),
                forall|i: int| filled <= i < capacity ==> #[trigger] line_text(text, start_line + i) == Seq::<char>::empty(),
            decreases capacity - lines@.len(),
        {
            lines.push(String::new());
        }
        lines
    }
}

} // verus!
