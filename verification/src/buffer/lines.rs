//! What a line is: the mathematical reading of a text as lines and columns
//! that every position conversion in the editor is measured against.
use vstd::prelude::*;

verus! {

/// Offsets of every `'\n'` in `s`, ascending.
pub open spec fn newlines(s: Seq<char>) -> Seq<int>
    decreases s.len(),
{
    if s.len() == 0 {
        Seq::empty()
    } else {
        let rest = newlines(s.drop_last());
        if s.last() == '\n' {
            rest.push(s.len() - 1)
        } else {
            rest
        }
    }
}

/// Every offset in `s` moved along by `d`.
pub open spec fn shift(s: Seq<int>, d: int) -> Seq<int> {
    Seq::new(s.len(), |i: int| s[i] + d)
}

/// How many newlines `s` holds.
pub open spec fn newline_count(s: Seq<char>) -> nat {
    newlines(s).len()
}

/// Line and column of the position before offset `p`, counting the way a
/// reader does: a newline ends its line and the next one starts at column 0.
pub open spec fn line_col(s: Seq<char>, p: int) -> (int, int)
    decreases p,
{
    if p <= 0 {
        (0, 0)
    } else {
        let lc = line_col(s, p - 1);
        if s[p - 1] == '\n' {
            (lc.0 + 1, 0)
        } else {
            (lc.0, lc.1 + 1)
        }
    }
}

/// Line and column of offset `p`, where an offset past the end of the text
/// keeps counting columns along its last line.
pub open spec fn offset_to_line_col(s: Seq<char>, p: int) -> (int, int) {
    if p <= s.len() {
        line_col(s, p)
    } else {
        let lc = line_col(s, s.len() as int);
        (lc.0, lc.1 + (p - s.len()))
    }
}

/// Where `line` begins, or nothing when the text has fewer lines.
pub open spec fn line_start(s: Seq<char>, line: int) -> Option<int> {
    if line == 0 {
        Some(0)
    } else if 0 < line <= newlines(s).len() {
        Some(newlines(s)[line - 1] + 1)
    } else {
        None
    }
}

/// One past the last character of `line`, not counting its newline.
pub open spec fn line_end(s: Seq<char>, line: int) -> int {
    if 0 <= line < newlines(s).len() {
        newlines(s)[line]
    } else {
        s.len() as int
    }
}

/// The characters of `line` without its newline, or nothing when the text
/// has fewer lines.
pub open spec fn line_text(s: Seq<char>, line: int) -> Seq<char> {
    match line_start(s, line) {
        Some(start) => s.subrange(start, line_end(s, line)),
        None => Seq::empty(),
    }
}

/// The offset a line and column name: a column past its line's end clamps to
/// that end, and a line past the text's end clamps to the end of the text.
pub open spec fn line_col_to_offset(s: Seq<char>, line: int, col: int) -> int {
    match line_start(s, line) {
        Some(start) => if start + col <= line_end(s, line) {
            start + col
        } else {
            line_end(s, line)
        },
        None => s.len() as int,
    }
}

/// Where the line containing the end of a text with newlines `nl` begins.
pub open spec fn last_line_begin(nl: Seq<int>) -> int {
    if nl.len() == 0 {
        0
    } else {
        nl.last() + 1
    }
}

pub proof fn lemma_newlines_push(s: Seq<char>, c: char)
    ensures
        newlines(s.push(c)) == (if c == '\n' {
            newlines(s).push(s.len() as int)
        } else {
            newlines(s)
        }),
{
    assert(s.push(c).drop_last() =~= s);
}

pub proof fn lemma_newlines_concat(a: Seq<char>, b: Seq<char>)
    ensures
        newlines(a + b) =~= newlines(a) + shift(newlines(b), a.len() as int),
    decreases b.len(),
{
    if b.len() == 0 {
        assert(a + b =~= a);
    } else {
        let b0 = b.drop_last();
        lemma_newlines_concat(a, b0);
        assert((a + b).drop_last() =~= a + b0);
        assert((a + b).last() == b.last());
    }
}

/// The newline offsets are in range, ascending, and are exactly where the
/// newlines are.
pub proof fn lemma_newlines_props(s: Seq<char>)
    ensures
        forall|k: int|
            0 <= k < newlines(s).len() ==> 0 <= #[trigger] newlines(s)[k] < s.len() && s[newlines(
                s,
            )[k]] == '\n',
        forall|i: int, j: int|
            0 <= i < j < newlines(s).len() ==> #[trigger] newlines(s)[i] < #[trigger] newlines(
                s,
            )[j],
        forall|p: int| 0 <= p < s.len() && s[p] == '\n' ==> #[trigger] newlines(s).contains(p),
    decreases s.len(),
{
    if s.len() > 0 {
        let s0 = s.drop_last();
        lemma_newlines_props(s0);
        assert forall|p: int| 0 <= p < s.len() && s[p] == '\n' implies #[trigger] newlines(
            s,
        ).contains(p) by {
            if p < s.len() - 1 {
                assert(s0[p] == s[p]);
                assert(newlines(s0).contains(p));
                let k = choose|k: int| 0 <= k < newlines(s0).len() && newlines(s0)[k] == p;
                assert(newlines(s)[k] == p);
            } else {
                assert(newlines(s).last() == p);
            }
        }
    }
}

/// The line and column of a position are the number of newlines before it
/// and its distance from the last of them.
pub proof fn lemma_line_col_newlines(s: Seq<char>, p: int)
    requires
        0 <= p <= s.len(),
    ensures
        line_col(s, p).0 == newlines(s.take(p)).len(),
        line_col(s, p).1 == p - last_line_begin(newlines(s.take(p))),
    decreases p,
{
    if p > 0 {
        lemma_line_col_newlines(s, p - 1);
        assert(s.take(p).drop_last() =~= s.take(p - 1));
    } else {
        assert(s.take(0) =~= Seq::<char>::empty());
    }
}

/// Splitting a text at `q`: its newlines are those before `q`, followed by
/// those at or after it.
pub proof fn lemma_newlines_split(s: Seq<char>, q: int)
    requires
        0 <= q <= s.len(),
    ensures
        newlines(s) =~= newlines(s.take(q)) + shift(newlines(s.skip(q)), q),
        forall|k: int|
            0 <= k < newlines(s.take(q)).len() ==> #[trigger] newlines(s)[k] < q,
        forall|k: int|
            newlines(s.take(q)).len() <= k < newlines(s).len() ==> #[trigger] newlines(s)[k]
                >= q,
{
    assert(s =~= s.take(q) + s.skip(q));
    lemma_newlines_concat(s.take(q), s.skip(q));
    lemma_newlines_props(s.take(q));
    lemma_newlines_props(s.skip(q));
}


/// Whether line-and-column `a` comes before `b` in reading order.
pub open spec fn lc_before(a: (int, int), b: (int, int)) -> bool {
    a.0 < b.0 || (a.0 == b.0 && a.1 < b.1)
}

/// Reading moves forward: a later position always has a later line and
/// column.
pub proof fn lemma_line_col_increasing(s: Seq<char>, i: int, j: int)
    requires
        0 <= i < j <= s.len(),
    ensures
        lc_before(line_col(s, i), line_col(s, j)),
    decreases j - i,
{
    if j - 1 > i {
        lemma_line_col_increasing(s, i, j - 1);
    }
}

/// A line's end is its newline, when it has one.
pub proof fn lemma_line_bounds(s: Seq<char>, line: int)
    requires
        line_start(s, line) is Some,
    ensures
        0 <= line_start(s, line)->0 <= line_end(s, line) <= s.len(),
        line < newlines(s).len() ==> s[line_end(s, line)] == '\n' && line_end(s, line) < s.len(),
        line >= newlines(s).len() ==> line_end(s, line) == s.len(),
        forall|q: int|
            line_start(s, line)->0 <= q < line_end(s, line) ==> #[trigger] s[q] != '\n',
{
    lemma_newlines_props(s);
    let nl = newlines(s);
    assert forall|q: int|
        line_start(s, line)->0 <= q < line_end(s, line) implies #[trigger] s[q] != '\n' by {
        if s[q] == '\n' {
            assert(nl.contains(q));
            let k = choose|k: int| 0 <= k < nl.len() && nl[k] == q;
            if k < line {
                if k < line - 1 {
                    assert(nl[k] < nl[line - 1]);
                }
            } else {
                if k > line {
                    assert(nl[line] < nl[k]);
                }
            }
        }
    }
    if line > 0 && line < nl.len() {
        assert(nl[line - 1] < nl[line]);
    }
}


/// A text holds no more newlines than characters.
pub proof fn lemma_newlines_len(s: Seq<char>)
    ensures
        newlines(s).len() <= s.len(),
    decreases s.len(),
{
    if s.len() > 0 {
        lemma_newlines_len(s.drop_last());
    }
}

/// Reading one more character adds a newline exactly when it is one, and that
/// newline is the next in the text's list.
pub proof fn lemma_newline_at(s: Seq<char>, i: int)
    requires
        0 <= i < s.len(),
    ensures
        newlines(s.take(i + 1)).len() == newlines(s.take(i)).len() + (if s[i] == '\n' {
            1int
        } else {
            0int
        }),
        s[i] == '\n' ==> newlines(s.take(i)).len() < newlines(s).len() && newlines(s)[newlines(
            s.take(i),
        ).len() as int] == i,
{
    assert(s.take(i + 1) =~= s.take(i).push(s[i]));
    lemma_newlines_push(s.take(i), s[i]);
    lemma_newlines_split(s, i + 1);
}


/// Inside a line, the line number is that line's and the column is the
/// distance from its start.
pub proof fn lemma_line_col_within(s: Seq<char>, line: int, j: int)
    requires
        line_start(s, line) is Some,
        line_start(s, line)->0 <= j <= line_end(s, line),
    ensures
        line_col(s, j) == (line, j - line_start(s, line)->0),
{
    lemma_line_bounds(s, line);
    lemma_newlines_props(s);
    lemma_line_col_newlines(s, j);
    lemma_newlines_split(s, j);
    let nl = newlines(s);
    let a = newlines(s.take(j));
    if line > 0 {
        if a.len() < line {
            assert(nl[line - 1] >= j);
        }
    }
    if a.len() > line {
        assert(nl[line] < j);
    }
    assert(a.len() == line);
    if line > 0 {
        assert(a[line - 1] == nl[line - 1]);
    }
}


/// A position is where its own line and column say it is.
pub proof fn lemma_line_col_offset(s: Seq<char>, p: int)
    requires
        0 <= p <= s.len(),
    ensures
        line_start(s, line_col(s, p).0) == Some(p - line_col(s, p).1),
        p <= line_end(s, line_col(s, p).0),
        line_col_to_offset(s, line_col(s, p).0, line_col(s, p).1) == p,
        line_col(s, p).0 <= newlines(s).len(),
        0 <= line_col(s, p).1 <= p,
{
    lemma_line_col_newlines(s, p);
    lemma_newlines_split(s, p);
    let nl = newlines(s);
    let a = newlines(s.take(p));
    let l = line_col(s, p).0;
    if l > 0 {
        assert(a[l - 1] == nl[l - 1]);
    }
    if l < nl.len() {
        assert(nl[l] >= p);
    }
    lemma_newlines_props(s.take(p));
    if a.len() > 0 {
        assert(a[a.len() - 1] < p);
    }
}

/// A position on a line that holds a newline, or the end of the text, is
/// where that line ends.
pub proof fn lemma_line_col_at_end(s: Seq<char>, p: int)
    requires
        0 <= p <= s.len(),
        p == s.len() || s[p] == '\n',
    ensures
        line_end(s, line_col(s, p).0) == p,
{
    lemma_line_col_offset(s, p);
    lemma_line_bounds(s, line_col(s, p).0);
}


/// The text cut at every newline, as splitting a string on `'\n'` cuts it:
/// one piece more than there are newlines, the newlines themselves dropped.
pub open spec fn split_lines(s: Seq<char>) -> Seq<Seq<char>>
    decreases s.len(),
{
    if s.len() == 0 {
        seq![Seq::empty()]
    } else {
        let r = split_lines(s.drop_last());
        if s.last() == '\n' {
            r.push(Seq::empty())
        } else {
            r.update(r.len() - 1, r.last().push(s.last()))
        }
    }
}

/// The lines of a text are its pieces when split on newlines, and a line
/// past the last is empty: reading lines `x` to `y` is splitting the text,
/// skipping `x` pieces and padding with empty lines past the end.
pub proof fn lemma_lines_are_split(s: Seq<char>)
    ensures
        split_lines(s).len() == newline_count(s) + 1,
        forall|k: int| 0 <= k <= newline_count(s) ==> #[trigger] line_text(s, k) == split_lines(s)[k],
        forall|k: int| k > newline_count(s) ==> #[trigger] line_text(s, k) == Seq::<char>::empty(),
    decreases s.len(),
{
    if s.len() == 0 {
        assert(newlines(s) =~= Seq::<int>::empty());
        assert(line_text(s, 0) =~= Seq::<char>::empty());
    } else {
        let t = s.drop_last();
        let c = s.last();
        lemma_lines_are_split(t);
        lemma_newlines_props(t);
        assert(t.push(c) =~= s);
        lemma_newlines_push(t, c);
        let n = newlines(t);
        let r = split_lines(t);
        assert forall|k: int| 0 <= k <= newline_count(s) implies #[trigger] line_text(s, k) == split_lines(s)[k] by {
            if k <= n.len() {
                let st = line_start(t, k)->0;
                assert(0 <= st <= t.len()) by {
                    if k > 0 {
                        assert(n[k - 1] < t.len());
                    }
                }
                assert(line_text(t, k) == r[k]);
                if k < n.len() {
                    assert(line_end(s, k) == line_end(t, k));
                    assert(n[k] < t.len());
                    if k > 0 {
                        assert(n[k - 1] < n[k]);
                    }
                    assert(line_text(s, k) =~= line_text(t, k));
                } else if c == '\n' {
                    assert(line_end(s, k) == t.len());
                    assert(line_text(s, k) =~= line_text(t, k));
                } else {
                    assert(line_end(s, k) == s.len());
                    assert(line_text(s, k) =~= line_text(t, k).push(c));
                }
            } else {
                assert(c == '\n' && k == n.len() + 1);
                assert(line_text(s, k) =~= Seq::<char>::empty());
            }
        }
    }
}

} // verus!
