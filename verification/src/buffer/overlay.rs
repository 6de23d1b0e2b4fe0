//! Faces put on text by something other than the mode's own colouring.
//!
//! A buffer's colouring comes from its mode's syntax rules, which are patterns
//! over the text: they cannot say "*this* span, here, because of something
//! that happened". A search marking every match, a diagnostic arriving from
//! elsewhere, a manual page whose formatting was in the bytes -- none of those
//! are a pattern. An overlay is that: a span of text, a face, and a note of
//! what made it.
//!
//! # The one hard part
//!
//! Overlays must survive an edit. [`OverlayTable::adjust_for_insert`] and
//! [`OverlayTable::adjust_for_delete`] are where that happens: a position that
//! moved without the overlays moving with it is a highlight drawn over the
//! wrong words.
use vstd::prelude::*;
use vstd::std_specs::iter::IteratorSpec;

verus! {

/// A span of text drawn in a face.
#[derive(Clone, Debug, PartialEq)]
pub struct Overlay<F> {
    /// Half-open character offsets into the buffer.
    pub start: usize,
    pub end: usize,
    pub face: F,
    /// Higher wins where two overlap; equal priorities are drawn oldest first,
    /// so the later one covers the earlier.
    pub priority: i32,
    /// What made it. A producer replaces its own batch by category rather than
    /// by remembering every handle it was given.
    pub category: String,
    /// Stable for the life of the overlay, so Lisp can hold one.
    pub id: usize,
}

impl<F> Overlay<F> {
    /// Whether this overlay covers `position`.
    pub open spec fn spec_covers(&self, position: int) -> bool {
        self.start <= position < self.end
    }

    /// Whether this overlay covers `position`.
    pub fn covers(&self, position: usize) -> (r: bool)
        ensures
            r == self.spec_covers(position as int),
    {
        position >= self.start && position < self.end
    }
}

/// Whether `a` is drawn before `b`: lower priority first, and among equal
/// priorities the older one first.
pub open spec fn drawn_before<F>(a: Overlay<F>, b: Overlay<F>) -> bool {
    a.priority < b.priority || (a.priority == b.priority && a.id < b.id)
}

/// Whether `s` is in draw order, each strictly before the next.
pub open spec fn in_draw_order<F>(s: Seq<&Overlay<F>>) -> bool {
    forall|i: int, j: int| 0 <= i < j < s.len() ==> drawn_before(*#[trigger] s[i], *#[trigger] s[j])
}

/// Where a position stands after `n` characters are inserted at `at`, for
/// the start of an overlay: an insertion at the start moves it along, so the
/// new text ends up outside, before it.
pub open spec fn moved_start(p: usize, at: usize, n: usize) -> usize {
    if at <= p {
        (p + n) as usize
    } else {
        p
    }
}

/// Where a position stands after `n` characters are inserted at `at`, for
/// the end of an overlay: an insertion at the end leaves it, so the new text
/// ends up outside, after it; one strictly inside is absorbed.
pub open spec fn moved_end(p: usize, at: usize, n: usize) -> usize {
    if at < p {
        (p + n) as usize
    } else {
        p
    }
}

/// An overlay after `n` characters are inserted at `at`.
pub open spec fn after_insert<F>(o: Overlay<F>, at: usize, n: usize) -> Overlay<F> {
    Overlay { start: moved_start(o.start, at, n), end: moved_end(o.end, at, n), ..o }
}

/// Where a position stands after `[from, to)` is deleted: before the deletion
/// it stands, after it it moves back, inside it it collapses to where the
/// deletion began.
pub open spec fn moved_by_delete(p: usize, from: usize, to: usize) -> usize {
    if p <= from {
        p
    } else if p >= to {
        (p - (to - from)) as usize
    } else {
        from
    }
}

/// An overlay after `[from, to)` is deleted.
pub open spec fn after_delete<F>(o: Overlay<F>, from: usize, to: usize) -> Overlay<F> {
    Overlay { start: moved_by_delete(o.start, from, to), end: moved_by_delete(o.end, from, to), ..o }
}

/// Whether an overlay still covers any character.
pub open spec fn nonempty<F>(o: Overlay<F>) -> bool {
    o.start < o.end
}

/// Whether `a` comes before `b` in a table: by start, then by id.
pub open spec fn precedes<F>(a: Overlay<F>, b: Overlay<F>) -> bool {
    a.start < b.start || (a.start == b.start && a.id < b.id)
}

/// Whether `s` is in table order: sorted by start, then by id, each strictly
/// before the next.
pub open spec fn in_table_order<F>(s: Seq<Overlay<F>>) -> bool {
    forall|i: int, j: int| 0 <= i < j < s.len() ==> precedes(#[trigger] s[i], #[trigger] s[j])
}

/// Whether `k` is the place for `o` in `s`: after every overlay that comes
/// before it and before every one that comes after it.
pub open spec fn placed_at<F>(s: Seq<Overlay<F>>, k: int, o: Overlay<F>) -> bool {
    &&& forall|i: int| 0 <= i < k ==> precedes(#[trigger] s[i], o)
    &&& forall|i: int| k <= i < s.len() ==> precedes(o, #[trigger] s[i])
}

/// Whether no two of `s` share an id.
pub open spec fn distinct_ids<F>(s: Seq<Overlay<F>>) -> bool {
    forall|i: int, j: int| 0 <= i < j < s.len() ==> (#[trigger] s[i]).id != (#[trigger] s[j]).id
}

/// The furthest end of any of `s`, or 0.
pub open spec fn max_end<F>(s: Seq<Overlay<F>>) -> nat
    decreases s.len(),
{
    if s.len() == 0 {
        0
    } else {
        let rest = max_end(s.drop_last());
        if s.last().end > rest {
            s.last().end as nat
        } else {
            rest
        }
    }
}

proof fn lemma_max_end<F>(s: Seq<Overlay<F>>)
    ensures
        forall|i: int| 0 <= i < s.len() ==> (#[trigger] s[i]).end <= max_end(s),
        s.len() > 0 ==> exists|i: int| 0 <= i < s.len() && (#[trigger] s[i]).end == max_end(s),
        s.len() == 0 ==> max_end(s) == 0,
    decreases s.len(),
{
    if s.len() > 0 {
        lemma_max_end(s.drop_last());
        assert forall|i: int| 0 <= i < s.len() implies (#[trigger] s[i]).end <= max_end(s) by {
            if i < s.len() - 1 {
                assert(s.drop_last()[i] == s[i]);
            }
        }
        if s.last().end > max_end(s.drop_last()) || s.len() == 1 {
            assert(s[s.len() - 1].end == max_end(s));
        } else {
            let k = choose|i: int| 0 <= i < s.drop_last().len() && (#[trigger] s.drop_last()[i]).end
                == max_end(s.drop_last());
            assert(s[k] == s.drop_last()[k]);
        }
    }
}

/// The overlay over the span between `start` and `end`, whichever way round
/// they are given.
pub open spec fn spanned<F>(start: usize, end: usize, face: F, priority: i32, category: String, id: usize) -> Overlay<F> {
    Overlay {
        start: if start <= end {
            start
        } else {
            end
        },
        end: if start <= end {
            end
        } else {
            start
        },
        face,
        priority,
        category,
        id,
    }
}

/// Putting an overlay into its place by start keeps the table in order, and
/// its furthest end is the larger of the two.
proof fn lemma_insert_sorted<F>(before: Seq<Overlay<F>>, k: int, o: Overlay<F>, next: nat)
    requires
        0 <= k <= before.len(),
        forall|i: int, j: int| 0 <= i < j < before.len() ==> (#[trigger] before[i]).start <= (#[trigger] before[j]).start,
        forall|i: int, j: int| 0 <= i < j < before.len() ==> (#[trigger] before[i]).id != (#[trigger] before[j]).id,
        forall|i: int| 0 <= i < before.len() ==> nonempty(#[trigger] before[i]),
        in_table_order(before),
        forall|i: int| 0 <= i < before.len() ==> (#[trigger] before[i]).id < o.id,
        forall|i: int| 0 <= i < k ==> (#[trigger] before[i]).start <= o.start,
        forall|i: int| k <= i < before.len() ==> (#[trigger] before[i]).start > o.start,
        nonempty(o),
        o.id < next,
    ensures
        ({
            let after = before.insert(k, o);
            &&& forall|i: int, j: int| 0 <= i < j < after.len() ==> (#[trigger] after[i]).start <= (#[trigger] after[j]).start
            &&& forall|i: int, j: int| 0 <= i < j < after.len() ==> (#[trigger] after[i]).id != (#[trigger] after[j]).id
            &&& forall|i: int| 0 <= i < after.len() ==> nonempty(#[trigger] after[i])
            &&& forall|i: int| 0 <= i < after.len() ==> (#[trigger] after[i]).id < next
            &&& in_table_order(after)
            &&& max_end(after) == if o.end > max_end(before) {
                o.end as nat
            } else {
                max_end(before)
            }
        }),
{
    let after = before.insert(k, o);
    assert forall|i: int| 0 <= i < after.len() implies after[i] == (if i < k {
        before[i]
    } else if i == k {
        o
    } else {
        before[i - 1]
    }) by {}
    assert forall|i: int, j: int| 0 <= i < j < after.len() implies (#[trigger] after[i]).start
        <= (#[trigger] after[j]).start && after[i].id != after[j].id && precedes(after[i], after[j]) by {
        if j < k {
            assert(precedes(before[i], before[j]));
        } else if j == k {
        } else if i < k {
        } else if i == k {
        } else {
            assert(before[i - 1].start <= before[j - 1].start);
            assert(precedes(before[i - 1], before[j - 1]));
        }
    }
    lemma_max_end(before);
    lemma_max_end(after);
    let m = if o.end > max_end(before) {
        o.end as nat
    } else {
        max_end(before)
    };
    assert(max_end(after) <= m) by {
        let q = choose|i: int| 0 <= i < after.len() && (#[trigger] after[i]).end == max_end(after);
        if q < k {
            assert(after[q] == before[q]);
        } else if q > k {
            assert(after[q] == before[q - 1]);
        }
    }
    assert(max_end(after) >= m) by {
        assert(after[k].end == o.end);
        if before.len() > 0 {
            let q = choose|i: int| 0 <= i < before.len() && (#[trigger] before[i]).end == max_end(before);
            if q < k {
                assert(after[q] == before[q]);
            } else {
                assert(after[q + 1] == before[q]);
            }
        }
    }
}

/// A buffer's overlays, kept in order of where they start, then of id.
///
/// Every edit has to shift the overlays after it, and sorted order is what
/// lets an addition find its place by search rather than by re-sorting. An
/// insertion keeps the order as it is; a deletion can bring overlays that
/// started apart to start at the same place, and the order by id is restored
/// among those.
#[derive(Clone, Debug)]
pub struct OverlayTable<F> {
    overlays: Vec<Overlay<F>>,
    /// The furthest `end` of any overlay here: an edit past this point cannot
    /// affect any of them, which turns the common case into one comparison.
    furthest_end: usize,
    /// The next id to hand out. Never reused, so a stale handle names nothing
    /// rather than naming whatever took its place.
    next_id: usize,
}

impl<F> View for OverlayTable<F> {
    type V = Seq<Overlay<F>>;

    closed spec fn view(&self) -> Seq<Overlay<F>> {
        self.overlays@
    }
}

impl<F> OverlayTable<F> {
    /// The id the next overlay will get.
    pub closed spec fn next_id(&self) -> nat {
        self.next_id as nat
    }

    pub closed spec fn inv(&self) -> bool {
        &&& forall|i: int, j: int|
            0 <= i < j < self@.len() ==> (#[trigger] self@[i]).start <= (#[trigger] self@[j]).start
        &&& forall|i: int, j: int|
            0 <= i < j < self@.len() ==> (#[trigger] self@[i]).id != (#[trigger] self@[j]).id
        &&& forall|i: int| 0 <= i < self@.len() ==> nonempty(#[trigger] self@[i])
        &&& forall|i: int| 0 <= i < self@.len() ==> (#[trigger] self@[i]).id < self.next_id
        &&& in_table_order(self@)
        &&& self.furthest_end == max_end(self@)
    }

    /// A table is kept sorted by start, then by id; no two overlays share an
    /// id, and every one covers some character.
    pub proof fn lemma_table_order(&self)
        requires
            self.inv(),
        ensures
            in_table_order(self@),
            distinct_ids(self@),
            forall|i: int| 0 <= i < self@.len() ==> nonempty(#[trigger] self@[i]),
            forall|i: int| 0 <= i < self@.len() ==> (#[trigger] self@[i]).id < self.next_id(),
    {
    }

    /// The furthest end of any overlay, or 0 when there is none.
    pub open spec fn furthest(&self) -> nat {
        max_end(self@)
    }

    pub fn new() -> (r: Self)
        ensures
            r.inv(),
            r@ == Seq::<Overlay<F>>::empty(),
            r.next_id() == 0,
    {
        OverlayTable { overlays: Vec::new(), furthest_end: 0, next_id: 0 }
    }

    pub fn is_empty(&self) -> (r: bool)
        ensures
            r == (self@.len() == 0),
    {
        self.overlays.len() == 0
    }

    pub fn len(&self) -> (r: usize)
        ensures
            r == self@.len(),
    {
        self.overlays.len()
    }

    /// The overlays, in the table's order.
    pub fn iter(&self) -> (r: std::slice::Iter<'_, Overlay<F>>)
        ensures
            r.remaining() == self@.as_ref(),
    {
        broadcast use vstd::std_specs::slice::axiom_spec_slice_iter;

        self.overlays.as_slice().iter()
    }

    /// Add an overlay and return its id.
    ///
    /// An empty span is refused: an overlay over no characters draws nothing,
    /// and keeping one means a buffer slowly filling with entries that cannot
    /// be seen and so are never noticed.
    pub fn add(&mut self, start: usize, end: usize, face: F, priority: i32, category: String) -> (r:
        Option<usize>)
        requires
            old(self).inv(),
            old(self).next_id() < usize::MAX,
        ensures
            final(self).inv(),
            start == end ==> r is None && final(self)@ == old(self)@ && final(self).next_id()
                == old(self).next_id(),
            start != end ==> {
                &&& r == Some(old(self).next_id() as usize)
                &&& final(self).next_id() == old(self).next_id() + 1
                &&& exists|k: int|
                    0 <= k <= old(self)@.len() && final(self)@ == #[trigger] old(self)@.insert(
                        k,
                        spanned(start, end, face, priority, category, old(self).next_id() as usize),
                    ) && placed_at(old(self)@, k, final(self)@[k])
            },
    {
        let lo = if start <= end {
            start
        } else {
            end
        };
        let hi = if start <= end {
            end
        } else {
            start
        };
        if lo == hi {
            return None;
        }
        let id = self.next_id;
        self.next_id = self.next_id + 1;
        let ghost wanted = spanned(start, end, face, priority, category, id);
        let overlay = Overlay { start: lo, end: hi, face, priority, category, id };
        assert(overlay == wanted);
        // Inserted in place rather than pushed and re-sorted: a producer
        // adding a thousand matches one at a time would otherwise sort a
        // thousand times. Everything already here has a smaller id, so the
        // place is after every overlay starting at or before this one.
        let n = self.overlays.len();
        let mut low: usize = 0;
        let mut high: usize = n;
        while low < high
            invariant
                low <= high <= n == self@.len(),
                forall|i: int| 0 <= i < low ==> (#[trigger] self@[i]).start <= lo,
                forall|i: int| high <= i < n ==> (#[trigger] self@[i]).start > lo,
                forall|i: int, j: int|
                    0 <= i < j < self@.len() ==> (#[trigger] self@[i]).start <= (#[trigger] self@[j]).start,
            decreases high - low,
        {
            let mid = low + (high - low) / 2;
            if self.overlays[mid].start <= lo {
                low = mid + 1;
            } else {
                high = mid;
            }
        }
        let ghost before = self@;
        self.overlays.insert(low, overlay);
        proof {
            lemma_insert_sorted(before, low as int, overlay, self.next_id as nat);
        }
        if hi > self.furthest_end {
            self.furthest_end = hi;
        }
        assert(self@ == old(self)@.insert(low as int, wanted));
        assert(wanted == spanned(start, end, face, priority, category, old(self).next_id() as usize));
        proof {
            assert(self@[low as int] == wanted);
            assert forall|i: int| 0 <= i < low implies precedes(#[trigger] old(self)@[i], wanted) by {}
            assert forall|i: int| low <= i < old(self)@.len() implies precedes(wanted, #[trigger] old(self)@[i]) by {}
            assert(placed_at(old(self)@, low as int, self@[low as int]));
        }
        assert(exists|k: int| 0 <= k <= old(self)@.len() && self@ == #[trigger] old(self)@.insert(k, spanned(start, end, face, priority, category, old(self).next_id() as usize)) && placed_at(old(self)@, k, self@[k]));
        Some(id)
    }
}


/// Which overlays a removal keeps.
enum Keep {
    /// Those with another id.
    OtherThan(usize),
    /// Those of another category.
    NotOf(String),
    /// Those still covering some character.
    Covering,
}

spec fn keeps<F>(rule: Keep, o: Overlay<F>) -> bool {
    match rule {
        Keep::OtherThan(id) => o.id != id,
        Keep::NotOf(c) => o.category@ != c@,
        Keep::Covering => nonempty(o),
    }
}

fn keeps_exec<F>(rule: &Keep, o: &Overlay<F>) -> (r: bool)
    ensures
        r == keeps(*rule, *o),
{
    match rule {
        Keep::OtherThan(id) => o.id != *id,
        Keep::NotOf(c) => !(o.category == *c),
        Keep::Covering => o.start < o.end,
    }
}

/// What a filter keeps comes from what it was given, in the same order, so
/// any relation between earlier and later elements survives it.
proof fn lemma_filter_pairwise<F>(
    s: Seq<Overlay<F>>,
    p: spec_fn(Overlay<F>) -> bool,
    rel: spec_fn(Overlay<F>, Overlay<F>) -> bool,
    unary: spec_fn(Overlay<F>) -> bool,
)
    requires
        forall|i: int, j: int| 0 <= i < j < s.len() ==> #[trigger] rel(s[i], s[j]),
        forall|i: int| 0 <= i < s.len() ==> #[trigger] unary(s[i]),
    ensures
        forall|i: int, j: int|
            0 <= i < j < s.filter(p).len() ==> #[trigger] rel(s.filter(p)[i], s.filter(p)[j]),
        forall|i: int| 0 <= i < s.filter(p).len() ==> #[trigger] unary(s.filter(p)[i]),
        forall|i: int| 0 <= i < s.filter(p).len() ==> #[trigger] p(s.filter(p)[i]),
        forall|i: int| 0 <= i < s.filter(p).len() ==> s.contains(#[trigger] s.filter(p)[i]),
    decreases s.len(),
{
    reveal(Seq::filter);
    if s.len() > 0 {
        let d = s.drop_last();
        assert forall|i: int, j: int| 0 <= i < j < d.len() implies #[trigger] rel(d[i], d[j]) by {
            assert(d[i] == s[i] && d[j] == s[j]);
        }
        assert forall|i: int| 0 <= i < d.len() implies #[trigger] unary(d[i]) by {
            assert(d[i] == s[i]);
        }
        lemma_filter_pairwise(d, p, rel, unary);
        let f = s.filter(p);
        let fd = d.filter(p);
        assert forall|i: int| 0 <= i < fd.len() implies s.contains(#[trigger] fd[i]) by {
            let q = choose|q: int| 0 <= q < d.len() && d[q] == fd[i];
            assert(s[q] == d[q]);
        }
        if p(s.last()) {
            assert(f == fd.push(s.last()));
            assert forall|i: int, j: int| 0 <= i < j < f.len() implies #[trigger] rel(f[i], f[j]) by {
                if j == f.len() - 1 {
                    let q = choose|q: int| 0 <= q < d.len() && d[q] == fd[i];
                    assert(s[q] == d[q]);
                    assert(rel(s[q], s[s.len() - 1]));
                } else {
                    assert(f[i] == fd[i] && f[j] == fd[j]);
                }
            }
            assert forall|i: int| 0 <= i < f.len() implies #[trigger] unary(f[i]) && p(f[i]) && s.contains(f[i]) by {
                if i < f.len() - 1 {
                    assert(f[i] == fd[i]);
                } else {
                    assert(s[s.len() - 1] == f[i]);
                }
            }
        } else {
            assert(f == fd);
        }
    }
}

impl<F> OverlayTable<F> {
    /// Drop every overlay the rule does not keep, and bring the furthest end
    /// up to date.
    fn retain(&mut self, rule: &Keep)
        requires
            old(self).inv(),
        ensures
            final(self).inv(),
            final(self)@ == old(self)@.filter(|o: Overlay<F>| keeps(*rule, o)),
            final(self).next_id() == old(self).next_id(),
    {
        let ghost all = self@;
        let ghost p = |o: Overlay<F>| keeps(*rule, o);
        let mut pending: Vec<Overlay<F>> = Vec::new();
        std::mem::swap(&mut pending, &mut self.overlays);
        proof {
            assert(pending@ == all);
        }
        for o in it: pending.into_iter()
            invariant
                it.seq() == all,
                all == old(self)@,
                self.next_id == old(self).next_id(),
                self.overlays@ == all.take(it.index()).filter(p),
                p == (|o: Overlay<F>| keeps(*rule, o)),
        {
            proof {
                reveal(Seq::filter);
                let n = it.index();
                assert(all.take(n + 1).drop_last() =~= all.take(n));
                assert(all.take(n + 1).last() == all[n]);
            }
            if keeps_exec(rule, &o) {
                self.overlays.push(o);
            }
        }
        proof {
            assert(all.take(all.len() as int) =~= all);
        }
        proof {
            let rel = |a: Overlay<F>, b: Overlay<F>| a.start <= b.start && a.id != b.id && precedes(a, b);
            let unary = |a: Overlay<F>| nonempty(a) && a.id < self.next_id;
            assert forall|i: int, j: int| 0 <= i < j < all.len() implies #[trigger] rel(all[i], all[j]) by {
                assert(precedes(all[i], all[j]));
            }
            lemma_filter_pairwise(all, p, rel, unary);
            let f = all.filter(p);
            assert forall|i: int, j: int| 0 <= i < j < f.len() implies (#[trigger] f[i]).start
                <= (#[trigger] f[j]).start && f[i].id != f[j].id && precedes(f[i], f[j]) by {
                assert(rel(f[i], f[j]));
            }
            assert forall|i: int| 0 <= i < f.len() implies nonempty(#[trigger] f[i]) && f[i].id < self.next_id by {
                assert(unary(f[i]));
            }
        }
        self.recompute_furthest_end();
    }

    /// Bring the furthest end up to date with what is in the table.
    fn recompute_furthest_end(&mut self)
        ensures
            final(self)@ == old(self)@,
            final(self).next_id() == old(self).next_id(),
            final(self).furthest_end == max_end(old(self)@),
    {
        let mut furthest: usize = 0;
        let mut i: usize = 0;
        while i < self.overlays.len()
            invariant
                i <= self@.len(),
                furthest == max_end(self@.take(i as int)),
            decreases self@.len() - i,
        {
            proof {
                assert(self@.take(i + 1).drop_last() =~= self@.take(i as int));
            }
            if self.overlays[i].end > furthest {
                furthest = self.overlays[i].end;
            }
            i = i + 1;
        }
        proof {
            assert(self@.take(i as int) =~= self@);
        }
        self.furthest_end = furthest;
    }

    /// Remove the overlay with `id`. True if there was one.
    pub fn remove(&mut self, id: usize) -> (r: bool)
        requires
            old(self).inv(),
        ensures
            final(self).inv(),
            final(self)@ == old(self)@.filter(|o: Overlay<F>| o.id != id),
            r == exists|i: int| 0 <= i < old(self)@.len() && #[trigger] old(self)@[i].id == id,
            final(self).next_id() == old(self).next_id(),
    {
        let before = self.overlays.len();
        let ghost all = self@;
        let rule = Keep::OtherThan(id);
        self.retain(&rule);
        proof {
            let p = |o: Overlay<F>| o.id != id;
            assert(all.filter(|o: Overlay<F>| keeps(rule, o)) =~= all.filter(p)) by {
                assert((|o: Overlay<F>| keeps(rule, o)) =~= p);
            }
            lemma_filter_len_drop(all, p);
        }
        self.overlays.len() != before
    }

    /// Remove every overlay in `category`, or all of them when it is `None`.
    /// Returns how many went.
    pub fn remove_category(&mut self, category: Option<&str>) -> (r: usize)
        requires
            old(self).inv(),
        ensures
            final(self).inv(),
            final(self).next_id() == old(self).next_id(),
            match category {
                Some(c) => final(self)@ == old(self)@.filter(|o: Overlay<F>| o.category@ != c@),
                None => final(self)@ == Seq::<Overlay<F>>::empty(),
            },
            r == old(self)@.len() - final(self)@.len(),
    {
        let before = self.overlays.len();
        let ghost all = self@;
        match category {
            Some(c) => {
                let wanted = c.to_owned();
                let rule = Keep::NotOf(wanted);
                self.retain(&rule);
                proof {
                    assert((|o: Overlay<F>| keeps(rule, o)) =~= (|o: Overlay<F>| o.category@ != c@));
                    all.lemma_filter_len(|o: Overlay<F>| o.category@ != c@);
                }
            },
            None => {
                self.overlays.clear();
                self.furthest_end = 0;
            },
        }
        before - self.overlays.len()
    }
}

/// A filter drops something exactly when something fails the test.
proof fn lemma_filter_len_drop<F>(s: Seq<Overlay<F>>, p: spec_fn(Overlay<F>) -> bool)
    ensures
        s.filter(p).len() <= s.len(),
        (s.filter(p).len() != s.len()) == exists|i: int| 0 <= i < s.len() && !p(#[trigger] s[i]),
    decreases s.len(),
{
    reveal(Seq::filter);
    if s.len() > 0 {
        let d = s.drop_last();
        lemma_filter_len_drop(d, p);
        if exists|i: int| 0 <= i < d.len() && !p(#[trigger] d[i]) {
            let i = choose|i: int| 0 <= i < d.len() && !p(#[trigger] d[i]);
            assert(s[i] == d[i]);
        }
        if exists|i: int| 0 <= i < s.len() && !p(#[trigger] s[i]) {
            let i = choose|i: int| 0 <= i < s.len() && !p(#[trigger] s[i]);
            if i < d.len() {
                assert(s[i] == d[i]);
            }
        }
    }
}


fn draws_before<F>(a: &Overlay<F>, b: &Overlay<F>) -> (r: bool)
    ensures
        r == drawn_before(*a, *b),
{
    a.priority < b.priority || (a.priority == b.priority && a.id < b.id)
}

/// Put `o` into `found` at its place in draw order.
fn insert_in_draw_order<'a, F>(found: &mut Vec<&'a Overlay<F>>, o: &'a Overlay<F>)
    requires
        in_draw_order(old(found)@),
        forall|k: int| 0 <= k < old(found)@.len() ==> (#[trigger] old(found)@[k]).id != o.id,
    ensures
        in_draw_order(final(found)@),
        exists|k: int| 0 <= k <= old(found)@.len() && final(found)@ == #[trigger] old(found)@.insert(k, o),
{
    let mut k: usize = 0;
    while k < found.len() && draws_before(found[k], o)
        invariant
            k <= found@.len(),
            found@ == old(found)@,
            forall|q: int| 0 <= q < k ==> drawn_before(*#[trigger] found@[q], *o),
        decreases found@.len() - k,
    {
        k = k + 1;
    }
    let ghost before = found@;
    found.insert(k, o);
    proof {
        let after = found@;
        assert forall|i: int, j: int| 0 <= i < j < after.len() implies drawn_before(
            *#[trigger] after[i],
            *#[trigger] after[j],
        ) by {
            if j < k {
                assert(after[i] == before[i] && after[j] == before[j]);
            } else if j == k {
                assert(after[i] == before[i]);
            } else if i < k {
                assert(after[i] == before[i] && after[j] == before[j - 1]);
                assert(drawn_before(*before[i], *before[j - 1]));
            } else if i == k {
                assert(after[j] == before[j - 1]);
                // `o` is not drawn after `before[k]`, and their ids differ.
                assert(!drawn_before(*before[k as int], *o));
                assert(before[k as int].id != o.id);
                assert(k == j - 1 || drawn_before(*before[k as int], *before[j - 1]));
            } else {
                assert(after[i] == before[i - 1] && after[j] == before[j - 1]);
                assert(drawn_before(*before[i - 1], *before[j - 1]));
            }
        }
    }
}

/// Moving every overlay for an insertion moves the furthest end with the
/// ones that reach past the insertion point.
proof fn lemma_max_end_insert<F>(s: Seq<Overlay<F>>, at: usize, n: usize)
    requires
        max_end(s) + n <= usize::MAX,
    ensures
        max_end(s.map_values(|o: Overlay<F>| after_insert(o, at, n))) == (if at < max_end(s) {
            max_end(s) + n
        } else {
            max_end(s) as int
        }),
{
    let m = s.map_values(|o: Overlay<F>| after_insert(o, at, n));
    lemma_max_end(s);
    lemma_max_end(m);
    let target = if at < max_end(s) {
        max_end(s) + n
    } else {
        max_end(s) as int
    };
    assert forall|i: int| 0 <= i < m.len() implies (#[trigger] m[i]).end <= target by {
        assert(s[i].end <= max_end(s));
    }
    if s.len() > 0 {
        let q = choose|i: int| 0 <= i < s.len() && (#[trigger] s[i]).end == max_end(s);
        assert(m[q].end == target);
        let w = choose|i: int| 0 <= i < m.len() && (#[trigger] m[i]).end == max_end(m);
        assert(m[w].end <= target);
    }
}

impl<F> OverlayTable<F> {
    /// The overlays `sel` picks, in draw order.
    fn collect(&self, sel: Select) -> (r: Vec<&Overlay<F>>)
        requires
            self.inv(),
        ensures
            in_draw_order(r@),
            forall|k: int| 0 <= k < r@.len() ==> self@.contains(*#[trigger] r@[k]) && selects(sel, *r@[k]),
            forall|j: int| 0 <= j < self@.len() && selects(sel, #[trigger] self@[j]) ==> r@.contains(&self@[j]),
    {
        let mut found: Vec<&Overlay<F>> = Vec::new();
        let mut i: usize = 0;
        while i < self.overlays.len()
            invariant
                self.inv(),
                i <= self@.len(),
                in_draw_order(found@),
                forall|k: int| 0 <= k < found@.len() ==> self@.take(i as int).contains(*#[trigger] found@[k]) && selects(sel, *found@[k]),
                forall|j: int| 0 <= j < i && selects(sel, #[trigger] self@[j]) ==> found@.contains(&self@[j]),
            decreases self@.len() - i,
        {
            let o = &self.overlays[i];
            if selects_exec(sel, o) {
                proof {
                    assert forall|k: int| 0 <= k < found@.len() implies (#[trigger] found@[k]).id != o.id by {
                        let j = choose|j: int| 0 <= j < i && #[trigger] self@.take(i as int)[j] == *found@[k];
                        assert(self@[j] == self@.take(i as int)[j]);
                        assert(self@[j].id != self@[i as int].id);
                    }
                }
                let ghost before = found@;
                insert_in_draw_order(&mut found, o);
                proof {
                    let k = choose|k: int| 0 <= k <= before.len() && found@ == #[trigger] before.insert(k, o);
                    assert forall|q: int| 0 <= q < found@.len() implies self@.take(i + 1).contains(*#[trigger] found@[q]) by {
                        if q == k {
                            assert(self@.take(i + 1)[i as int] == *found@[q]);
                        } else {
                            let b = if q < k { q } else { q - 1 };
                            assert(found@[q] == before[b]);
                            let j = choose|j: int| 0 <= j < i && #[trigger] self@.take(i as int)[j] == *before[b];
                            assert(self@.take(i + 1)[j] == self@.take(i as int)[j]);
                        }
                    }
                    assert forall|j: int| 0 <= j < i + 1 && selects(sel, #[trigger] self@[j]) implies found@.contains(&self@[j]) by {
                        if j < i {
                            let q = choose|q: int| 0 <= q < before.len() && before[q] == &self@[j];
                            if q < k {
                                assert(found@[q] == before[q]);
                            } else {
                                assert(found@[q + 1] == before[q]);
                            }
                        } else {
                            assert(found@[k] == o);
                        }
                    }
                }
            }
            i = i + 1;
        }
        proof {
            assert(self@.take(i as int) =~= self@);
        }
        found
    }

    /// The overlays covering `position`, highest priority last.
    pub fn at(&self, position: usize) -> (r: Vec<&Overlay<F>>)
        requires
            self.inv(),
        ensures
            in_draw_order(r@),
            forall|k: int| 0 <= k < r@.len() ==> self@.contains(*#[trigger] r@[k]) && r@[k].spec_covers(position as int),
            forall|j: int| 0 <= j < self@.len() && (#[trigger] self@[j]).spec_covers(position as int) ==> r@.contains(&self@[j]),
    {
        self.collect(Select::Covering(position))
    }

    /// Everything overlapping the half-open range `[from, to)`, in draw order:
    /// lowest priority first, so a renderer that paints in order leaves the
    /// highest on top.
    pub fn overlapping(&self, from: usize, to: usize) -> (r: Vec<&Overlay<F>>)
        requires
            self.inv(),
        ensures
            in_draw_order(r@),
            forall|k: int| 0 <= k < r@.len() ==> self@.contains(*#[trigger] r@[k]) && r@[k].start < to && r@[k].end > from,
            forall|j: int| 0 <= j < self@.len() && (#[trigger] self@[j]).start < to && self@[j].end > from ==> r@.contains(&self@[j]),
    {
        self.collect(Select::Overlapping(from, to))
    }
}

/// Which overlays a query picks.
#[derive(Clone, Copy)]
enum Select {
    Covering(usize),
    Overlapping(usize, usize),
}

spec fn selects<F>(sel: Select, o: Overlay<F>) -> bool {
    match sel {
        Select::Covering(p) => o.spec_covers(p as int),
        Select::Overlapping(from, to) => o.start < to && o.end > from,
    }
}

fn selects_exec<F>(sel: Select, o: &Overlay<F>) -> (r: bool)
    ensures
        r == selects(sel, *o),
{
    match sel {
        Select::Covering(p) => o.covers(p),
        Select::Overlapping(from, to) => o.start < to && o.end > from,
    }
}


/// Moving positions for a deletion never reorders them.
proof fn lemma_moved_by_delete_monotone(p: usize, q: usize, from: usize, to: usize)
    requires
        from < to,
        p <= q,
    ensures
        moved_by_delete(p, from, to) <= moved_by_delete(q, from, to),
{
}

impl<F> OverlayTable<F> {
    /// Move the overlays for `n` characters inserted at `at`.
    ///
    /// `start` moves when the insertion is at or before it; `end` moves only
    /// when the insertion is strictly before it. That one difference is the
    /// whole of "neither end grows": text typed at either edge of an overlay
    /// ends up outside it, text typed strictly inside is absorbed. A
    /// highlighted search match therefore stays exactly the text that
    /// matched, however much is typed either side of it.
    pub fn adjust_for_insert(&mut self, at: usize, n: usize)
        requires
            old(self).inv(),
            old(self).furthest() + n <= usize::MAX,
        ensures
            final(self).inv(),
            final(self)@ == old(self)@.map_values(|o: Overlay<F>| after_insert(o, at, n)),
            final(self).next_id() == old(self).next_id(),
    {
        let ghost all = self@;
        let ghost f = |o: Overlay<F>| after_insert(o, at, n);
        proof {
            lemma_max_end(all);
        }
        if n == 0 || self.overlays.len() == 0 || at >= self.furthest_end {
            // Nothing reaches past `at`, or nothing moves.
            proof {
                assert(all.map_values(f) =~= all) by {
                    assert forall|i: int| 0 <= i < all.len() implies all.map_values(f)[i] == all[i] by {
                        assert(all[i].end <= max_end(all));
                    }
                }
            }
            return;
        }
        let mut pending: Vec<Overlay<F>> = Vec::new();
        std::mem::swap(&mut pending, &mut self.overlays);
        proof {
            assert(pending@ == all);
        }
        for o in it: pending.into_iter()
            invariant
                it.seq() == all,
                all == old(self)@,
                self.next_id == old(self).next_id(),
                self.furthest_end == max_end(all),
                max_end(all) + n <= usize::MAX,
                forall|i: int| 0 <= i < all.len() ==> (#[trigger] all[i]).end <= max_end(all) && all[i].start < all[i].end,
                f == (|o: Overlay<F>| after_insert(o, at, n)),
                self.overlays@ == all.take(it.index()).map_values(f),
        {
            proof {
                let k = it.index();
                assert(all[k].end <= max_end(all));
                assert(all.take(k + 1).map_values(f) =~= all.take(k).map_values(f).push(f(all[k])));
            }
            let mut moved = o;
            if at <= moved.start {
                moved.start = moved.start + n;
            }
            if at < moved.end {
                moved.end = moved.end + n;
            }
            self.overlays.push(moved);
        }
        proof {
            assert(all.take(all.len() as int) =~= all);
            lemma_max_end_insert(all, at, n);
            let m = all.map_values(f);
            assert forall|i: int, j: int| 0 <= i < j < m.len() implies (#[trigger] m[i]).start
                <= (#[trigger] m[j]).start && m[i].id != m[j].id by {
                assert(all[i].start <= all[j].start);
            }
            assert forall|i: int| 0 <= i < m.len() implies nonempty(#[trigger] m[i]) && m[i].id
                < self.next_id by {
                assert(nonempty(all[i]));
            }
        }
        self.furthest_end = self.furthest_end + n;
    }

    /// Move the overlays for the deletion of `[from, to)`.
    ///
    /// Each endpoint maps through the same function -- before the deletion it
    /// stands, after it it moves back, inside it it collapses to where the
    /// deletion began -- and an overlay left covering nothing is removed.
    /// Undoing that deletion does not bring the overlay back: whatever made it
    /// will make it again if it still matters.
    pub fn adjust_for_delete(&mut self, from: usize, to: usize)
        requires
            old(self).inv(),
        ensures
            final(self).inv(),
            in_table_order(final(self)@),
            from < to ==> final(self)@.to_multiset() == old(self)@.map_values(
                |o: Overlay<F>| after_delete(o, from, to),
            ).filter(|o: Overlay<F>| nonempty(o)).to_multiset(),
            from >= to ==> final(self)@ == old(self)@,
            final(self).next_id() == old(self).next_id(),
    {
        let ghost all = self@;
        let ghost f = |o: Overlay<F>| after_delete(o, from, to);
        let ghost p = |o: Overlay<F>| nonempty(o);
        if from >= to {
            return;
        }
        proof {
            lemma_max_end(all);
        }
        if self.overlays.len() == 0 || from >= self.furthest_end {
            // Nothing reaches into the deletion: every overlay stays put.
            proof {
                assert(all.map_values(f) =~= all) by {
                    assert forall|i: int| 0 <= i < all.len() implies all.map_values(f)[i] == all[i] by {
                        assert(all[i].end <= max_end(all));
                    }
                }
                lemma_filter_all(all, p);
            }
            return;
        }
        let mut pending: Vec<Overlay<F>> = Vec::new();
        std::mem::swap(&mut pending, &mut self.overlays);
        proof {
            assert(pending@ == all);
        }
        let shift = to - from;
        for o in it: pending.into_iter()
            invariant
                it.seq() == all,
                all == old(self)@,
                from < to,
                shift == to - from,
                self.next_id == old(self).next_id(),
                f == (|o: Overlay<F>| after_delete(o, from, to)),
                p == (|o: Overlay<F>| nonempty(o)),
                self.overlays@ == all.take(it.index()).map_values(f).filter(p),
        {
            proof {
                reveal(Seq::filter);
                let k = it.index();
                assert(all.take(k + 1).map_values(f) =~= all.take(k).map_values(f).push(f(all[k])));
                assert(all.take(k + 1).map_values(f).drop_last() =~= all.take(k).map_values(f));
            }
            let mut moved = o;
            moved.start = if moved.start <= from {
                moved.start
            } else if moved.start >= to {
                moved.start - shift
            } else {
                from
            };
            moved.end = if moved.end <= from {
                moved.end
            } else if moved.end >= to {
                moved.end - shift
            } else {
                from
            };
            if moved.start < moved.end {
                self.overlays.push(moved);
            }
        }
        proof {
            assert(all.take(all.len() as int) =~= all);
            let m = all.map_values(f);
            let rel = |a: Overlay<F>, b: Overlay<F>| a.id != b.id;
            let unary = |a: Overlay<F>| a.id < self.next_id;
            assert forall|i: int, j: int| 0 <= i < j < m.len() implies #[trigger] rel(m[i], m[j]) by {
                assert(precedes(all[i], all[j]));
            }
            lemma_filter_pairwise(m, p, rel, unary);
            let kept = m.filter(p);
            assert forall|i: int, j: int| 0 <= i < j < kept.len() implies (#[trigger] kept[i]).id
                != (#[trigger] kept[j]).id by {
                assert(rel(kept[i], kept[j]));
            }
        }
        let ghost kept = self@;
        // A deletion can bring overlays that started apart to start at the
        // same place, where the deletion began; among those the order by id
        // is restored.
        sort_table(&mut self.overlays);
        proof {
            let unary = |a: Overlay<F>| a.id < self.next_id;
            lemma_filter_pairwise(all.map_values(f), p, |a: Overlay<F>, b: Overlay<F>| true, unary);
            assert forall|i: int| 0 <= i < self@.len() implies nonempty(#[trigger] self@[i])
                && self@[i].id < self.next_id by {
                let q = choose|q: int| 0 <= q < kept.len() && kept[q] == self@[i];
                assert(unary(kept[q]) && p(kept[q]));
            }
            assert forall|i: int, j: int| 0 <= i < j < self@.len() implies (#[trigger] self@[i]).start
                <= (#[trigger] self@[j]).start by {
                assert(precedes(self@[i], self@[j]));
            }
        }
        self.recompute_furthest_end();
    }
}

/// Whether `a` comes before `b` in a table.
fn precedes_exec<F>(a: &Overlay<F>, b: &Overlay<F>) -> (r: bool)
    ensures
        r == precedes(*a, *b),
{
    a.start < b.start || (a.start == b.start && a.id < b.id)
}

/// Moving the element at `i` back to `j` shifts those between up by one and
/// leaves the rest, and what the sequence holds, as they were.
proof fn lemma_move_back<F>(t: Seq<Overlay<F>>, i: int, j: int)
    requires
        0 <= j <= i < t.len(),
    ensures
        ({
            let u = t.remove(i).insert(j, t[i]);
            &&& u.len() == t.len()
            &&& forall|k: int| 0 <= k < j ==> u[k] == t[k]
            &&& u[j] == t[i]
            &&& forall|k: int| j < k <= i ==> u[k] == t[k - 1]
            &&& forall|k: int| i < k < t.len() ==> u[k] == t[k]
            &&& u.to_multiset() == t.to_multiset()
        }),
{
    broadcast use vstd::seq_lib::to_multiset_remove, vstd::seq_lib::to_multiset_insert;
    broadcast use vstd::multiset::group_multiset_axioms;

    let u = t.remove(i).insert(j, t[i]);
    assert(t.to_multiset().count(t[i]) > 0) by {
        broadcast use vstd::seq_lib::to_multiset_contains;

        assert(t.contains(t[i]));
    }
    assert(u.to_multiset() =~= t.to_multiset());
}

/// Put the overlays of `v` into table order, keeping every one of them.
fn sort_table<F>(v: &mut Vec<Overlay<F>>)
    requires
        distinct_ids(old(v)@),
    ensures
        final(v)@.len() == old(v)@.len(),
        final(v)@.to_multiset() == old(v)@.to_multiset(),
        in_table_order(final(v)@),
        distinct_ids(final(v)@),
        forall|k: int| 0 <= k < final(v)@.len() ==> old(v)@.contains(#[trigger] final(v)@[k]),
{
    let ghost orig = v@;
    let mut i: usize = 0;
    while i < v.len()
        invariant
            i <= v@.len(),
            v@.len() == orig.len(),
            v@.to_multiset() == orig.to_multiset(),
            distinct_ids(v@),
            forall|k: int| 0 <= k < v@.len() ==> orig.contains(#[trigger] v@[k]),
            forall|a: int, b: int| 0 <= a < b < i ==> precedes(#[trigger] v@[a], #[trigger] v@[b]),
        decreases v@.len() - i,
    {
        let ghost t = v@;
        let mut j: usize = i;
        while j > 0 && precedes_exec(&v[i], &v[j - 1])
            invariant
                v@ == t,
                j <= i < t.len(),
                forall|k: int| j <= k < i ==> precedes(t[i as int], #[trigger] t[k]),
            decreases j,
        {
            j = j - 1;
        }
        let x = v.remove(i);
        v.insert(j, x);
        proof {
            lemma_move_back(t, i as int, j as int);
            let u = v@;
            assert(u == t.remove(i as int).insert(j as int, t[i as int]));
            if j > 0 {
                // What stops the scan comes before `x`, and so does all before it.
                assert(t[j - 1].id != t[i as int].id);
                assert(precedes(t[j - 1], t[i as int]));
                assert forall|k: int| 0 <= k < j implies precedes(#[trigger] t[k], t[i as int]) by {
                    if k < j - 1 {
                        assert(precedes(t[k], t[j - 1]));
                    }
                }
            }
            assert forall|a: int, b: int| 0 <= a < b < i + 1 implies precedes(#[trigger] u[a], #[trigger] u[b]) by {
                if b < j {
                    assert(precedes(t[a], t[b]));
                } else if b == j {
                    assert(precedes(t[a], t[i as int]));
                } else if a < j {
                    assert(precedes(t[a], t[b - 1]));
                } else if a == j {
                    assert(precedes(t[i as int], t[b - 1]));
                } else {
                    assert(precedes(t[a - 1], t[b - 1]));
                }
            }
            assert forall|a: int, b: int| 0 <= a < b < u.len() implies (#[trigger] u[a]).id != (#[trigger] u[b]).id by {
                let a0 = if a < j { a } else if a == j { i as int } else if a <= i { a - 1 } else { a };
                let b0 = if b < j { b } else if b == j { i as int } else if b <= i { b - 1 } else { b };
                assert(u[a] == t[a0] && u[b] == t[b0]);
                if a0 < b0 {
                    assert(t[a0].id != t[b0].id);
                } else {
                    assert(t[b0].id != t[a0].id);
                }
            }
            assert forall|k: int| 0 <= k < u.len() implies orig.contains(#[trigger] u[k]) by {
                let k0 = if k < j { k } else if k == j { i as int } else if k <= i { k - 1 } else { k };
                assert(u[k] == t[k0]);
            }
        }
        i = i + 1;
    }
}

/// A filter that everything passes keeps everything.
proof fn lemma_filter_all<F>(s: Seq<Overlay<F>>, p: spec_fn(Overlay<F>) -> bool)
    requires
        forall|i: int| 0 <= i < s.len() ==> #[trigger] p(s[i]),
    ensures
        s.filter(p) == s,
    decreases s.len(),
{
    reveal(Seq::filter);
    if s.len() > 0 {
        let d = s.drop_last();
        assert forall|i: int| 0 <= i < d.len() implies #[trigger] p(d[i]) by {
            assert(d[i] == s[i]);
        }
        lemma_filter_all(d, p);
        assert(p(s[s.len() - 1]));
        assert(d.push(s.last()) =~= s);
    } else {
        assert(s.filter(p) =~= s);
    }
}

impl<F> Default for OverlayTable<F> {
    fn default() -> (r: Self)
        ensures
            r.inv(),
            r@ == Seq::<Overlay<F>>::empty(),
            r.next_id() == 0,
    {
        OverlayTable::new()
    }
}


/// Text typed at either edge of an overlay, or anywhere outside it, leaves it
/// over exactly the characters it covered before.
pub proof fn lemma_insert_keeps_covered_text(
    s: Seq<char>,
    content: Seq<char>,
    at: usize,
    start: usize,
    end: usize,
)
    requires
        start < end <= s.len(),
        at <= s.len(),
        end + content.len() <= usize::MAX,
        at <= start || at >= end,
    ensures
        ({
            let t = s.take(at as int) + content + s.skip(at as int);
            let n = content.len() as usize;
            t.subrange(moved_start(start, at, n) as int, moved_end(end, at, n) as int) == s.subrange(
                start as int,
                end as int,
            )
        }),
{
    let t = s.take(at as int) + content + s.skip(at as int);
    let n = content.len() as usize;
    if at <= start {
        assert(moved_start(start, at, n) == start + n);
        assert(moved_end(end, at, n) == end + n);
        let a = t.subrange(start + n, end + n);
        let b = s.subrange(start as int, end as int);
        assert forall|i: int| 0 <= i < b.len() implies #[trigger] a[i] == b[i] by {
            assert(t[start + n + i] == s.skip(at as int)[start + i - at]);
        }
        assert(a =~= b);
    } else {
        assert(t.subrange(start as int, end as int) =~= s.subrange(start as int, end as int));
    }
}

/// A deletion that does not reach into an overlay leaves it over exactly the
/// characters it covered before.
pub proof fn lemma_delete_keeps_covered_text(
    s: Seq<char>,
    from: usize,
    to: usize,
    start: usize,
    end: usize,
)
    requires
        from < to <= s.len(),
        start <= end <= s.len(),
        to <= start || from >= end,
    ensures
        ({
            let t = s.take(from as int) + s.skip(to as int);
            t.subrange(moved_by_delete(start, from, to) as int, moved_by_delete(end, from, to) as int)
                == s.subrange(start as int, end as int)
        }),
{
    let t = s.take(from as int) + s.skip(to as int);
    assert(t.subrange(moved_by_delete(start, from, to) as int, moved_by_delete(end, from, to) as int)
        =~= s.subrange(start as int, end as int));
}

} // verus!
