//! The kill ring: what killed and copied text goes into, and what yank reads.
//!
//! A clipboard holds the last thing you cut. A ring holds the last several, so
//! that killing something does not destroy what you were about to paste. That
//! is why [`KillRing::rotate`] exists: after a yank, `yank-pop` walks back
//! through earlier kills in place.
//!
//! The ring lives on the editor, not the buffer, so killed text crosses from
//! one buffer to another.
use vstd::prelude::*;
use std::collections::VecDeque;

verus! {

/// How many entries the ring keeps before dropping the oldest.
pub const DEFAULT_KILL_RING_MAX: usize = 60;

/// Which end of the most recent entry a continued kill joins onto.
///
/// Repeated `C-k` should end up with one entry reading forwards, and repeated
/// backward kills with one entry reading backwards.
#[derive(Clone, Copy, Debug, PartialEq, Eq, Structural)]
pub enum Direction {
    Forward,
    Backward,
}

#[derive(Debug)]
pub struct KillRing {
    /// Most recent entry first.
    entries: VecDeque<String>,
    max: usize,
    /// How far back `yank` currently reads. Reset by every new kill, advanced
    /// by [`Self::rotate`].
    index: usize,
}

/// `s` with its oldest entries dropped until at most `max` remain.
pub open spec fn keep_newest(s: Seq<Seq<char>>, max: nat) -> Seq<Seq<char>> {
    if s.len() <= max {
        s
    } else {
        s.take(max as int)
    }
}

impl KillRing {
    /// The entries, most recent first.
    pub closed spec fn entries(&self) -> Seq<Seq<char>> {
        Seq::new(self.entries@.len(), |i: int| self.entries@[i]@)
    }

    /// How many entries are kept at most.
    pub closed spec fn max(&self) -> nat {
        self.max as nat
    }

    /// How far back yank reads.
    pub closed spec fn position(&self) -> nat {
        self.index as nat
    }

    pub closed spec fn inv(&self) -> bool {
        &&& self.entries@.len() <= self.max
        &&& (self.entries@.len() == 0 ==> self.index == 0)
        &&& (self.entries@.len() > 0 ==> self.index < self.entries@.len())
    }

    pub fn len(&self) -> (r: usize)
        ensures
            r == self.entries().len(),
    {
        self.entries.len()
    }

    pub fn set_max(&mut self, max: usize)
        requires
            old(self).inv(),
        ensures
            final(self).inv(),
            final(self).max() == max,
            final(self).entries() == keep_newest(old(self).entries(), max as nat),
            final(self).position() == (if old(self).position() < final(self).entries().len() {
                old(self).position()
            } else {
                0
            }),
    {
        self.max = max;
        self.trim();
    }

    /// Add TEXT as a new entry.
    ///
    /// Empty text is not worth a slot: killing nothing should not push the
    /// thing you wanted to yank one step further away.
    pub fn push(&mut self, text: String)
        requires
            old(self).inv(),
        ensures
            final(self).inv(),
            final(self).max() == old(self).max(),
            text@.len() == 0 ==> *final(self) == *old(self),
            text@.len() > 0 ==> final(self).entries() == keep_newest(
                seq![text@] + old(self).entries(),
                old(self).max(),
            ) && final(self).position() == 0,
    {
        if text.as_str().is_empty() {
            return ;
        }
        let ghost prev = self.entries();
        self.entries.push_front(text);
        self.index = 0;
        assert(self.entries() =~= seq![text@] + prev);
        self.trim();
    }

    /// Join TEXT onto the most recent entry, or start one if the ring is
    /// empty.
    ///
    /// This is what makes a run of `C-k` yank back as the whole passage
    /// instead of only its last line.
    pub fn append(&mut self, text: String, direction: Direction)
        requires
            old(self).inv(),
        ensures
            final(self).inv(),
            final(self).max() == old(self).max(),
            text@.len() == 0 ==> *final(self) == *old(self),
            text@.len() > 0 && old(self).entries().len() == 0 ==> final(self).entries()
                == keep_newest(seq![text@], old(self).max()) && final(self).position() == 0,
            text@.len() > 0 && old(self).entries().len() > 0 ==> final(self).entries()
                == old(self).entries().update(
                0,
                match direction {
                    Direction::Forward => old(self).entries()[0] + text@,
                    Direction::Backward => text@ + old(self).entries()[0],
                },
            ) && final(self).position() == 0,
    {
        if text.as_str().is_empty() {
            return ;
        }
        if self.entries.len() > 0 {
            let ghost prev = self.entries();
            let front = match self.entries.pop_front() {
                Some(front) => front,
                None => String::new(),
            };
            let joined = match direction {
                Direction::Forward => {
                    let mut joined = front;
                    joined.push_str(text.as_str());
                    joined
                },
                Direction::Backward => {
                    let mut joined = text;
                    joined.push_str(front.as_str());
                    joined
                },
            };
            self.entries.push_front(joined);
            self.index = 0;
            assert(self.entries() =~= prev.update(
                0,
                match direction {
                    Direction::Forward => prev[0] + text@,
                    Direction::Backward => text@ + prev[0],
                },
            ));
        } else {
            self.push(text);
        }
    }

    /// What `yank` would insert, or `None` when nothing has been killed.
    pub fn current(&self) -> (r: Option<&str>)
        requires
            self.inv(),
        ensures
            self.entries().len() == 0 ==> r is None,
            self.entries().len() > 0 ==> (r matches Some(t) && t@ == self.entries()[self.position() as int]),
    {
        if self.index < self.entries.len() {
            Some(self.entries[self.index].as_str())
        } else {
            None
        }
    }

    /// Step one entry further back and return it -- what `yank-pop` inserts.
    ///
    /// Wraps around, so walking far enough returns to the most recent kill
    /// rather than running out.
    pub fn rotate(&mut self) -> (r: Option<&str>)
        requires
            old(self).inv(),
        ensures
            final(self).inv(),
            final(self).entries() == old(self).entries(),
            final(self).max() == old(self).max(),
            old(self).entries().len() == 0 ==> r is None && final(self).position() == 0,
            old(self).entries().len() > 0 ==> final(self).position() == (old(self).position() + 1)
                % old(self).entries().len(),
            old(self).entries().len() > 0 ==> (r matches Some(t) && t@ == final(self).entries()[final(self).position() as int]),
    {
        if self.entries.len() == 0 {
            return None;
        }
        self.index = (self.index + 1) % self.entries.len();
        self.current()
    }

    /// The entry N steps back from the most recent, without moving the ring.
    pub fn nth(&self, n: usize) -> (r: Option<&str>)
        ensures
            n < self.entries().len() ==> (r matches Some(t) && t@ == self.entries()[n as int]),
            n >= self.entries().len() ==> r is None,
    {
        if n < self.entries.len() {
            Some(self.entries[n].as_str())
        } else {
            None
        }
    }

    fn trim(&mut self)
        requires
            (old(self).entries@.len() > 0 ==> old(self).index < old(self).entries@.len()) || old(self).index == 0,
        ensures
            final(self).inv(),
            final(self).max == old(self).max,
            final(self).entries() == keep_newest(old(self).entries(), old(self).max as nat),
            final(self).position() == (if old(self).position() < final(self).entries().len() {
                old(self).position()
            } else {
                0
            }),
    {
        let ghost prev = self.entries();
        while self.entries.len() > self.max
            invariant
                self.max == old(self).max,
                self.index == old(self).index,
                prev == old(self).entries(),
                self.entries().len() >= self.max || self.entries().len() == prev.len(),
                self.entries() == prev.take(self.entries().len() as int),
                self.entries().len() <= prev.len(),
            decreases self.entries@.len(),
        {
            let ghost before = self.entries();
            self.entries.pop_back();
            assert(self.entries() =~= prev.take(self.entries().len() as int));
        }
        proof {
            if prev.len() <= self.max {
                assert(self.entries() =~= prev);
            }
        }
        // Dropping entries can leave the read position past the end -- and a
        // ring that yanks nothing because it was trimmed would be a confusing
        // way to lose text.
        if self.index >= self.entries.len() {
            self.index = 0;
        }
    }
}

impl Default for KillRing {
    fn default() -> (r: Self)
        ensures
            r.inv(),
            r.entries() == Seq::<Seq<char>>::empty(),
            r.max() == DEFAULT_KILL_RING_MAX,
            r.position() == 0,
    {
        let r = Self { entries: VecDeque::new(), max: DEFAULT_KILL_RING_MAX, index: 0 };
        assert(r.entries() =~= Seq::<Seq<char>>::empty());
        r
    }
}


/// Where `yank` reads after `k` steps of `yank-pop` from `start`, in a ring
/// of `n` entries.
pub open spec fn rotated(start: nat, k: nat, n: nat) -> nat
    decreases k,
{
    if k == 0 {
        start
    } else {
        (rotated(start, (k - 1) as nat, n) + 1) % n
    }
}

/// Rotating wraps around: after as many steps as the ring has entries, yank
/// reads where it started, so walking far enough returns to the most recent
/// kill rather than running out.
pub proof fn lemma_rotation_wraps(start: nat, n: nat)
    requires
        start < n,
    ensures
        rotated(start, n, n) == start,
{
    assert forall|k: nat| k <= n implies #[trigger] rotated(start, k, n) == (start + k) % n by {
        lemma_rotated_is_sum(start, k, n);
    }
    assert((start + n) % n == start) by (nonlinear_arith)
        requires
            start < n,
    ;
}

/// `k` steps of `yank-pop` from `start` read the entry `k` further on, round
/// the ring: after a kill, when yank reads the most recent entry, the `k`-th
/// step reads entry `k` modulo the ring's length.
pub proof fn lemma_rotated_is_sum(start: nat, k: nat, n: nat)
    requires
        start < n,
    ensures
        rotated(start, k, n) == (start + k) % n,
    decreases k,
{
    if k > 0 {
        lemma_rotated_is_sum(start, (k - 1) as nat, n);
        let a: nat = (start + k - 1) as nat;
        assert(((a % n) + 1) % n == (a + 1) % n) by (nonlinear_arith)
            requires
                n > 0,
        ;
        assert(a + 1 == start + k);
    } else {
        vstd::arithmetic::div_mod::lemma_small_mod(start, n);
    }
}

/// Killing text and then yanking gives the text back: a new entry is the one
/// `yank` reads, however full the ring was.
pub proof fn lemma_push_then_yank(entries: Seq<Seq<char>>, text: Seq<char>, max: nat)
    requires
        max > 0,
    ensures
        keep_newest(seq![text] + entries, max)[0] == text,
{
}
} // verus!
