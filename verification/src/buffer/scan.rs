//! What a buffer remembers about reading its own text as balanced
//! expressions.
//!
//! # Why checkpoints rather than a state per line
//!
//! A scan state carries the *positions* of the lists it is inside, so two
//! lines at the same depth still differ and interning would dedupe nothing.
//! So this keeps one snapshot every [`LINES_PER_CHECKPOINT`] lines: the cost of
//! an answer is bounded by the distance from a checkpoint rather than by the
//! distance from the top of the file.
//!
//! # Why an edit does not throw it all away
//!
//! An edit on line L cannot change the text above L, so every checkpoint that
//! describes entering a line at or before L still describes it exactly.
//! `invalidate_from` keeps those and drops the rest.
//!
//! The snapshot type `R` is the scanner's own: this cache only stores them and
//! answers which one applies.
use vstd::prelude::*;
use crate::string_ops::same_text;

verus! {

/// How many lines apart the snapshots are: a query resuming from the nearest
/// checkpoint scans at most this many lines to reach its position.
pub const LINES_PER_CHECKPOINT: usize = 64;

/// The most checkpoints a cache can index: the line each enters must fit a
/// `usize`.
pub open spec fn max_checkpoints() -> nat {
    (usize::MAX / 64) as nat
}

/// The line the checkpoint at `index` enters.
pub open spec fn spec_checkpoint_line(index: nat) -> nat {
    (index + 1) * 64
}

/// The line a checkpoint enters, by index.
///
/// Index 0 is line [`LINES_PER_CHECKPOINT`], not line 0: the state entering
/// line 0 is the base state, which needs no remembering.
pub fn checkpoint_line(index: usize) -> (r: usize)
    requires
        index < max_checkpoints(),
    ensures
        r == spec_checkpoint_line(index as nat),
{
    (index + 1) * LINES_PER_CHECKPOINT
}

/// A buffer's scan checkpoints, as far as they have been computed.
#[derive(Clone, Debug)]
pub struct ScanCache<R> {
    /// The buffer version these were computed from.
    version: u64,
    /// The major mode they were computed under: a checkpoint taken with one
    /// table is not a shortcut under another, and changing a buffer's mode
    /// does not touch its text, so nothing else here would notice.
    mode: String,
    /// `points[i]` enters line `checkpoint_line(i)`.
    points: Vec<R>,
    /// How many of `points` describe the current version of the text.
    valid: usize,
}

impl<R> ScanCache<R> {
    pub closed spec fn spec_version(&self) -> u64 {
        self.version
    }

    pub closed spec fn spec_mode(&self) -> Seq<char> {
        self.mode@
    }

    /// The checkpoints that describe the current text, in order.
    pub closed spec fn valid_points(&self) -> Seq<R> {
        self.points@.take(self.valid as int)
    }

    pub closed spec fn inv(&self) -> bool {
        &&& self.valid <= self.points@.len()
        &&& self.valid <= max_checkpoints()
    }

    pub fn new() -> (r: Self)
        ensures
            r.inv(),
            r.spec_version() == 0,
            r.spec_mode() == Seq::<char>::empty(),
            r.valid_points() == Seq::<R>::empty(),
    {
        let r = ScanCache { version: 0, mode: String::new(), points: Vec::new(), valid: 0 };
        proof {
            assert(r.valid_points() =~= Seq::<R>::empty());
        }
        r
    }

    pub fn version(&self) -> (r: u64)
        ensures
            r == self.spec_version(),
    {
        self.version
    }

    /// How many checkpoints currently describe the text.
    pub fn checkpoints(&self) -> (r: usize)
        requires
            self.inv(),
        ensures
            r == self.valid_points().len(),
    {
        self.valid
    }

    /// How far down the buffer the checkpoints reach.
    pub fn valid_to(&self) -> (r: usize)
        requires
            self.inv(),
        ensures
            r == (if self.valid_points().len() == 0 {
                0
            } else {
                spec_checkpoint_line((self.valid_points().len() - 1) as nat)
            }),
    {
        match self.valid.checked_sub(1) {
            None => 0,
            Some(last) => checkpoint_line(last),
        }
    }

    /// Forget everything: another version entirely, or another mode.
    pub fn reset(&mut self, version: u64, mode: &str)
        requires
            old(self).inv(),
        ensures
            final(self).inv(),
            final(self).spec_version() == version,
            final(self).spec_mode() == mode@,
            final(self).valid_points() == Seq::<R>::empty(),
    {
        self.version = version;
        self.mode = mode.to_owned();
        self.points.clear();
        self.valid = 0;
        proof {
            assert(self.valid_points() =~= Seq::<R>::empty());
        }
    }

    /// An edit landed on LINE: keep the checkpoints above it, drop the rest.
    ///
    /// "Above it" includes a checkpoint entering LINE itself. It was computed
    /// from the text strictly before that line, and an edit *on* the line did
    /// not touch any of it.
    pub fn invalidate_from(&mut self, version: u64, line: usize)
        requires
            old(self).inv(),
        ensures
            final(self).inv(),
            final(self).spec_version() == version,
            final(self).spec_mode() == old(self).spec_mode(),
            final(self).valid_points() == old(self).valid_points().take(
                if old(self).valid_points().len() <= line / 64 {
                    old(self).valid_points().len() as int
                } else {
                    (line / 64) as int
                },
            ),
            forall|i: int|
                0 <= i < final(self).valid_points().len() ==> #[trigger] spec_checkpoint_line(i as nat) <= line,
    {
        self.version = version;
        // Keep every `i` with `checkpoint_line(i) <= line`, which is
        // `(i + 1) * N <= line`, which is `i < line / N`.
        let keep = line / LINES_PER_CHECKPOINT;
        if keep < self.valid {
            self.valid = keep;
        }
        let ghost before = self.points@;
        self.points.truncate(self.valid);
        proof {
            assert(self.valid_points() =~= old(self).valid_points().take(self.valid as int));
            assert forall|i: int| 0 <= i < self.valid implies #[trigger] spec_checkpoint_line(i as nat) <= line by {
                assert((i + 1) * 64 <= (line / 64) * 64) by (nonlinear_arith)
                    requires
                        i < line / 64,
                ;
                assert((line / 64) * 64 <= line) by (nonlinear_arith);
            }
        }
    }

    /// Record the checkpoint at INDEX.
    ///
    /// Only the next one is accepted. Each is computed by carrying on from the
    /// one before it, so a checkpoint written out of order would be a state
    /// reached from somewhere nobody can name.
    ///
    /// Precondition: the cache has room for one more checkpoint, a limit of
    /// the machine's address space.
    pub fn record(&mut self, index: usize, resume: R) -> (r: Result<(), ()>)
        requires
            old(self).inv(),
            old(self).valid_points().len() < max_checkpoints(),
        ensures
            final(self).inv(),
            final(self).spec_version() == old(self).spec_version(),
            final(self).spec_mode() == old(self).spec_mode(),
            r is Ok <==> index == old(self).valid_points().len(),
            r is Ok ==> final(self).valid_points() == old(self).valid_points().push(resume),
            r is Err ==> final(self).valid_points() == old(self).valid_points(),
    {
        if index != self.valid {
            return Err(());
        }
        let ghost before = self.valid_points();
        if self.points.len() <= index {
            self.points.push(resume);
        } else {
            self.points.set(index, resume);
        }
        self.valid = index + 1;
        proof {
            assert(self.valid_points() =~= before.push(resume));
        }
        Ok(())
    }

    /// The checkpoint a scan that will be asked about LINE may carry on from,
    /// when the cache describes this exact text in this exact mode: the one
    /// entering the largest multiple of the interval at or below LINE, no
    /// further down than what has been computed.
    ///
    /// The version and the mode are checked here rather than trusted from the
    /// caller because this is the one place a wrong answer could get in, and
    /// the cost of refusing is a full scan.
    pub fn resume_for(&self, mode: &str, version: u64, line: usize) -> (r: Option<&R>)
        requires
            self.inv(),
        ensures
            ({
                let n = self.valid_points().len();
                let index = if line / 64 <= n {
                    (line / 64) as int
                } else {
                    n as int
                };
                if version != self.spec_version() || mode@ != self.spec_mode() || index == 0 {
                    r is None
                } else {
                    r == Some(&self.valid_points()[index - 1])
                }
            }),
    {
        if version != self.version || !same_text(mode, self.mode.as_str()) {
            return None;
        }
        let by_line = line / LINES_PER_CHECKPOINT;
        let index = if by_line <= self.valid {
            by_line
        } else {
            self.valid
        };
        if index == 0 {
            None
        } else {
            Some(&self.points[index - 1])
        }
    }

    /// The major mode these were computed under.
    pub fn mode(&self) -> (r: &str)
        ensures
            r@ == self.spec_mode(),
    {
        self.mode.as_str()
    }

    /// What the next turn of the worker should carry on from: the index to
    /// compute, and the snapshot to start it from.
    ///
    /// Starts over when the cache describes another version or another mode,
    /// rather than reporting a frontier reached under a table that is no
    /// longer in force.
    pub fn frontier_for(&self, mode: &str, version: u64) -> (r: (usize, Option<&R>))
        requires
            self.inv(),
        ensures
            ({
                let n = self.valid_points().len();
                if version != self.spec_version() || mode@ != self.spec_mode() {
                    r.0 == 0 && r.1 is None
                } else {
                    &&& r.0 == n
                    &&& n == 0 ==> r.1 is None
                    &&& n > 0 ==> r.1 == Some(&self.valid_points()[n - 1])
                }
            }),
    {
        if version != self.version || !same_text(mode, self.mode.as_str()) {
            return (0, None);
        }
        let last = match self.valid.checked_sub(1) {
            Some(last) => Some(&self.points[last]),
            None => None,
        };
        (self.valid, last)
    }
}

impl<R> Default for ScanCache<R> {
    fn default() -> (r: Self)
        ensures
            r.inv(),
            r.spec_version() == 0,
            r.spec_mode() == Seq::<char>::empty(),
            r.valid_points() == Seq::<R>::empty(),
    {
        ScanCache::new()
    }
}

} // verus!
