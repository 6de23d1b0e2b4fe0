//! What a buffer remembers about its own colouring.
//!
//! Per line, two things: the spans to draw, and the lexer state *entering*
//! that line. The states are what make the scheme work -- colouring line 5000
//! needs only the state at line 5000, and re-lexing can start anywhere a state
//! is known rather than at the top of the file.
//!
//! # Stale colour is drawn, not cleared
//!
//! An edit marks everything below it untrusted, but the spans stay and keep
//! being drawn until the worker replaces them. Clearing instead would flash
//! the rest of the file to plain text on every keystroke.
//!
//! The span type `S` and the lexer state `T` are the highlighter's own; this
//! cache stores them and interns the states.
use vstd::prelude::*;
use vstd::pervasive::cloned;
use vstd::std_specs::cmp::PartialEqSpec;

verus! {

/// How many lines one turn of the worker colours before yielding, so that a
/// huge file costs many short turns rather than one long one.
pub const LINES_PER_TURN: usize = 500;

/// A buffer's colouring, as far as it has been computed.
#[derive(Clone, Debug)]
pub struct SyntaxCache<S, T> {
    /// The buffer version this was computed from. A result arriving for any
    /// other version describes text that no longer exists.
    version: u64,
    /// Interned lexer state entering each computed line.
    states: Vec<u32>,
    /// Spans for each computed line, in character columns.
    spans: Vec<Vec<S>>,
    /// Lines below this have been computed against the current version.
    valid_to: usize,
    /// The distinct states seen so far: almost every line is entered in the
    /// empty state, and storing it per line would make the cache proportional
    /// to the file rather than to the parts of it that are interesting.
    table: Vec<T>,
}

impl<S, T> SyntaxCache<S, T> {
    pub closed spec fn spec_version(&self) -> u64 {
        self.version
    }

    pub closed spec fn spec_valid_to(&self) -> nat {
        self.valid_to as nat
    }

    /// The spans of each line computed so far, current or not.
    pub closed spec fn line_spans(&self) -> Seq<Seq<S>> {
        self.spans@.map_values(|v: Vec<S>| v@)
    }

    /// The interned state id of each line computed so far.
    pub closed spec fn state_ids(&self) -> Seq<u32> {
        self.states@
    }

    /// The distinct states seen so far.
    pub closed spec fn states_table(&self) -> Seq<T> {
        self.table@
    }

    pub closed spec fn inv(&self) -> bool {
        &&& self.states@.len() == self.spans@.len()
        &&& self.valid_to <= self.states@.len()
        &&& forall|i: int| 0 <= i < self.states@.len() ==> (#[trigger] self.states@[i]) < self.table@.len()
    }

    pub fn new() -> (r: Self)
        ensures
            r.inv(),
            r.spec_version() == 0,
            r.spec_valid_to() == 0,
            r.line_spans() == Seq::<Seq<S>>::empty(),
            r.state_ids() == Seq::<u32>::empty(),
            r.states_table() == Seq::<T>::empty(),
    {
        let r = SyntaxCache { version: 0, states: Vec::new(), spans: Vec::new(), valid_to: 0, table: Vec::new() };
        proof {
            assert(r.line_spans() =~= Seq::<Seq<S>>::empty());
        }
        r
    }

    /// The spans for LINE, or nothing if it has never been computed.
    ///
    /// Deliberately indifferent to whether the line is still *valid*: what has
    /// been computed is drawn until something better arrives.
    pub fn spans(&self, line: usize) -> (r: &[S])
        ensures
            r@ == (if line < self.line_spans().len() {
                self.line_spans()[line as int]
            } else {
                Seq::<S>::empty()
            }),
    {
        if line < self.spans.len() {
            self.spans[line].as_slice()
        } else {
            &[]
        }
    }

    /// How far the colouring is known to be current.
    pub fn valid_to(&self) -> (r: usize)
        ensures
            r == self.spec_valid_to(),
    {
        self.valid_to
    }

    pub fn version(&self) -> (r: u64)
        ensures
            r == self.spec_version(),
    {
        self.version
    }

    /// The state entering LINE, when it is known.
    pub fn state_at(&self, line: usize) -> (r: Option<T>) where T: Clone
        requires
            self.inv(),
        ensures
            line >= self.state_ids().len() ==> r is None,
            line < self.state_ids().len() ==> (r matches Some(s) && cloned(
                self.states_table()[self.state_ids()[line as int] as int],
                s,
            )),
    {
        if line >= self.states.len() {
            return None;
        }
        let id = self.states[line];
        Some(self.table[id as usize].clone())
    }

    /// Forget everything: a different buffer version entirely, or a mode
    /// change that means the old colouring describes the wrong grammar.
    pub fn reset(&mut self, version: u64)
        ensures
            final(self).inv(),
            final(self).spec_version() == version,
            final(self).spec_valid_to() == 0,
            final(self).line_spans() == Seq::<Seq<S>>::empty(),
            final(self).state_ids() == Seq::<u32>::empty(),
            final(self).states_table() == Seq::<T>::empty(),
    {
        self.version = version;
        self.states.clear();
        self.spans.clear();
        self.table.clear();
        self.valid_to = 0;
        proof {
            assert(self.line_spans() =~= Seq::<Seq<S>>::empty());
        }
    }

    /// An edit landed on LINE: nothing from there on is trusted any more.
    ///
    /// The spans are *kept*: wrong for a few milliseconds beats blank, and the
    /// worker is already on its way.
    pub fn invalidate_from(&mut self, version: u64, line: usize)
        requires
            old(self).inv(),
        ensures
            final(self).inv(),
            final(self).spec_version() == version,
            final(self).spec_valid_to() == (if old(self).spec_valid_to() <= line {
                old(self).spec_valid_to()
            } else {
                line as nat
            }),
            final(self).line_spans() == old(self).line_spans(),
            final(self).state_ids() == old(self).state_ids(),
            final(self).states_table() == old(self).states_table(),
    {
        self.version = version;
        if line < self.valid_to {
            self.valid_to = line;
        }
    }

    /// Drop everything past LINE_COUNT, for a buffer that got shorter.
    pub fn truncate(&mut self, line_count: usize)
        requires
            old(self).inv(),
        ensures
            final(self).inv(),
            final(self).spec_version() == old(self).spec_version(),
            final(self).spec_valid_to() == (if old(self).spec_valid_to() <= line_count {
                old(self).spec_valid_to()
            } else {
                line_count as nat
            }),
            final(self).line_spans() == (if line_count <= old(self).line_spans().len() {
                old(self).line_spans().take(line_count as int)
            } else {
                old(self).line_spans()
            }),
            final(self).state_ids() == (if line_count <= old(self).state_ids().len() {
                old(self).state_ids().take(line_count as int)
            } else {
                old(self).state_ids()
            }),
            final(self).states_table() == old(self).states_table(),
    {
        self.states.truncate(line_count);
        self.spans.truncate(line_count);
        if line_count < self.valid_to {
            self.valid_to = line_count;
        }
        proof {
            if line_count <= old(self).line_spans().len() {
                assert(self.line_spans() =~= old(self).line_spans().take(line_count as int));
            } else {
                assert(self.line_spans() =~= old(self).line_spans());
            }
        }
    }

    /// How many distinct states have been seen: for anyone wondering whether
    /// interning is earning its keep.
    pub fn distinct_states(&self) -> (r: usize)
        ensures
            r == self.states_table().len(),
    {
        self.table.len()
    }
}

impl<S, T: PartialEq + Clone> SyntaxCache<S, T> {
    /// The id of STATE in the table, adding it when it is new.
    fn intern(&mut self, state: &T) -> (r: u32)
        requires
            old(self).inv(),
            old(self).states_table().len() < u32::MAX,
        ensures
            final(self).inv(),
            final(self).spec_version() == old(self).spec_version(),
            final(self).spec_valid_to() == old(self).spec_valid_to(),
            final(self).line_spans() == old(self).line_spans(),
            final(self).state_ids() == old(self).state_ids(),
            r < final(self).states_table().len(),
            r <= old(self).states_table().len(),
            r < old(self).states_table().len() ==> final(self).states_table() == old(self).states_table(),
            r == old(self).states_table().len() ==> final(self).states_table().len() == r + 1
                && final(self).states_table().drop_last() == old(self).states_table()
                && cloned(*state, final(self).states_table().last()),
            T::obeys_eq_spec() ==> {
                &&& forall|j: int| 0 <= j < r && j < old(self).states_table().len() ==> !(#[trigger] old(self).states_table()[j]).eq_spec(state)
                &&& r < old(self).states_table().len() ==> old(self).states_table()[r as int].eq_spec(state)
            },
    {
        let mut i: usize = 0;
        while i < self.table.len()
            invariant
                i <= self.table@.len(),
                self.table@.len() < u32::MAX,
                *self == *old(self),
                self.inv(),
                T::obeys_eq_spec() ==> forall|j: int| 0 <= j < i ==> !(#[trigger] self.table@[j]).eq_spec(state),
            decreases self.table@.len() - i,
        {
            if self.table[i].eq(state) {
                return i as u32;
            }
            i = i + 1;
        }
        let ghost before = self.table@;
        self.table.push(state.clone());
        proof {
            assert(self.table@.drop_last() =~= before);
        }
        (self.table.len() - 1) as u32
    }

    /// Record the colouring of LINE, computed from the state entering it.
    ///
    /// Lines have to arrive in order -- each one's entering state is the
    /// previous one's exit -- so anything out of order is refused rather than
    /// written somewhere misleading.
    pub fn record(&mut self, line: usize, entering: &T, spans: Vec<S>) -> (r: Result<(), ()>)
        requires
            old(self).inv(),
            old(self).states_table().len() < u32::MAX,
            line < usize::MAX,
        ensures
            final(self).inv(),
            final(self).spec_version() == old(self).spec_version(),
            r is Ok <==> line == old(self).spec_valid_to(),
            r is Err ==> final(self).line_spans() == old(self).line_spans() && final(self).state_ids()
                == old(self).state_ids() && final(self).states_table() == old(self).states_table()
                && final(self).spec_valid_to() == old(self).spec_valid_to(),
            r is Ok ==> {
                &&& final(self).spec_valid_to() == line + 1
                &&& final(self).line_spans().len() == (if line < old(self).line_spans().len() {
                    old(self).line_spans().len() as int
                } else {
                    line + 1
                })
                &&& final(self).line_spans() == (if line < old(self).line_spans().len() {
                    old(self).line_spans()
                } else {
                    old(self).line_spans().push(spans@)
                }).update(line as int, spans@)
                &&& final(self).state_ids().len() == final(self).line_spans().len()
                &&& forall|i: int| 0 <= i < final(self).state_ids().len() && i != line ==> #[trigger] final(self).state_ids()[i] == old(self).state_ids()[i]
                &&& T::obeys_eq_spec() ==> final(self).states_table()[final(self).state_ids()[line as int] as int].eq_spec(entering)
                    || cloned(*entering, final(self).states_table()[final(self).state_ids()[line as int] as int])
                &&& final(self).states_table().len() >= old(self).states_table().len()
                &&& forall|i: int| 0 <= i < old(self).states_table().len() ==> #[trigger] final(self).states_table()[i] == old(self).states_table()[i]
            },
    {
        if line != self.valid_to {
            return Err(());
        }
        let ghost table_before = self.table@;
        let id = self.intern(entering);
        proof {
            if id < table_before.len() {
            } else {
                assert forall|i: int| 0 <= i < table_before.len() implies #[trigger] self.table@[i] == table_before[i] by {
                    assert(self.table@.drop_last()[i] == self.table@[i]);
                }
            }
        }
        let ghost spans_before = self.line_spans();
        if self.states.len() <= line {
            self.states.push(id);
            let ghost sv = spans@;
            self.spans.push(spans);
            proof {
                assert(self.line_spans() =~= spans_before.push(sv).update(line as int, sv));
            }
        } else {
            self.states.set(line, id);
            let ghost sv = spans@;
            self.spans.set(line, spans);
            proof {
                assert(self.line_spans() =~= spans_before.update(line as int, sv));
            }
        }
        self.valid_to = line + 1;
        Ok(())
    }
}

impl<S, T> Default for SyntaxCache<S, T> {
    fn default() -> (r: Self)
        ensures
            r.inv(),
            r.spec_version() == 0,
            r.spec_valid_to() == 0,
            r.line_spans() == Seq::<Seq<S>>::empty(),
            r.state_ids() == Seq::<u32>::empty(),
            r.states_table() == Seq::<T>::empty(),
    {
        SyntaxCache::new()
    }
}

} // verus!
