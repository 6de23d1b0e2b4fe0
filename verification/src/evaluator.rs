//! The evaluator of the editor's Lisp: the values a program computes with,
//! the environment that binds them, and evaluation itself.
//!
//! A Lisp-2 with dynamic scope: a symbol names a variable and, separately, a
//! function, and a function body sees the variables of whoever called it.
//!
//! The evaluator never looks inside a number, so the type of numbers is left
//! to whoever embeds it, as is the type that names its primitives. A
//! primitive is run by the embedder (see [`LispHost`]); what it answers is the
//! embedder's business, and everything here is stated for every answer it
//! could give.
use vstd::prelude::*;
use crate::string_ops::same_text;

verus! {

/// A value: what a program is made of, and what evaluating it gives back.
#[derive(Debug, PartialEq)]
pub enum LispExp<N, P> {
    List(Vec<LispExp<N, P>>),
    Vector(Vec<LispExp<N, P>>),
    Dict(Vec<(String, LispExp<N, P>)>),
    Number(N),
    Symbol(String),
    String(String),
    /// A function the embedder runs.
    Primitive(P),
}

/// A value as a mathematical object.
pub enum LispView<N, P> {
    List(Seq<LispView<N, P>>),
    Vector(Seq<LispView<N, P>>),
    Dict(Seq<(Seq<char>, LispView<N, P>)>),
    Number(N),
    Symbol(Seq<char>),
    String(Seq<char>),
    Primitive(P),
}

pub open spec fn exp_view<N, P>(e: LispExp<N, P>) -> LispView<N, P>
    decreases e,
{
    match e {
        LispExp::List(v) => LispView::List(items_view(v@)),
        LispExp::Vector(v) => LispView::Vector(items_view(v@)),
        LispExp::Dict(v) => LispView::Dict(entries_view(v@)),
        LispExp::Number(n) => LispView::Number(n),
        LispExp::Symbol(s) => LispView::Symbol(s@),
        LispExp::String(s) => LispView::String(s@),
        LispExp::Primitive(p) => LispView::Primitive(p),
    }
}

pub open spec fn items_view<N, P>(s: Seq<LispExp<N, P>>) -> Seq<LispView<N, P>>
    decreases s,
{
    if s.len() == 0 {
        Seq::empty()
    } else {
        items_view(s.drop_last()).push(exp_view(s.last()))
    }
}

pub open spec fn entries_view<N, P>(s: Seq<(String, LispExp<N, P>)>) -> Seq<(Seq<char>, LispView<N, P>)>
    decreases s,
{
    if s.len() == 0 {
        Seq::empty()
    } else {
        entries_view(s.drop_last()).push((s.last().0@, exp_view(s.last().1)))
    }
}

impl<N, P> View for LispExp<N, P> {
    type V = LispView<N, P>;

    open spec fn view(&self) -> LispView<N, P> {
        exp_view(*self)
    }
}

pub proof fn lemma_items_view<N, P>(s: Seq<LispExp<N, P>>)
    ensures
        items_view(s).len() == s.len(),
        forall|i: int| 0 <= i < s.len() ==> #[trigger] items_view(s)[i] == s[i]@,
    decreases s.len(),
{
    if s.len() > 0 {
        lemma_items_view(s.drop_last());
    }
}

pub proof fn lemma_entries_view<N, P>(s: Seq<(String, LispExp<N, P>)>)
    ensures
        entries_view(s).len() == s.len(),
        forall|i: int| 0 <= i < s.len() ==> #[trigger] entries_view(s)[i] == (s[i].0@, s[i].1@),
    decreases s.len(),
{
    if s.len() > 0 {
        lemma_entries_view(s.drop_last());
    }
}

/// A copy of a list of values, item by item.
fn copy_items<N: Copy, P: Copy>(v: &Vec<LispExp<N, P>>) -> (r: Vec<LispExp<N, P>>)
    ensures
        items_view(r@) == items_view(v@),
    decreases v@,
{
    let mut out: Vec<LispExp<N, P>> = Vec::new();
    let mut k: usize = 0;
    while k < v.len()
        invariant
            k <= v@.len(),
            items_view(out@) == items_view(v@.take(k as int)),
        decreases v@.len() - k,
    {
        let item = v[k].duplicate();
        let ghost before = out@;
        out.push(item);
        proof {
            assert(out@.drop_last() =~= before);
            assert(v@.take(k + 1).drop_last() =~= v@.take(k as int));
        }
        k = k + 1;
    }
    assert(v@.take(v@.len() as int) =~= v@);
    out
}

fn copy_entries<N: Copy, P: Copy>(v: &Vec<(String, LispExp<N, P>)>) -> (r: Vec<(String, LispExp<N, P>)>)
    ensures
        entries_view(r@) == entries_view(v@),
    decreases v@,
{
    let mut out: Vec<(String, LispExp<N, P>)> = Vec::new();
    let mut k: usize = 0;
    while k < v.len()
        invariant
            k <= v@.len(),
            entries_view(out@) == entries_view(v@.take(k as int)),
        decreases v@.len() - k,
    {
        let key = v[k].0.clone();
        let value = v[k].1.duplicate();
        let ghost before = out@;
        out.push((key, value));
        proof {
            assert(out@.drop_last() =~= before);
            assert(v@.take(k + 1).drop_last() =~= v@.take(k as int));
        }
        k = k + 1;
    }
    assert(v@.take(v@.len() as int) =~= v@);
    out
}

impl<N: Copy, P: Copy> LispExp<N, P> {
    /// A copy with the same value.
    pub fn duplicate(&self) -> (r: Self)
        ensures
            r@ == self@,
        decreases self,
    {
        match self {
            LispExp::List(v) => LispExp::List(copy_items(v)),
            LispExp::Vector(v) => LispExp::Vector(copy_items(v)),
            LispExp::Dict(v) => LispExp::Dict(copy_entries(v)),
            LispExp::Number(n) => LispExp::Number(*n),
            LispExp::Symbol(s) => LispExp::Symbol(s.clone()),
            LispExp::String(s) => LispExp::String(s.clone()),
            LispExp::Primitive(p) => LispExp::Primitive(*p),
        }
    }
}

/// Whether no name occurs twice.
pub open spec fn distinct_names<V>(s: Seq<(Seq<char>, V)>) -> bool {
    forall|i: int, j: int| 0 <= i < j < s.len() ==> #[trigger] s[i].0 != #[trigger] s[j].0
}

/// What a list of named entries binds each name to.
pub open spec fn table<V>(s: Seq<(Seq<char>, V)>) -> Map<Seq<char>, V> {
    Map::new(
        |k: Seq<char>| exists|i: int| 0 <= i < s.len() && #[trigger] s[i].0 == k,
        |k: Seq<char>| s[choose|i: int| 0 <= i < s.len() && #[trigger] s[i].0 == k].1,
    )
}

proof fn lemma_table_at<V>(s: Seq<(Seq<char>, V)>, i: int)
    requires
        distinct_names(s),
        0 <= i < s.len(),
    ensures
        table(s).contains_key(s[i].0),
        table(s)[s[i].0] == s[i].1,
{
    let k = s[i].0;
    assert(s[i].0 == k);
    let j = choose|j: int| 0 <= j < s.len() && #[trigger] s[j].0 == k;
    if j != i {
        assert(s[j].0 == s[i].0);
    }
}

proof fn lemma_table_update<V>(s: Seq<(Seq<char>, V)>, i: int, e: (Seq<char>, V))
    requires
        distinct_names(s),
        0 <= i < s.len(),
        s[i].0 == e.0,
    ensures
        distinct_names(s.update(i, e)),
        table(s.update(i, e)) =~= table(s).insert(e.0, e.1),
{
    let t = s.update(i, e);
    assert forall|a: int, b: int| 0 <= a < b < t.len() implies #[trigger] t[a].0 != #[trigger] t[b].0 by {
        assert(s[a].0 != s[b].0);
    }
    assert forall|k: Seq<char>| #[trigger] table(t).contains_key(k) implies table(s).insert(e.0, e.1).contains_key(k) by {
        let j = choose|j: int| 0 <= j < t.len() && #[trigger] t[j].0 == k;
        assert(s[j].0 == k);
    }
    assert forall|k: Seq<char>| #[trigger] table(s).insert(e.0, e.1).contains_key(k) implies table(t).contains_key(k) by {
        if k == e.0 {
            assert(t[i].0 == k);
        } else {
            let j = choose|j: int| 0 <= j < s.len() && #[trigger] s[j].0 == k;
            assert(t[j].0 == k);
        }
    }
    assert forall|k: Seq<char>| #[trigger] table(t).contains_key(k) implies table(t)[k] == table(s).insert(e.0, e.1)[k] by {
        let j = choose|j: int| 0 <= j < t.len() && #[trigger] t[j].0 == k;
        lemma_table_at(t, j);
        if k != e.0 {
            lemma_table_at(s, j);
        }
    }
}

proof fn lemma_table_push<V>(s: Seq<(Seq<char>, V)>, e: (Seq<char>, V))
    requires
        distinct_names(s),
        !table(s).contains_key(e.0),
    ensures
        distinct_names(s.push(e)),
        table(s.push(e)) =~= table(s).insert(e.0, e.1),
{
    let t = s.push(e);
    assert forall|a: int, b: int| 0 <= a < b < t.len() implies #[trigger] t[a].0 != #[trigger] t[b].0 by {
        if b == s.len() {
            if t[a].0 == e.0 {
                assert(s[a].0 == e.0);
            }
        } else {
            assert(s[a].0 != s[b].0);
        }
    }
    assert forall|k: Seq<char>| #[trigger] table(t).contains_key(k) implies table(s).insert(e.0, e.1).contains_key(k) by {
        let j = choose|j: int| 0 <= j < t.len() && #[trigger] t[j].0 == k;
        if j < s.len() {
            assert(s[j].0 == k);
        }
    }
    assert forall|k: Seq<char>| #[trigger] table(s).insert(e.0, e.1).contains_key(k) implies table(t).contains_key(k) by {
        if k == e.0 {
            assert(t[s.len() as int].0 == k);
        } else {
            let j = choose|j: int| 0 <= j < s.len() && #[trigger] s[j].0 == k;
            assert(t[j].0 == k);
        }
    }
    assert forall|k: Seq<char>| #[trigger] table(t).contains_key(k) implies table(t)[k] == table(s).insert(e.0, e.1)[k] by {
        let j = choose|j: int| 0 <= j < t.len() && #[trigger] t[j].0 == k;
        lemma_table_at(t, j);
        if j < s.len() {
            lemma_table_at(s, j);
        }
    }
}

/// Names bound to values, each name at most once.
pub struct Bindings<N, P> {
    entries: Vec<(String, LispExp<N, P>)>,
}

impl<N, P> View for Bindings<N, P> {
    type V = Map<Seq<char>, LispView<N, P>>;

    closed spec fn view(&self) -> Map<Seq<char>, LispView<N, P>> {
        table(entries_view(self.entries@))
    }
}

impl<N: Copy, P: Copy> Bindings<N, P> {
    pub closed spec fn inv(&self) -> bool {
        distinct_names(entries_view(self.entries@))
    }

    pub fn new() -> (r: Self)
        ensures
            r.inv(),
            r@ == Map::<Seq<char>, LispView<N, P>>::empty(),
    {
        let r = Bindings { entries: Vec::new() };
        assert(r@ =~= Map::<Seq<char>, LispView<N, P>>::empty());
        r
    }

    fn find(&self, name: &str) -> (r: Option<usize>)
        requires
            self.inv(),
        ensures
            r matches Some(i) ==> i < self.entries@.len() && self.entries@[i as int].0@ == name@,
            r is None ==> !self@.contains_key(name@),
    {
        proof {
            lemma_entries_view(self.entries@);
        }
        let mut i: usize = 0;
        while i < self.entries.len()
            invariant
                i <= self.entries@.len(),
                entries_view(self.entries@).len() == self.entries@.len(),
                forall|j: int| 0 <= j < self.entries@.len() ==> #[trigger] entries_view(self.entries@)[j]
                    == (self.entries@[j].0@, self.entries@[j].1@),
                forall|j: int| 0 <= j < i ==> #[trigger] self.entries@[j].0@ != name@,
            decreases self.entries@.len() - i,
        {
            if same_text(self.entries[i].0.as_str(), name) {
                return Some(i);
            }
            i = i + 1;
        }
        proof {
            if self@.contains_key(name@) {
                let s = entries_view(self.entries@);
                let j = choose|j: int| 0 <= j < s.len() && #[trigger] s[j].0 == name@;
                assert(self.entries@[j].0@ == name@);
            }
        }
        None
    }

    /// What NAME is bound to here, if anything.
    pub fn get(&self, name: &str) -> (r: Option<&LispExp<N, P>>)
        requires
            self.inv(),
        ensures
            r matches Some(v) ==> self@.contains_key(name@) && v@ == self@[name@],
            r is None ==> !self@.contains_key(name@),
    {
        match self.find(name) {
            Some(i) => {
                proof {
                    lemma_entries_view(self.entries@);
                    lemma_table_at(entries_view(self.entries@), i as int);
                }
                Some(&self.entries[i].1)
            },
            None => None,
        }
    }

    /// Bind NAME to VALUE, replacing what it was bound to.
    pub fn insert(&mut self, name: String, value: LispExp<N, P>)
        requires
            old(self).inv(),
        ensures
            final(self).inv(),
            final(self)@ == old(self)@.insert(name@, value@),
    {
        let ghost before = entries_view(self.entries@);
        let ghost entry = (name@, value@);
        proof {
            lemma_entries_view(self.entries@);
        }
        match self.find(name.as_str()) {
            Some(i) => {
                self.entries.set(i, (name, value));
                proof {
                    lemma_entries_view(self.entries@);
                    assert(entries_view(self.entries@) =~= before.update(i as int, entry));
                    lemma_table_update(before, i as int, entry);
                }
            },
            None => {
                self.entries.push((name, value));
                proof {
                    lemma_entries_view(self.entries@);
                    assert(entries_view(self.entries@) =~= before.push(entry));
                    lemma_table_push(before, entry);
                }
            },
        }
    }
}

/// One frame of the environment: its variables, and separately its
/// functions.
pub struct FrameView<N, P> {
    pub variables: Map<Seq<char>, LispView<N, P>>,
    pub functions: Map<Seq<char>, LispView<N, P>>,
}

/// A frame that binds nothing.
pub open spec fn empty_frame<N, P>() -> FrameView<N, P> {
    FrameView { variables: Map::empty(), functions: Map::empty() }
}

/// What NAME means in FRAMES, the innermost last: the variable, or with
/// FUNCTION the function, of the innermost frame that binds it.
pub open spec fn lookup<N, P>(frames: Seq<FrameView<N, P>>, name: Seq<char>, function: bool) -> Option<LispView<N, P>>
    decreases frames.len(),
{
    if frames.len() == 0 {
        None
    } else {
        let slot = if function {
            frames.last().functions
        } else {
            frames.last().variables
        };
        if slot.contains_key(name) {
            Some(slot[name])
        } else {
            lookup(frames.drop_last(), name, function)
        }
    }
}

/// The environment: the frame of the running call, and the frames of the
/// calls it was made from.
///
/// A variable or function is looked for in the running call's frame first
/// and then outwards, so a function body sees the variables of whoever
/// called it.
pub struct Env<N, P> {
    pub variables: Bindings<N, P>,
    pub functions: Bindings<N, P>,
    pub outer: Option<Box<Env<N, P>>>,
}

impl<N, P> Env<N, P> {
    /// This call's frame.
    pub open spec fn own_frame(&self) -> FrameView<N, P> {
        FrameView { variables: self.variables@, functions: self.functions@ }
    }

    /// Every frame, the outermost first.
    pub open spec fn frames(&self) -> Seq<FrameView<N, P>>
        decreases self,
    {
        match self.outer {
            Some(b) => b.frames().push(self.own_frame()),
            None => seq![self.own_frame()],
        }
    }
}

impl<N, P> View for Env<N, P> {
    type V = Seq<FrameView<N, P>>;

    open spec fn view(&self) -> Seq<FrameView<N, P>> {
        self.frames()
    }
}

impl<N: Copy, P: Copy> Env<N, P> {
    pub open spec fn wf(&self) -> bool
        decreases self,
    {
        &&& self.variables.inv()
        &&& self.functions.inv()
        &&& match self.outer {
            Some(b) => b.wf(),
            None => true,
        }
    }

    /// The environment of a program that has not bound anything.
    pub fn new() -> (r: Self)
        ensures
            r.wf(),
            r@ == seq![empty_frame::<N, P>()],
    {
        Env { variables: Bindings::new(), functions: Bindings::new(), outer: None }
    }

    /// A new, empty frame for a call made from CALLER.
    pub fn extend(caller: Env<N, P>) -> (r: Self)
        requires
            caller.wf(),
        ensures
            r.wf(),
            r@ == caller@.push(empty_frame::<N, P>()),
    {
        Env { variables: Bindings::new(), functions: Bindings::new(), outer: Some(Box::new(caller)) }
    }

    fn find(&self, name: &str, function: bool) -> (r: Option<&LispExp<N, P>>)
        requires
            self.wf(),
        ensures
            r matches Some(v) ==> lookup(self@, name@, function) == Some(v@),
            r is None ==> lookup(self@, name@, function) is None,
        decreases self,
    {
        proof {
            if self.outer is Some {
                assert(self@ == self.outer->0@.push(self.own_frame()));
            } else {
                assert(self@ == seq![self.own_frame()]);
            }
            assert(self@.last() == self.own_frame());
        }
        let own = if function {
            self.functions.get(name)
        } else {
            self.variables.get(name)
        };
        match own {
            Some(v) => Some(v),
            None => match &self.outer {
                Some(b) => {
                    assert(self@.drop_last() =~= b@);
                    b.find(name, function)
                },
                None => {
                    assert(self@.drop_last() =~= Seq::<FrameView<N, P>>::empty());
                    assert(lookup(Seq::<FrameView<N, P>>::empty(), name@, function) is None);
                    None
                },
            },
        }
    }

    /// The value of the variable NAME, looked for from this frame outwards.
    pub fn get_var(&self, name: &str) -> (r: Option<LispExp<N, P>>)
        requires
            self.wf(),
        ensures
            r matches Some(v) ==> lookup(self@, name@, false) == Some(v@),
            r is None ==> lookup(self@, name@, false) is None,
    {
        match self.find(name, false) {
            Some(v) => Some(v.duplicate()),
            None => None,
        }
    }

    /// The function NAME, looked for from this frame outwards.
    pub fn get_func(&self, name: &str) -> (r: Option<LispExp<N, P>>)
        requires
            self.wf(),
        ensures
            r matches Some(v) ==> lookup(self@, name@, true) == Some(v@),
            r is None ==> lookup(self@, name@, true) is None,
    {
        match self.find(name, true) {
            Some(v) => Some(v.duplicate()),
            None => None,
        }
    }
}

/// Why evaluation failed.
#[derive(Debug, PartialEq)]
pub enum EvalError {
    UnboundVariable(String),
    UndefinedFunction(String),
    UnvalidFunctionCall,
    UncorrectFunctionDefinition,
    WrongNumberOfArguments { expected: usize, got: usize },
    WrongArgumentType { expected: String, got: String },
    IfNoConditionProvided,
    IfNoTrueBrach,
    SetqSymbolRequired,
    SetqWrongNumberOfArgs(usize),
    DefunNameMustBeASymbol,
    DefunNotCorrectExpression,
    DefunParamsAreNotAList,
    DefunParamIsNotASymbol,
}

/// An evaluation error as a value.
pub enum ErrView {
    UnboundVariable(Seq<char>),
    UndefinedFunction(Seq<char>),
    UnvalidFunctionCall,
    UncorrectFunctionDefinition,
    WrongNumberOfArguments { expected: usize, got: usize },
    WrongArgumentType { expected: Seq<char>, got: Seq<char> },
    IfNoConditionProvided,
    IfNoTrueBrach,
    SetqSymbolRequired,
    SetqWrongNumberOfArgs(usize),
    DefunNameMustBeASymbol,
    DefunNotCorrectExpression,
    DefunParamsAreNotAList,
    DefunParamIsNotASymbol,
}

impl View for EvalError {
    type V = ErrView;

    open spec fn view(&self) -> ErrView {
        match *self {
            EvalError::UnboundVariable(s) => ErrView::UnboundVariable(s@),
            EvalError::UndefinedFunction(s) => ErrView::UndefinedFunction(s@),
            EvalError::UnvalidFunctionCall => ErrView::UnvalidFunctionCall,
            EvalError::UncorrectFunctionDefinition => ErrView::UncorrectFunctionDefinition,
            EvalError::WrongNumberOfArguments { expected, got } => ErrView::WrongNumberOfArguments {
                expected,
                got,
            },
            EvalError::WrongArgumentType { expected, got } => ErrView::WrongArgumentType {
                expected: expected@,
                got: got@,
            },
            EvalError::IfNoConditionProvided => ErrView::IfNoConditionProvided,
            EvalError::IfNoTrueBrach => ErrView::IfNoTrueBrach,
            EvalError::SetqSymbolRequired => ErrView::SetqSymbolRequired,
            EvalError::SetqWrongNumberOfArgs(n) => ErrView::SetqWrongNumberOfArgs(n),
            EvalError::DefunNameMustBeASymbol => ErrView::DefunNameMustBeASymbol,
            EvalError::DefunNotCorrectExpression => ErrView::DefunNotCorrectExpression,
            EvalError::DefunParamsAreNotAList => ErrView::DefunParamsAreNotAList,
            EvalError::DefunParamIsNotASymbol => ErrView::DefunParamIsNotASymbol,
        }
    }
}

/// What an evaluation gave back, as a value.
pub open spec fn outcome<N, P>(r: Result<LispExp<N, P>, EvalError>) -> Result<LispView<N, P>, ErrView> {
    match r {
        Ok(v) => Ok(v@),
        Err(e) => Err(e@),
    }
}

/// A call of a primitive: which one, with what, and what it answered.
pub struct Reply<N, P> {
    pub primitive: P,
    pub args: Seq<LispView<N, P>>,
    pub answer: Result<LispView<N, P>, ErrView>,
}

/// How a run of the evaluator ends, given the answers its primitives give in
/// turn.
pub enum Run<T, N, P> {
    /// It finished, with what it gave back, the environment after, and the
    /// answers it did not get to.
    Done(Result<T, ErrView>, Seq<FrameView<N, P>>, Seq<Reply<N, P>>),
    /// It called a primitive that the next answer is not the answer to.
    Unanswered,
    /// It stopped with a panic: it evaluated a dictionary or a primitive
    /// itself, or called a function with fewer arguments than it names.
    Panic,
    /// It made more nested function calls than the fuel allowed.
    OutOfFuel,
}

/// A run that stopped without finishing, seen as a run of another kind.
/// (Only ever applied to runs that did not finish.)
pub open spec fn halted<T, U, N, P>(r: Run<T, N, P>) -> Run<U, N, P> {
    match r {
        Run::Done(_, _, _) => Run::Unanswered,
        Run::Unanswered => Run::Unanswered,
        Run::Panic => Run::Panic,
        Run::OutOfFuel => Run::OutOfFuel,
    }
}

/// Whether a condition is false: `nil` and the empty list are; everything
/// else, the empty vector and the empty string among them, is true.
pub open spec fn is_nil<N, P>(e: LispView<N, P>) -> bool {
    e == LispView::<N, P>::List(Seq::empty()) || e == LispView::<N, P>::Symbol("nil"@)
}

/// The innermost frame with NAME set to V as a variable.
pub open spec fn set_variable<N, P>(frames: Seq<FrameView<N, P>>, name: Seq<char>, v: LispView<N, P>) -> Seq<FrameView<N, P>> {
    frames.update(
        frames.len() - 1,
        FrameView { variables: frames.last().variables.insert(name, v), functions: frames.last().functions },
    )
}

/// The innermost frame with NAME set to V as a function.
pub open spec fn set_function<N, P>(frames: Seq<FrameView<N, P>>, name: Seq<char>, v: LispView<N, P>) -> Seq<FrameView<N, P>> {
    frames.update(
        frames.len() - 1,
        FrameView { variables: frames.last().variables, functions: frames.last().functions.insert(name, v) },
    )
}

/// The variables a call binds: each parameter that is a symbol, among the
/// first K, to the argument in its place.
pub open spec fn bind_params<N, P>(params: Seq<LispView<N, P>>, args: Seq<LispView<N, P>>, k: int) -> Map<Seq<char>, LispView<N, P>>
    decreases k,
{
    if k <= 0 {
        Map::empty()
    } else {
        let m = bind_params(params, args, k - 1);
        match params[k - 1] {
            LispView::Symbol(n) => m.insert(n, args[k - 1]),
            _ => m,
        }
    }
}

/// Whether a parameter that is a symbol has no argument in its place.
pub open spec fn missing_argument<N, P>(params: Seq<LispView<N, P>>, args: Seq<LispView<N, P>>) -> bool {
    exists|i: int| args.len() <= i < params.len() && #[trigger] params[i] is Symbol
}

/// `(if COND THEN ELSE)`: neither the condition nor the branch is evaluated;
/// the branch is given back as written.
pub open spec fn if_spec<N, P>(items: Seq<LispView<N, P>>) -> Result<LispView<N, P>, ErrView> {
    if items.len() < 2 {
        Err(ErrView::IfNoConditionProvided)
    } else if items.len() < 3 {
        Err(ErrView::IfNoTrueBrach)
    } else if !is_nil(items[1]) {
        Ok(items[2])
    } else if items.len() > 3 {
        Ok(items[3])
    } else {
        Ok(LispView::Symbol("nil"@))
    }
}

/// The function `(defun NAME PARAMS BODY)` defines.
pub open spec fn lambda_of<N, P>(items: Seq<LispView<N, P>>) -> LispView<N, P> {
    LispView::List(seq![LispView::Symbol("lambda"@), items[2], items[3]])
}

/// `(defun NAME PARAMS BODY)`: what it gives back and the environment after.
pub open spec fn defun_spec<N, P>(items: Seq<LispView<N, P>>, env: Seq<FrameView<N, P>>) -> (Result<LispView<N, P>, ErrView>, Seq<FrameView<N, P>>) {
    if items.len() < 4 {
        (Err(ErrView::DefunNotCorrectExpression), env)
    } else {
        match items[1] {
            LispView::Symbol(name) => match items[2] {
                LispView::List(ps) => if exists|i: int| 0 <= i < ps.len() && !(#[trigger] ps[i] is Symbol) {
                    (Err(ErrView::DefunParamIsNotASymbol), env)
                } else {
                    (Ok(LispView::Symbol(name)), set_function(env, name, lambda_of(items)))
                },
                _ => (Err(ErrView::DefunParamsAreNotAList), env),
            },
            _ => (Err(ErrView::DefunNameMustBeASymbol), env),
        }
    }
}

/// How many items are left from the K-th on.
pub open spec fn items_left(len: nat, k: int) -> nat {
    if 0 <= k < len {
        (len - k) as nat
    } else {
        0
    }
}

/// Evaluating E in ENV with fuel F, the primitives answering with RS in turn.
pub open spec fn eval_spec<N, P>(f: nat, e: LispView<N, P>, env: Seq<FrameView<N, P>>, rs: Seq<Reply<N, P>>) -> Run<LispView<N, P>, N, P>
    decreases f, e, 0nat,
{
    match e {
        LispView::String(_) => Run::Done(Ok(e), env, rs),
        LispView::Number(_) => Run::Done(Ok(e), env, rs),
        LispView::Symbol(s) => match lookup(env, s, false) {
            Some(v) => Run::Done(Ok(v), env, rs),
            None => Run::Done(Err(ErrView::UnboundVariable(s)), env, rs),
        },
        LispView::List(items) => if items.len() == 0 {
            Run::Done(Ok(LispView::List(Seq::empty())), env, rs)
        } else {
            match items[0] {
                LispView::Symbol(s) => form_spec(f, s, items, env, rs),
                _ => Run::Done(Err(ErrView::UnvalidFunctionCall), env, rs),
            }
        },
        LispView::Vector(items) => match items_spec(f, items, 0, env, rs, Seq::empty()) {
            Run::Done(Ok(vs), env1, rs1) => Run::Done(Ok(LispView::Vector(vs)), env1, rs1),
            Run::Done(Err(x), env1, rs1) => Run::Done(Err(x), env1, rs1),
            other => halted(other),
        },
        _ => Run::Panic,
    }
}

/// Evaluating the items of ITEMS from K on, one after the other, gathering
/// their values after ACC; the first failure stops it.
pub open spec fn items_spec<N, P>(
    f: nat,
    items: Seq<LispView<N, P>>,
    k: int,
    env: Seq<FrameView<N, P>>,
    rs: Seq<Reply<N, P>>,
    acc: Seq<LispView<N, P>>,
) -> Run<Seq<LispView<N, P>>, N, P>
    decreases f, items, items_left(items.len(), k),
{
    if k < 0 || k >= items.len() {
        Run::Done(Ok(acc), env, rs)
    } else {
        match eval_spec(f, items[k], env, rs) {
            Run::Done(Ok(v), env1, rs1) => items_spec(f, items, k + 1, env1, rs1, acc.push(v)),
            Run::Done(Err(x), env1, rs1) => Run::Done(Err(x), env1, rs1),
            other => halted(other),
        }
    }
}

/// The form ITEMS, whose head is the symbol S.
pub open spec fn form_spec<N, P>(f: nat, s: Seq<char>, items: Seq<LispView<N, P>>, env: Seq<FrameView<N, P>>, rs: Seq<Reply<N, P>>) -> Run<LispView<N, P>, N, P>
    decreases f, items, items.len() + 2,
{
    if s == "if"@ {
        Run::Done(if_spec(items), env, rs)
    } else if s == "setq"@ {
        if items.len() == 2 {
            Run::Done(Err(ErrView::SetqWrongNumberOfArgs(1)), env, rs)
        } else {
            setq_spec(f, items, 1, env, rs, Seq::empty(), LispView::Symbol("nil"@), true)
        }
    } else if s == "defun"@ {
        Run::Done(defun_spec(items, env).0, defun_spec(items, env).1, rs)
    } else {
        call_spec(f, s, items, env, rs)
    }
}

/// `(setq NAME VALUE ...)` from the K-th item on: NAME is the name the last
/// symbol read gave, VALUE the value last set, and NEXT_IS_NAME whether a name
/// comes next.
pub open spec fn setq_spec<N, P>(
    f: nat,
    items: Seq<LispView<N, P>>,
    k: int,
    env: Seq<FrameView<N, P>>,
    rs: Seq<Reply<N, P>>,
    name: Seq<char>,
    value: LispView<N, P>,
    next_is_name: bool,
) -> Run<LispView<N, P>, N, P>
    decreases f, items, items_left(items.len(), k),
{
    if k < 0 || k >= items.len() {
        Run::Done(Ok(value), env, rs)
    } else if next_is_name {
        match items[k] {
            LispView::Symbol(n) => setq_spec(f, items, k + 1, env, rs, n, value, false),
            _ => Run::Done(Err(ErrView::SetqSymbolRequired), env, rs),
        }
    } else {
        match eval_spec(f, items[k], env, rs) {
            Run::Done(Ok(v), env1, rs1) => setq_spec(
                f,
                items,
                k + 1,
                set_variable(env1, name, v),
                rs1,
                name,
                v,
                true,
            ),
            Run::Done(Err(x), env1, rs1) => Run::Done(Err(x), env1, rs1),
            other => other,
        }
    }
}

/// Calling the function S with the rest of ITEMS, evaluated, as arguments.
pub open spec fn call_spec<N, P>(f: nat, s: Seq<char>, items: Seq<LispView<N, P>>, env: Seq<FrameView<N, P>>, rs: Seq<Reply<N, P>>) -> Run<LispView<N, P>, N, P>
    decreases f, items, items.len() + 1,
{
    match items_spec(f, items, 1, env, rs, Seq::empty()) {
        Run::Done(Ok(args), env1, rs1) => match lookup(env1, s, true) {
            None => Run::Done(Err(ErrView::UndefinedFunction(s)), env1, rs1),
            Some(LispView::List(lam)) => if lam.len() != 3 {
                Run::Done(Err(ErrView::UncorrectFunctionDefinition), env1, rs1)
            } else if lam[1] matches LispView::List(ps) && missing_argument(ps, args) {
                Run::Panic
            } else if f == 0 {
                Run::OutOfFuel
            } else {
                let vars = match lam[1] {
                    LispView::List(ps) => bind_params(ps, args, ps.len() as int),
                    _ => Map::empty(),
                };
                let frame = FrameView { variables: vars, functions: Map::empty() };
                match eval_spec((f - 1) as nat, lam[2], env1.push(frame), rs1) {
                    Run::Done(res, env2, rs2) => Run::Done(res, env2.drop_last(), rs2),
                    other => other,
                }
            },
            Some(LispView::Primitive(p)) => if rs1.len() > 0 && rs1[0].primitive == p && rs1[0].args
                == args {
                Run::Done(rs1[0].answer, env1, rs1.drop_first())
            } else {
                Run::Unanswered
            },
            Some(_) => Run::Done(Err(ErrView::UncorrectFunctionDefinition), env1, rs1),
        },
        Run::Done(Err(x), env1, rs1) => Run::Done(Err(x), env1, rs1),
        other => halted(other),
    }
}

/// Whether evaluating E in ENV, with the primitives answering as T records
/// in turn, gives RES and leaves ENV2, within every fuel that it halts
/// within.
pub open spec fn evaluates_to<N, P>(
    e: LispView<N, P>,
    env: Seq<FrameView<N, P>>,
    t: Seq<Reply<N, P>>,
    res: Result<LispView<N, P>, ErrView>,
    env2: Seq<FrameView<N, P>>,
) -> bool {
    forall|f: nat| halts(f, e, env) ==> #[trigger] eval_spec(f, e, env, t) == Run::Done(res, env2, Seq::empty())
}

/// Whether evaluating E in ENV finishes within fuel F, without a panic,
/// whatever the primitives answer.
pub open spec fn halts<N, P>(f: nat, e: LispView<N, P>, env: Seq<FrameView<N, P>>) -> bool {
    forall|rs: Seq<Reply<N, P>>| stops(#[trigger] eval_spec(f, e, env, rs))
}


/// B is how run A ends when the answers MORE come after the ones it was
/// given: a run that finished or stopped before needing them ends the same.
pub open spec fn extended<T, N, P>(a: Run<T, N, P>, b: Run<T, N, P>, more: Seq<Reply<N, P>>) -> bool {
    match a {
        Run::Done(r, env, rest) => b == Run::Done(r, env, rest + more),
        Run::Panic => b is Panic,
        Run::OutOfFuel => b is OutOfFuel,
        Run::Unanswered => true,
    }
}

proof fn lemma_eval_more<N, P>(f: nat, e: LispView<N, P>, env: Seq<FrameView<N, P>>, rs: Seq<Reply<N, P>>, more: Seq<Reply<N, P>>)
    ensures
        extended(eval_spec(f, e, env, rs), eval_spec(f, e, env, rs + more), more),
    decreases f, e, 0nat,
{
    match e {
        LispView::List(items) => {
            if items.len() > 0 {
                if let LispView::Symbol(s) = items[0] {
                    lemma_form_more(f, s, items, env, rs, more);
                }
            }
        },
        LispView::Vector(items) => {
            lemma_items_more(f, items, 0, env, rs, Seq::empty(), more);
        },
        _ => {},
    }
}

proof fn lemma_items_more<N, P>(
    f: nat,
    items: Seq<LispView<N, P>>,
    k: int,
    env: Seq<FrameView<N, P>>,
    rs: Seq<Reply<N, P>>,
    acc: Seq<LispView<N, P>>,
    more: Seq<Reply<N, P>>,
)
    ensures
        extended(items_spec(f, items, k, env, rs, acc), items_spec(f, items, k, env, rs + more, acc), more),
    decreases f, items, items_left(items.len(), k),
{
    if 0 <= k < items.len() {
        lemma_eval_more(f, items[k], env, rs, more);
        if let Run::Done(Ok(v), env1, rs1) = eval_spec(f, items[k], env, rs) {
            lemma_items_more(f, items, k + 1, env1, rs1, acc.push(v), more);
        }
    }
}

proof fn lemma_form_more<N, P>(f: nat, s: Seq<char>, items: Seq<LispView<N, P>>, env: Seq<FrameView<N, P>>, rs: Seq<Reply<N, P>>, more: Seq<Reply<N, P>>)
    ensures
        extended(form_spec(f, s, items, env, rs), form_spec(f, s, items, env, rs + more), more),
    decreases f, items, items.len() + 2,
{
    if s == "if"@ {
    } else if s == "setq"@ {
        if items.len() != 2 {
            lemma_setq_more(f, items, 1, env, rs, Seq::empty(), LispView::Symbol("nil"@), true, more);
        }
    } else if s == "defun"@ {
    } else {
        lemma_call_more(f, s, items, env, rs, more);
    }
}

proof fn lemma_setq_more<N, P>(
    f: nat,
    items: Seq<LispView<N, P>>,
    k: int,
    env: Seq<FrameView<N, P>>,
    rs: Seq<Reply<N, P>>,
    name: Seq<char>,
    value: LispView<N, P>,
    next_is_name: bool,
    more: Seq<Reply<N, P>>,
)
    ensures
        extended(
            setq_spec(f, items, k, env, rs, name, value, next_is_name),
            setq_spec(f, items, k, env, rs + more, name, value, next_is_name),
            more,
        ),
    decreases f, items, items_left(items.len(), k),
{
    if 0 <= k < items.len() {
        if next_is_name {
            if let LispView::Symbol(n) = items[k] {
                lemma_setq_more(f, items, k + 1, env, rs, n, value, false, more);
            }
        } else {
            lemma_eval_more(f, items[k], env, rs, more);
            if let Run::Done(Ok(v), env1, rs1) = eval_spec(f, items[k], env, rs) {
                lemma_setq_more(f, items, k + 1, set_variable(env1, name, v), rs1, name, v, true, more);
            }
        }
    }
}

proof fn lemma_call_more<N, P>(f: nat, s: Seq<char>, items: Seq<LispView<N, P>>, env: Seq<FrameView<N, P>>, rs: Seq<Reply<N, P>>, more: Seq<Reply<N, P>>)
    ensures
        extended(call_spec(f, s, items, env, rs), call_spec(f, s, items, env, rs + more), more),
    decreases f, items, items.len() + 1,
{
    lemma_items_more(f, items, 1, env, rs, Seq::empty(), more);
    if let Run::Done(Ok(args), env1, rs1) = items_spec(f, items, 1, env, rs, Seq::empty()) {
        match lookup(env1, s, true) {
            Some(LispView::List(lam)) => {
                if lam.len() == 3 && !(lam[1] matches LispView::List(ps) && missing_argument(ps, args)) && f > 0 {
                    let vars = match lam[1] {
                        LispView::List(ps) => bind_params(ps, args, ps.len() as int),
                        _ => Map::empty(),
                    };
                    let frame = FrameView { variables: vars, functions: Map::empty() };
                    lemma_eval_more((f - 1) as nat, lam[2], env1.push(frame), rs1, more);
                }
            },
            Some(LispView::Primitive(p)) => {
                if rs1.len() > 0 {
                    assert((rs1 + more)[0] == rs1[0]);
                    assert((rs1 + more).drop_first() =~= rs1.drop_first() + more);
                }
            },
            _ => {},
        }
    }
}

/// Whether a run stopped without a panic and within its fuel.
pub open spec fn stops<T, N, P>(r: Run<T, N, P>) -> bool {
    !(r is Panic) && !(r is OutOfFuel)
}

/// What runs the primitives: the program the evaluator is part of.
///
/// Nothing is assumed of what a primitive does or answers; what the
/// evaluator promises, it promises whatever the answer.
pub trait LispHost<N, P> {
    /// Run PRIMITIVE with the arguments ARGS.
    fn call_primitive(&mut self, primitive: P, args: &[LispExp<N, P>]) -> Result<LispExp<N, P>, EvalError>;
}

/// A host, with a record of every call the evaluator made of it: the
/// primitive, what it was given and what it answered, in order. The record
/// is kept for the proof only.
pub struct Recording<N, P, H> {
    pub host: H,
    pub calls: Ghost<Seq<Reply<N, P>>>,
}

impl<N, P: Copy, H: LispHost<N, P>> Recording<N, P, H> {
    /// The calls made through this recording so far, in order.
    pub open spec fn replies(&self) -> Seq<Reply<N, P>> {
        self.calls@
    }

    /// HOST, with no call made of it yet.
    pub fn new(host: H) -> (r: Self)
        ensures
            r.replies() == Seq::<Reply<N, P>>::empty(),
            r.host == host,
    {
        Recording { host, calls: Ghost(Seq::empty()) }
    }

    /// Run PRIMITIVE with the arguments ARGS on the host, and note the call.
    pub fn call_primitive(&mut self, primitive: P, args: &[LispExp<N, P>]) -> (r: Result<LispExp<N, P>, EvalError>)
        ensures
            final(self).replies() == old(self).replies().push(
                Reply { primitive, args: items_view(args@), answer: outcome(r) },
            ),
    {
        let r = self.host.call_primitive(primitive, args);
        self.calls = Ghost(self.calls@.push(Reply { primitive, args: items_view(args@), answer: outcome(r) }));
        r
    }
}

/// Whether the record of calls AFTER carries on from BEFORE.
pub open spec fn extends<N, P>(before: Seq<Reply<N, P>>, after: Seq<Reply<N, P>>) -> bool {
    before.len() <= after.len() && after.take(before.len() as int) == before
}

/// The calls recorded in AFTER since BEFORE.
pub open spec fn since<N, P>(before: Seq<Reply<N, P>>, after: Seq<Reply<N, P>>) -> Seq<Reply<N, P>> {
    after.skip(before.len() as int)
}

proof fn lemma_since_nothing<N, P>(a: Seq<Reply<N, P>>)
    ensures
        extends(a, a),
        since(a, a) == Seq::<Reply<N, P>>::empty(),
{
    assert(a.take(a.len() as int) =~= a);
    assert(since(a, a) =~= Seq::<Reply<N, P>>::empty());
}

proof fn lemma_since_chain<N, P>(a: Seq<Reply<N, P>>, b: Seq<Reply<N, P>>, c: Seq<Reply<N, P>>)
    requires
        extends(a, b),
        extends(b, c),
    ensures
        extends(a, c),
        since(a, c) == since(a, b) + since(b, c),
{
    assert(c.take(a.len() as int) =~= b.take(a.len() as int));
    assert(since(a, c) =~= since(a, b) + since(b, c));
}

/// Whether E is `nil` or the empty list.
fn is_nil_exp<N, P>(e: &LispExp<N, P>) -> (r: bool)
    ensures
        r == is_nil(e@),
{
    match e {
        LispExp::List(v) => {
            proof {
                lemma_items_view(v@);
                if v@.len() == 0 {
                    assert(items_view(v@) =~= Seq::<LispView<N, P>>::empty());
                }
            }
            v.len() == 0
        },
        LispExp::Symbol(s) => same_text(s.as_str(), "nil"),
        _ => false,
    }
}

impl<N: Copy, P: Copy> Env<N, P> {
    proof fn lemma_frames(&self)
        ensures
            self@.len() >= 1,
            self@.last() == self.own_frame(),
            self.outer is None ==> self@ == seq![self.own_frame()],
            self.outer matches Some(b) ==> self@ == b@.push(self.own_frame()),
    {
        if self.outer is Some {
            assert(self@ == self.outer->0@.push(self.own_frame()));
        } else {
            assert(self@ == seq![self.own_frame()]);
        }
    }

    /// Set the variable NAME in this call's frame.
    fn set_variable(&mut self, name: String, value: LispExp<N, P>)
        requires
            old(self).wf(),
        ensures
            final(self).wf(),
            final(self)@ == set_variable(old(self)@, name@, value@),
    {
        proof {
            self.lemma_frames();
        }
        let ghost before = self@;
        self.variables.insert(name, value);
        proof {
            self.lemma_frames();
            assert(self@ =~= set_variable(before, name@, value@));
        }
    }

    /// Set the function NAME in this call's frame.
    fn set_function(&mut self, name: String, value: LispExp<N, P>)
        requires
            old(self).wf(),
        ensures
            final(self).wf(),
            final(self)@ == set_function(old(self)@, name@, value@),
    {
        proof {
            self.lemma_frames();
        }
        let ghost before = self@;
        self.functions.insert(name, value);
        proof {
            self.lemma_frames();
            assert(self@ =~= set_function(before, name@, value@));
        }
    }
}

/// What evaluating a list of items gave back, as values.
pub open spec fn items_outcome<N, P>(r: Result<Vec<LispExp<N, P>>, EvalError>) -> Result<Seq<LispView<N, P>>, ErrView> {
    match r {
        Ok(v) => Ok(items_view(v@)),
        Err(e) => Err(e@),
    }
}

/// Evaluates E in ENV.
///
/// A symbol gives back the value of the variable it names, looked up from
/// the innermost frame outwards; a string or a number gives back itself; a
/// vector gives back a vector of its items' values; a list is a form: an
/// `if`, a `setq`, a `defun`, or a call of the function its head names,
/// whose arguments are evaluated first, left to right.
///
/// What it gives back and the environment it leaves are those of the
/// semantics [`eval_spec`] ([`evaluates_to`]), with the primitives answering
/// as the calls it made of CTX record: each call made, with what it was
/// given and what it answered, in order, and no other.
///
/// Precondition: evaluation finishes, and does not reach one of the cases in
/// which it panics (a dictionary or a primitive evaluated as such, or a
/// function called with fewer arguments than it names), whatever the
/// primitives answer.
pub fn eval<N: Copy, P: Copy, H: LispHost<N, P>>(exp: &LispExp<N, P>, env: &mut Env<N, P>, ctx: &mut Recording<N, P, H>) -> (r: Result<LispExp<N, P>, EvalError>)
    requires
        old(env).wf(),
        exists|f: nat| halts(f, exp@, old(env)@),
    ensures
        final(env).wf(),
        extends(old(ctx).replies(), final(ctx).replies()),
        evaluates_to(exp@, old(env)@, since(old(ctx).replies(), final(ctx).replies()), outcome(r), final(env)@),
{
    let ghost env0 = env@;
    let ghost r0 = ctx.replies();
    let ghost f0 = choose|f: nat| halts(f, exp@, env0);
    let r = eval_in(exp, env, ctx, Ghost(f0));
    proof {
        let t = since(r0, ctx.replies());
        assert forall|f: nat| halts(f, exp@, env0) implies #[trigger] eval_spec(f, exp@, env0, t) == Run::Done(
            outcome(r),
            env@,
            Seq::<Reply<N, P>>::empty(),
        ) by {
            let m = if f0 <= f { f } else { f0 };
            assert(stops(eval_spec(f0, exp@, env0, t)));
            assert(stops(eval_spec(f, exp@, env0, t)));
            lemma_more_fuel_changes_nothing(f0, m, exp@, env0, t);
            lemma_more_fuel_changes_nothing(f, m, exp@, env0, t);
        }
        assert(evaluates_to(exp@, env0, t, outcome(r), env@));
    }
    r
}

fn eval_in<N: Copy, P: Copy, H: LispHost<N, P>>(exp: &LispExp<N, P>, env: &mut Env<N, P>, ctx: &mut Recording<N, P, H>, Ghost(f): Ghost<nat>) -> (r: Result<LispExp<N, P>, EvalError>)
    requires
        old(env).wf(),
        halts(f, exp@, old(env)@),
    ensures
        final(env).wf(),
        final(env)@.len() == old(env)@.len(),
        extends(old(ctx).replies(), final(ctx).replies()),
        eval_spec(f, exp@, old(env)@, since(old(ctx).replies(), final(ctx).replies())) == Run::Done(
            outcome(r),
            final(env)@,
            Seq::<Reply<N, P>>::empty(),
        ),
    decreases f, exp@, 0nat,
{
    let ghost env0 = env@;
    let ghost r0 = ctx.replies();
    proof {
        lemma_since_nothing(r0);
    }
    let ghost none = Seq::<Reply<N, P>>::empty();
    match exp {
        LispExp::String(_) | LispExp::Number(_) => {
            let r = exp.duplicate();
            assert(eval_spec(f, exp@, env0, none) == Run::Done(outcome::<N, P>(Ok(r)), env0, none));
            Ok(r)
        },
        LispExp::Symbol(symbol) => {
            match env.get_var(symbol.as_str()) {
                Some(v) => {
                    assert(eval_spec(f, exp@, env0, none) == Run::Done(outcome::<N, P>(Ok(v)), env0, none));
                    Ok(v)
                },
                None => {
                    let e = EvalError::UnboundVariable(symbol.clone());
                    assert(eval_spec(f, exp@, env0, none) == Run::Done(outcome::<N, P>(Err(e)), env0, none));
                    Err(e)
                },
            }
        },
        LispExp::List(list) => {
            proof {
                lemma_items_view(list@);
            }
            if list.len() == 0 {
                let r = LispExp::List(Vec::new());
                assert(items_view(Seq::<LispExp<N, P>>::empty()) =~= Seq::<LispView<N, P>>::empty());
                assert(eval_spec(f, exp@, env0, none) == Run::Done(outcome::<N, P>(Ok(r)), env0, none));
                Ok(r)
            } else {
                match &list[0] {
                    LispExp::Symbol(symbol) => {
                        proof {
                            assert forall|rs: Seq<Reply<N, P>>| #[trigger] stops(form_spec(f, symbol@, items_view(list@), env0, rs)) by {
                                assert(stops(eval_spec(f, exp@, env0, rs)));
                            }
                        }
                        let r = eval_special_form_or_call(symbol.as_str(), list, env, ctx, Ghost(f));
                        proof {
                            let t = since(r0, ctx.replies());
                            assert(eval_spec(f, exp@, env0, t) == Run::Done(outcome(r), env@, none));
                        }
                        r
                    },
                    _ => {
                        let e = EvalError::UnvalidFunctionCall;
                        assert(eval_spec(f, exp@, env0, none) == Run::Done(outcome::<N, P>(Err(e)), env0, none));
                        Err(e)
                    },
                }
            }
        },
        LispExp::Vector(items) => {
            proof {
                assert forall|rs: Seq<Reply<N, P>>| #[trigger] stops(items_spec(f, items_view(items@), 0, env0, rs, Seq::empty())) by {
                    assert(stops(eval_spec(f, exp@, env0, rs)));
                }
            }
            let r = eval_items(items, 0, env, ctx, Ghost(f));
            let ghost t = since(r0, ctx.replies());
            match r {
                Ok(values) => {
                    let v = LispExp::Vector(values);
                    assert(eval_spec(f, exp@, env0, t) == Run::Done(outcome::<N, P>(Ok(v)), env@, none));
                    Ok(v)
                },
                Err(e) => {
                    assert(eval_spec(f, exp@, env0, t) == Run::Done(outcome::<N, P>(Err(e)), env@, none));
                    Err(e)
                },
            }
        },
        _ => {
            // A dictionary or a primitive evaluated as such: ruled out by the
            // precondition.
            assert(eval_spec(f, exp@, env0, none) is Panic);
            Err(EvalError::UnvalidFunctionCall)
        },
    }
}

/// Evaluates ITEMS from the START-th on, one after the other; the first
/// failure stops it.
fn eval_items<N: Copy, P: Copy, H: LispHost<N, P>>(items: &Vec<LispExp<N, P>>, start: usize, env: &mut Env<N, P>, ctx: &mut Recording<N, P, H>, Ghost(f): Ghost<nat>) -> (r: Result<Vec<LispExp<N, P>>, EvalError>)
    requires
        old(env).wf(),
        start <= items@.len(),
        forall|rs: Seq<Reply<N, P>>| #[trigger] stops(items_spec(f, items_view(items@), start as int, old(env)@, rs, Seq::empty())),
    ensures
        final(env).wf(),
        final(env)@.len() == old(env)@.len(),
        extends(old(ctx).replies(), final(ctx).replies()),
        items_spec(f, items_view(items@), start as int, old(env)@, since(old(ctx).replies(), final(ctx).replies()), Seq::empty()) == Run::Done(
                items_outcome(r),
                final(env)@,
                Seq::<Reply<N, P>>::empty(),
            ),
    decreases f, items_view(items@), items_left(items@.len(), start as int),
{
    let ghost iv = items_view(items@);
    let ghost env0 = env@;
    let ghost r0 = ctx.replies();
    proof {
        lemma_since_nothing(r0);
    }
    let ghost none = Seq::<Reply<N, P>>::empty();
    proof {
        lemma_items_view(items@);
    }
    let mut values: Vec<LispExp<N, P>> = Vec::new();
    let mut k: usize = start;
    let ghost mut trace = none;
    assert(items_view(values@) =~= Seq::<LispView<N, P>>::empty());
    assert forall|more: Seq<Reply<N, P>>| #[trigger] items_spec(f, iv, start as int, env0, trace + more, Seq::empty())
        == items_spec(f, iv, k as int, env@, more, items_view(values@)) by {
        assert(trace + more =~= more);
    }
    while k < items.len()
        invariant
            env.wf(),
            env@.len() == env0.len(),
            start <= k <= items@.len(),
            env0 == old(env)@,
            none == Seq::<Reply<N, P>>::empty(),
            iv == items_view(items@),
            iv.len() == items@.len(),
            forall|i: int| 0 <= i < items@.len() ==> #[trigger] iv[i] == items@[i]@,
            forall|more: Seq<Reply<N, P>>| #[trigger] items_spec(f, iv, start as int, env0, trace + more, Seq::empty())
                == items_spec(f, iv, k as int, env@, more, items_view(values@)),
            forall|rs: Seq<Reply<N, P>>| #[trigger] stops(items_spec(f, iv, k as int, env@, rs, items_view(values@))),
            r0 == old(ctx).replies(),
            extends(r0, ctx.replies()),
            since(r0, ctx.replies()) == trace,
        decreases items@.len() - k,
    {
        let ghost env_k = env@;
        let ghost rk = ctx.replies();
        let ghost acc = items_view(values@);
        proof {
            assert forall|rs: Seq<Reply<N, P>>| #[trigger] stops(eval_spec(f, items@[k as int]@, env_k, rs)) by {
                assert(stops(items_spec(f, iv, k as int, env_k, rs, acc)));
            }
        }
        let r = eval_in(&items[k], env, ctx, Ghost(f));
        let ghost t = since(rk, ctx.replies());
        proof {
            lemma_since_chain(r0, rk, ctx.replies());
            assert forall|more: Seq<Reply<N, P>>| #[trigger] items_spec(f, iv, k as int, env_k, t + more, acc)
                == match outcome(r) {
                    Ok(v) => items_spec(f, iv, k + 1, env@, more, acc.push(v)),
                    Err(x) => Run::Done(Err(x), env@, more),
                } by {
                lemma_eval_more(f, iv[k as int], env_k, t, more);
                assert(none + more =~= more);
            }
        }
        match r {
            Ok(v) => {
                let ghost before = values@;
                values.push(v);
                proof {
                    assert(values@.drop_last() =~= before);
                    assert(items_view(values@) == acc.push(v@));
                    assert forall|more: Seq<Reply<N, P>>| #[trigger] items_spec(f, iv, start as int, env0, (trace + t) + more, Seq::empty())
                        == items_spec(f, iv, k + 1, env@, more, items_view(values@)) by {
                        assert((trace + t) + more =~= trace + (t + more));
                        assert(items_spec(f, iv, k as int, env_k, t + more, acc) == items_spec(f, iv, k + 1, env@, more, acc.push(v@)));
                    }
                    assert forall|rs: Seq<Reply<N, P>>| #[trigger] stops(items_spec(f, iv, k + 1, env@, rs, items_view(values@))) by {
                        assert(stops(items_spec(f, iv, k as int, env_k, t + rs, acc)));
                        assert(items_spec(f, iv, k as int, env_k, t + rs, acc) == items_spec(f, iv, k + 1, env@, rs, acc.push(v@)));
                    }
                    trace = trace + t;
                }
                k = k + 1;
            },
            Err(e) => {
                proof {
                    assert(items_spec(f, iv, start as int, env0, trace + t, Seq::empty()) == items_spec(f, iv, k as int, env_k, t, acc));
                    assert(t + none =~= t);
                    assert(items_spec(f, iv, k as int, env_k, t + none, acc) == Run::<Seq<LispView<N, P>>, N, P>::Done(Err(e@), env@, none));
                    assert(items_spec(f, iv, start as int, env0, trace + t, Seq::empty()) == Run::Done(items_outcome::<N, P>(Err(e)), env@, none));
                }
                return Err(e);
            },
        }
    }
    proof {
        assert(trace + none =~= trace);
        assert(items_spec(f, iv, start as int, env0, trace + none, Seq::empty()) == items_spec(f, iv, k as int, env@, none, items_view(values@)));
    }
    Ok(values)
}

/// The form LIST, whose head is the symbol SYMBOL: a special form, or a call.
fn eval_special_form_or_call<N: Copy, P: Copy, H: LispHost<N, P>>(
    symbol: &str,
    list: &Vec<LispExp<N, P>>,
    env: &mut Env<N, P>,
    ctx: &mut Recording<N, P, H>,
    Ghost(f): Ghost<nat>,
) -> (r: Result<LispExp<N, P>, EvalError>)
    requires
        old(env).wf(),
        list@.len() >= 1,
        forall|rs: Seq<Reply<N, P>>| #[trigger] stops(form_spec(f, symbol@, items_view(list@), old(env)@, rs)),
    ensures
        final(env).wf(),
        final(env)@.len() == old(env)@.len(),
        extends(old(ctx).replies(), final(ctx).replies()),
        form_spec(f, symbol@, items_view(list@), old(env)@, since(old(ctx).replies(), final(ctx).replies())) == Run::Done(
                outcome(r),
                final(env)@,
                Seq::<Reply<N, P>>::empty(),
            ),
    decreases f, items_view(list@), list@.len() + 2,
{
    let ghost iv = items_view(list@);
    let ghost env0 = env@;
    let ghost r0 = ctx.replies();
    proof {
        lemma_since_nothing(r0);
    }
    let ghost none = Seq::<Reply<N, P>>::empty();
    proof {
        lemma_items_view(list@);
    }
    if same_text(symbol, "if") {
        // Neither the condition nor the branch is evaluated.
        let r = if list.len() < 2 {
            Err(EvalError::IfNoConditionProvided)
        } else if list.len() < 3 {
            Err(EvalError::IfNoTrueBrach)
        } else if !is_nil_exp(&list[1]) {
            Ok(list[2].duplicate())
        } else if list.len() > 3 {
            Ok(list[3].duplicate())
        } else {
            Ok(LispExp::Symbol("nil".to_owned()))
        };
        assert(form_spec(f, symbol@, iv, env0, none) == Run::Done(outcome(r), env0, none));
        r
    } else if same_text(symbol, "setq") {
        if list.len() == 2 {
            let e = EvalError::SetqWrongNumberOfArgs(1);
            assert(form_spec(f, symbol@, iv, env0, none) == Run::Done(outcome::<N, P>(Err(e)), env0, none));
            return Err(e);
        }
        let mut next_is_name = true;
        let mut name = String::new();
        let mut value = LispExp::Symbol("nil".to_owned());
        let mut k: usize = 1;
        let ghost mut trace = none;
        assert forall|more: Seq<Reply<N, P>>| #[trigger] setq_spec(f, iv, 1, env0, trace + more, Seq::empty(), LispView::Symbol("nil"@), true)
            == setq_spec(f, iv, k as int, env@, more, name@, value@, next_is_name) by {
            assert(trace + more =~= more);
        }
        assert forall|rs: Seq<Reply<N, P>>| #[trigger] stops(setq_spec(f, iv, k as int, env@, rs, name@, value@, next_is_name)) by {
            assert(stops(form_spec(f, symbol@, iv, env0, rs)));
        }
        while k < list.len()
            invariant
                env.wf(),
                env@.len() == env0.len(),
                1 <= k <= list@.len(),
                env0 == old(env)@,
                symbol@ == "setq"@,
                symbol@ != "if"@,
                list@.len() != 2,
                none == Seq::<Reply<N, P>>::empty(),
                iv == items_view(list@),
                iv.len() == list@.len(),
                forall|i: int| 0 <= i < list@.len() ==> #[trigger] iv[i] == list@[i]@,
                forall|more: Seq<Reply<N, P>>| #[trigger] setq_spec(f, iv, 1, env0, trace + more, Seq::empty(), LispView::Symbol("nil"@), true)
                    == setq_spec(f, iv, k as int, env@, more, name@, value@, next_is_name),
                forall|rs: Seq<Reply<N, P>>| #[trigger] stops(setq_spec(f, iv, k as int, env@, rs, name@, value@, next_is_name)),
                r0 == old(ctx).replies(),
                extends(r0, ctx.replies()),
                since(r0, ctx.replies()) == trace,
            decreases list@.len() - k,
        {
            let ghost env_k = env@;
            let ghost rk = ctx.replies();
            let ghost name_k = name@;
            let ghost value_k = value@;
            if next_is_name {
                match &list[k] {
                    LispExp::Symbol(n) => {
                        name = n.clone();
                        next_is_name = false;
                        proof {
                            assert forall|rs: Seq<Reply<N, P>>| #[trigger] stops(setq_spec(f, iv, k + 1, env@, rs, name@, value@, false)) by {
                                assert(stops(setq_spec(f, iv, k as int, env_k, rs, name_k, value_k, true)));
                            }
                        }
                    },
                    _ => {
                        let e = EvalError::SetqSymbolRequired;
                        proof {
                            assert(trace + none =~= trace);
                            assert(setq_spec(f, iv, 1, env0, trace + none, Seq::empty(), LispView::Symbol("nil"@), true)
                                == Run::Done(outcome::<N, P>(Err(e)), env@, none));
                            assert(form_spec(f, symbol@, iv, env0, trace) == Run::Done(outcome::<N, P>(Err(e)), env@, none));
                        }
                        return Err(e);
                    },
                }
            } else {
                proof {
                    assert forall|rs: Seq<Reply<N, P>>| #[trigger] stops(eval_spec(f, list@[k as int]@, env_k, rs)) by {
                        assert(stops(setq_spec(f, iv, k as int, env_k, rs, name_k, value_k, false)));
                    }
                }
                let r = eval_in(&list[k], env, ctx, Ghost(f));
                let ghost t = since(rk, ctx.replies());
                proof {
                    lemma_since_chain(r0, rk, ctx.replies());
                    assert forall|more: Seq<Reply<N, P>>| #[trigger] setq_spec(f, iv, k as int, env_k, t + more, name_k, value_k, false)
                        == match outcome(r) {
                            Ok(v) => setq_spec(f, iv, k + 1, set_variable(env@, name_k, v), more, name_k, v, true),
                            Err(x) => Run::Done(Err(x), env@, more),
                        } by {
                        lemma_eval_more(f, iv[k as int], env_k, t, more);
                        assert(none + more =~= more);
                    }
                }
                match r {
                    Ok(v) => {
                        env.set_variable(name.clone(), v.duplicate());
                        value = v;
                        next_is_name = true;
                        proof {
                            assert forall|more: Seq<Reply<N, P>>| #[trigger] setq_spec(f, iv, 1, env0, (trace + t) + more, Seq::empty(), LispView::Symbol("nil"@), true)
                                == setq_spec(f, iv, k + 1, env@, more, name@, value@, next_is_name) by {
                                assert((trace + t) + more =~= trace + (t + more));
                            }
                            assert forall|rs: Seq<Reply<N, P>>| #[trigger] stops(setq_spec(f, iv, k + 1, env@, rs, name@, value@, next_is_name)) by {
                                assert(stops(setq_spec(f, iv, k as int, env_k, t + rs, name_k, value_k, false)));
                            }
                            trace = trace + t;
                        }
                    },
                    Err(e) => {
                        proof {
                            assert(t + none =~= t);
                            assert(setq_spec(f, iv, k as int, env_k, t + none, name_k, value_k, false) == Run::<LispView<N, P>, N, P>::Done(Err(e@), env@, none));
                            assert(setq_spec(f, iv, 1, env0, trace + t, Seq::empty(), LispView::Symbol("nil"@), true)
                                == Run::Done(outcome::<N, P>(Err(e)), env@, none));
                            assert(form_spec(f, symbol@, iv, env0, trace + t) == Run::Done(outcome::<N, P>(Err(e)), env@, none));
                        }
                        return Err(e);
                    },
                }
            }
            k = k + 1;
        }
        proof {
            assert(trace + none =~= trace);
            assert(setq_spec(f, iv, 1, env0, trace + none, Seq::empty(), LispView::Symbol("nil"@), true)
                == setq_spec(f, iv, k as int, env@, none, name@, value@, next_is_name));
            assert(form_spec(f, symbol@, iv, env0, trace) == Run::Done(outcome::<N, P>(Ok(value)), env@, none));
        }
        Ok(value)
    } else if same_text(symbol, "defun") {
        let r = eval_defun(list, env);
        assert(form_spec(f, symbol@, iv, env0, none) == Run::Done(outcome(r), env@, none));
        r
    } else {
        proof {
            assert forall|rs: Seq<Reply<N, P>>| #[trigger] stops(call_spec(f, symbol@, iv, env0, rs)) by {
                assert(stops(form_spec(f, symbol@, iv, env0, rs)));
            }
        }
        let r = eval_function_call(symbol, list, env, ctx, Ghost(f));
        proof {
            let t = since(r0, ctx.replies());
            assert(form_spec(f, symbol@, iv, env0, t) == Run::Done(outcome(r), env@, none));
        }
        r
    }
}

/// Whether every item of V is a symbol.
fn all_symbols<N, P>(v: &Vec<LispExp<N, P>>) -> (r: bool)
    ensures
        r == forall|j: int| 0 <= j < items_view(v@).len() ==> #[trigger] items_view(v@)[j] is Symbol,
{
    proof {
        lemma_items_view(v@);
    }
    let mut i: usize = 0;
    while i < v.len()
        invariant
            i <= v@.len(),
            items_view(v@).len() == v@.len(),
            forall|j: int| 0 <= j < v@.len() ==> #[trigger] items_view(v@)[j] == v@[j]@,
            forall|j: int| 0 <= j < i ==> #[trigger] items_view(v@)[j] is Symbol,
        decreases v@.len() - i,
    {
        let is_symbol = match &v[i] {
            LispExp::Symbol(_) => true,
            _ => false,
        };
        if !is_symbol {
            assert(!(items_view(v@)[i as int] is Symbol));
            return false;
        }
        i = i + 1;
    }
    true
}

/// `(defun NAME PARAMS BODY)`: binds NAME, as a function, to
/// `(lambda PARAMS BODY)` in this call's frame.
fn eval_defun<N: Copy, P: Copy>(list: &Vec<LispExp<N, P>>, env: &mut Env<N, P>) -> (r: Result<LispExp<N, P>, EvalError>)
    requires
        old(env).wf(),
    ensures
        final(env).wf(),
        final(env)@.len() == old(env)@.len(),
        (outcome(r), final(env)@) == defun_spec(items_view(list@), old(env)@),
{
    proof {
        lemma_items_view(list@);
        env.lemma_frames();
    }
    if list.len() < 4 {
        return Err(EvalError::DefunNotCorrectExpression);
    }
    match &list[1] {
        LispExp::Symbol(func_name) => match &list[2] {
            LispExp::List(params) => {
                proof {
                    lemma_items_view(params@);
                }
                if !all_symbols(params) {
                    return Err(EvalError::DefunParamIsNotASymbol);
                }
                let mut lambda: Vec<LispExp<N, P>> = Vec::new();
                lambda.push(LispExp::Symbol("lambda".to_owned()));
                lambda.push(list[2].duplicate());
                lambda.push(list[3].duplicate());
                proof {
                    lemma_items_view(lambda@);
                    assert(items_view(lambda@) =~= seq![LispView::Symbol("lambda"@), list@[2]@, list@[3]@]);
                }
                env.set_function(func_name.clone(), LispExp::List(lambda));
                Ok(LispExp::Symbol(func_name.clone()))
            },
            _ => Err(EvalError::DefunParamsAreNotAList),
        },
        _ => Err(EvalError::DefunNameMustBeASymbol),
    }
}

/// Calls the function SYMBOL with the rest of LIST as its arguments: they
/// are evaluated first, left to right, and the function is looked up after.
/// A lambda's body is evaluated in a new frame binding its parameters; a
/// primitive is run by CTX.
fn eval_function_call<N: Copy, P: Copy, H: LispHost<N, P>>(
    symbol: &str,
    list: &Vec<LispExp<N, P>>,
    env: &mut Env<N, P>,
    ctx: &mut Recording<N, P, H>,
    Ghost(f): Ghost<nat>,
) -> (r: Result<LispExp<N, P>, EvalError>)
    requires
        old(env).wf(),
        list@.len() >= 1,
        forall|rs: Seq<Reply<N, P>>| #[trigger] stops(call_spec(f, symbol@, items_view(list@), old(env)@, rs)),
    ensures
        final(env).wf(),
        final(env)@.len() == old(env)@.len(),
        extends(old(ctx).replies(), final(ctx).replies()),
        call_spec(f, symbol@, items_view(list@), old(env)@, since(old(ctx).replies(), final(ctx).replies())) == Run::Done(
                outcome(r),
                final(env)@,
                Seq::<Reply<N, P>>::empty(),
            ),
    decreases f, items_view(list@), list@.len() + 1,
{
    let ghost iv = items_view(list@);
    let ghost env0 = env@;
    let ghost r0 = ctx.replies();
    proof {
        lemma_since_nothing(r0);
    }
    let ghost none = Seq::<Reply<N, P>>::empty();
    proof {
        assert forall|rs: Seq<Reply<N, P>>| #[trigger] stops(items_spec(f, iv, 1, env0, rs, Seq::empty())) by {
            assert(stops(call_spec(f, symbol@, iv, env0, rs)));
        }
    }
    let evaluated = eval_items(list, 1, env, ctx, Ghost(f));
    let ghost r1 = ctx.replies();
    let ghost t1 = since(r0, r1);
    let ghost env1 = env@;
    let args = match evaluated {
        Ok(a) => a,
        Err(e) => {
            assert(call_spec(f, symbol@, iv, env0, t1) == Run::Done(outcome::<N, P>(Err(e)), env@, none));
            return Err(e);
        },
    };
    let ghost av = items_view(args@);
    proof {
        lemma_items_view(args@);
        assert forall|more: Seq<Reply<N, P>>| #[trigger] items_spec(f, iv, 1, env0, t1 + more, Seq::empty())
            == Run::<Seq<LispView<N, P>>, N, P>::Done(Ok(av), env1, more) by {
            lemma_items_more(f, iv, 1, env0, t1, Seq::empty(), more);
            assert(none + more =~= more);
        }
    }
    match env.get_func(symbol) {
        None => {
            let e = EvalError::UndefinedFunction(symbol.to_owned());
            proof {
                assert(t1 + none =~= t1);
                assert(items_spec(f, iv, 1, env0, t1 + none, Seq::empty()) == Run::<Seq<LispView<N, P>>, N, P>::Done(Ok(av), env1, none));
                assert(call_spec(f, symbol@, iv, env0, t1) == Run::Done(outcome::<N, P>(Err(e)), env@, none));
            }
            Err(e)
        },
        Some(LispExp::List(lambda_ast)) => {
            let ghost lam = items_view(lambda_ast@);
            proof {
                lemma_items_view(lambda_ast@);
                assert(t1 + none =~= t1);
                assert(items_spec(f, iv, 1, env0, t1 + none, Seq::empty()) == Run::<Seq<LispView<N, P>>, N, P>::Done(Ok(av), env1, none));
            }
            if lambda_ast.len() != 3 {
                let e = EvalError::UncorrectFunctionDefinition;
                assert(call_spec(f, symbol@, iv, env0, t1) == Run::Done(outcome::<N, P>(Err(e)), env@, none));
                return Err(e);
            }
            proof {
                assert(stops(call_spec(f, symbol@, iv, env0, t1)));
            }
            let mut caller = Env::new();
            std::mem::swap(&mut caller, env);
            let mut frame = Env::extend(caller);
            let ghost vars = match lam[1] {
                LispView::List(ps) => bind_params(ps, av, ps.len() as int),
                _ => Map::empty(),
            };
            match &lambda_ast[1] {
                LispExp::List(params) => {
                    let ghost ps = items_view(params@);
                    proof {
                        lemma_items_view(params@);
                        assert(!missing_argument(ps, av));
                        assert(bind_params(ps, av, 0) =~= Map::<Seq<char>, LispView<N, P>>::empty());
                    }
                    let mut i: usize = 0;
                    while i < params.len()
                        invariant
                            i <= params@.len(),
                            ps == items_view(params@),
                            ps.len() == params@.len(),
                            forall|j: int| 0 <= j < params@.len() ==> #[trigger] ps[j] == params@[j]@,
                            av == items_view(args@),
                            av.len() == args@.len(),
                            forall|j: int| 0 <= j < args@.len() ==> #[trigger] av[j] == args@[j]@,
                            !missing_argument(ps, av),
                            frame.wf(),
                            frame@ == env1.push(FrameView { variables: bind_params(ps, av, i as int), functions: Map::empty() }),
                        decreases params@.len() - i,
                    {
                        proof {
                            frame.lemma_frames();
                        }
                        let ghost before = frame@;
                        if let LispExp::Symbol(param_name) = &params[i] {
                            proof {
                                assert(ps[i as int] is Symbol);
                                assert(i < args@.len());
                            }
                            frame.set_variable(param_name.clone(), args[i].duplicate());
                            proof {
                                assert(frame@ =~= env1.push(FrameView { variables: bind_params(ps, av, i + 1), functions: Map::empty() }));
                            }
                        } else {
                            proof {
                                assert(bind_params(ps, av, i + 1) == bind_params(ps, av, i as int));
                            }
                        }
                        i = i + 1;
                    }
                },
                _ => {
                    proof {
                        assert(vars =~= Map::<Seq<char>, LispView<N, P>>::empty());
                    }
                },
            }
            let ghost frame_spec = FrameView { variables: vars, functions: Map::<Seq<char>, LispView<N, P>>::empty() };
            assert(frame@ == env1.push(frame_spec));
            assert(f > 0);
            let ghost g = (f - 1) as nat;
            proof {
                assert forall|rs: Seq<Reply<N, P>>| #[trigger] stops(eval_spec(g, lambda_ast@[2]@, frame@, rs)) by {
                    assert(items_spec(f, iv, 1, env0, t1 + rs, Seq::empty()) == Run::<Seq<LispView<N, P>>, N, P>::Done(Ok(av), env1, rs));
                    assert(lookup(env1, symbol@, true) == Some(LispView::List(lam)));
                    assert(lam.len() == 3);
                    assert(!(lam[1] matches LispView::List(ps) && missing_argument(ps, av)));
                    assert(lam[2] == lambda_ast@[2]@);
                    assert(stops(call_spec(f, symbol@, iv, env0, t1 + rs)));
                }
            }
            let ghost frame_before = frame@;
            let r = eval_in(&lambda_ast[2], &mut frame, ctx, Ghost(g));
            let ghost t2 = since(r1, ctx.replies());
            proof {
                lemma_since_chain(r0, r1, ctx.replies());
            }
            let ghost frame_after = frame@;
            proof {
                frame.lemma_frames();
            }
            match frame.outer {
                Some(b) => {
                    proof {
                        assert(b@ =~= frame_after.drop_last());
                    }
                    *env = *b;
                },
                None => {
                    assert(false);
                },
            }
            proof {
                assert(items_spec(f, iv, 1, env0, t1 + t2, Seq::empty()) == Run::<Seq<LispView<N, P>>, N, P>::Done(Ok(av), env1, t2));
                assert(lookup(env1, symbol@, true) == Some(LispView::List(lam)));
                assert(!(lam[1] matches LispView::List(ps) && missing_argument(ps, av)));
                assert(lam[2] == lambda_ast@[2]@);
                assert(eval_spec(g, lam[2], env1.push(frame_spec), t2) == Run::Done(outcome(r), frame_after, none));
                assert(call_spec(f, symbol@, iv, env0, t1 + t2) == Run::Done(outcome(r), env@, none));
            }
            r
        },
        Some(LispExp::Primitive(p)) => {
            let r = ctx.call_primitive(p, args.as_slice());
            let ghost reply = Reply { primitive: p, args: av, answer: outcome(r) };
            proof {
                assert(ctx.replies().take(r1.len() as int) =~= r1);
                assert(since(r1, ctx.replies()) =~= seq![reply]);
                lemma_since_chain(r0, r1, ctx.replies());
                let t = t1 + seq![reply];
                assert(items_spec(f, iv, 1, env0, t1 + seq![reply], Seq::empty()) == Run::<Seq<LispView<N, P>>, N, P>::Done(Ok(av), env1, seq![reply]));
                assert(seq![reply].drop_first() =~= none);
                assert(call_spec(f, symbol@, iv, env0, t) == Run::Done(outcome(r), env@, none));
            }
            r
        },
        Some(_) => {
            let e = EvalError::UncorrectFunctionDefinition;
            proof {
                assert(t1 + none =~= t1);
                assert(items_spec(f, iv, 1, env0, t1 + none, Seq::empty()) == Run::<Seq<LispView<N, P>>, N, P>::Done(Ok(av), env1, none));
                assert(call_spec(f, symbol@, iv, env0, t1) == Run::Done(outcome::<N, P>(Err(e)), env@, none));
            }
            Err(e)
        },
    }
}

/// Whether B is A with at most its innermost frame changed.
pub open spec fn same_outer<N, P>(a: Seq<FrameView<N, P>>, b: Seq<FrameView<N, P>>) -> bool {
    &&& a.len() >= 1
    &&& b.len() == a.len()
    &&& b.drop_last() == a.drop_last()
}

/// Whether a run that finished left every frame but the innermost of ENV as
/// it was.
pub open spec fn keeps_outer<T, N, P>(r: Run<T, N, P>, env: Seq<FrameView<N, P>>) -> bool {
    r matches Run::Done(_, env2, _) ==> same_outer(env, env2)
}

/// Evaluation changes only the innermost frame: whatever a form does, the
/// frames of the calls it was made from come out as they went in, so the
/// parameters a function binds, and what it sets, do not outlive the call.
pub proof fn lemma_evaluation_keeps_outer_frames<N, P>(f: nat, e: LispView<N, P>, env: Seq<FrameView<N, P>>, rs: Seq<Reply<N, P>>)
    requires
        env.len() >= 1,
    ensures
        keeps_outer(eval_spec(f, e, env, rs), env),
    decreases f, e, 0nat,
{
    match e {
        LispView::List(items) => {
            if items.len() > 0 {
                if let LispView::Symbol(s) = items[0] {
                    lemma_form_keeps_outer(f, s, items, env, rs);
                }
            }
        },
        LispView::Vector(items) => {
            lemma_items_keep_outer(f, items, 0, env, rs, Seq::empty());
        },
        _ => {},
    }
}

proof fn lemma_items_keep_outer<N, P>(
    f: nat,
    items: Seq<LispView<N, P>>,
    k: int,
    env: Seq<FrameView<N, P>>,
    rs: Seq<Reply<N, P>>,
    acc: Seq<LispView<N, P>>,
)
    requires
        env.len() >= 1,
    ensures
        keeps_outer(items_spec(f, items, k, env, rs, acc), env),
    decreases f, items, items_left(items.len(), k),
{
    if 0 <= k < items.len() {
        lemma_evaluation_keeps_outer_frames(f, items[k], env, rs);
        if let Run::Done(Ok(v), env1, rs1) = eval_spec(f, items[k], env, rs) {
            lemma_items_keep_outer(f, items, k + 1, env1, rs1, acc.push(v));
        }
    }
}

proof fn lemma_form_keeps_outer<N, P>(f: nat, s: Seq<char>, items: Seq<LispView<N, P>>, env: Seq<FrameView<N, P>>, rs: Seq<Reply<N, P>>)
    requires
        env.len() >= 1,
    ensures
        keeps_outer(form_spec(f, s, items, env, rs), env),
    decreases f, items, items.len() + 2,
{
    if s == "if"@ {
    } else if s == "setq"@ {
        if items.len() != 2 {
            lemma_setq_keeps_outer(f, items, 1, env, rs, Seq::empty(), LispView::Symbol("nil"@), true);
        }
    } else if s == "defun"@ {
        let env2 = defun_spec(items, env).1;
        if env2 != env {
            assert(env2.drop_last() =~= env.drop_last());
        }
    } else {
        lemma_call_keeps_outer(f, s, items, env, rs);
    }
}

proof fn lemma_setq_keeps_outer<N, P>(
    f: nat,
    items: Seq<LispView<N, P>>,
    k: int,
    env: Seq<FrameView<N, P>>,
    rs: Seq<Reply<N, P>>,
    name: Seq<char>,
    value: LispView<N, P>,
    next_is_name: bool,
)
    requires
        env.len() >= 1,
    ensures
        keeps_outer(setq_spec(f, items, k, env, rs, name, value, next_is_name), env),
    decreases f, items, items_left(items.len(), k),
{
    if 0 <= k < items.len() {
        if next_is_name {
            if let LispView::Symbol(n) = items[k] {
                lemma_setq_keeps_outer(f, items, k + 1, env, rs, n, value, false);
            }
        } else {
            lemma_evaluation_keeps_outer_frames(f, items[k], env, rs);
            if let Run::Done(Ok(v), env1, rs1) = eval_spec(f, items[k], env, rs) {
                let env2 = set_variable(env1, name, v);
                assert(env2.drop_last() =~= env1.drop_last());
                lemma_setq_keeps_outer(f, items, k + 1, env2, rs1, name, v, true);
            }
        }
    }
}

proof fn lemma_call_keeps_outer<N, P>(f: nat, s: Seq<char>, items: Seq<LispView<N, P>>, env: Seq<FrameView<N, P>>, rs: Seq<Reply<N, P>>)
    requires
        env.len() >= 1,
    ensures
        keeps_outer(call_spec(f, s, items, env, rs), env),
    decreases f, items, items.len() + 1,
{
    lemma_items_keep_outer(f, items, 1, env, rs, Seq::empty());
    if let Run::Done(Ok(args), env1, rs1) = items_spec(f, items, 1, env, rs, Seq::empty()) {
        if let Some(LispView::List(lam)) = lookup(env1, s, true) {
            if lam.len() == 3 && !(lam[1] matches LispView::List(ps) && missing_argument(ps, args)) && f > 0 {
                let vars = match lam[1] {
                    LispView::List(ps) => bind_params(ps, args, ps.len() as int),
                    _ => Map::empty(),
                };
                let frame = FrameView { variables: vars, functions: Map::empty() };
                lemma_evaluation_keeps_outer_frames((f - 1) as nat, lam[2], env1.push(frame), rs1);
                assert(env1.push(frame).drop_last() =~= env1);
            }
        }
    }
}

/// A symbol's variable and its function are apart: setting a variable never
/// changes what any name means as a function, and defining a function never
/// changes what any name means as a variable.
pub proof fn lemma_namespaces_are_apart<N, P>(frames: Seq<FrameView<N, P>>, name: Seq<char>, v: LispView<N, P>, other: Seq<char>)
    requires
        frames.len() >= 1,
    ensures
        lookup(set_variable(frames, name, v), other, true) == lookup(frames, other, true),
        lookup(set_function(frames, name, v), other, false) == lookup(frames, other, false),
        lookup(set_variable(frames, name, v), name, false) == Some(v),
        lookup(set_function(frames, name, v), name, true) == Some(v),
{
    assert(set_variable(frames, name, v).drop_last() =~= frames.drop_last());
    assert(set_function(frames, name, v).drop_last() =~= frames.drop_last());
}

/// Once evaluation halts within some fuel, more fuel changes nothing: every
/// fuel within which it halts gives the same run.
pub proof fn lemma_more_fuel_changes_nothing<N, P>(f: nat, g: nat, e: LispView<N, P>, env: Seq<FrameView<N, P>>, rs: Seq<Reply<N, P>>)
    requires
        f <= g,
        stops(eval_spec(f, e, env, rs)),
    ensures
        eval_spec(g, e, env, rs) == eval_spec(f, e, env, rs),
    decreases f, e, 0nat,
{
    match e {
        LispView::List(items) => {
            if items.len() > 0 {
                if let LispView::Symbol(s) = items[0] {
                    lemma_form_more_fuel(f, g, s, items, env, rs);
                }
            }
        },
        LispView::Vector(items) => {
            lemma_items_more_fuel(f, g, items, 0, env, rs, Seq::empty());
        },
        _ => {},
    }
}

proof fn lemma_items_more_fuel<N, P>(
    f: nat,
    g: nat,
    items: Seq<LispView<N, P>>,
    k: int,
    env: Seq<FrameView<N, P>>,
    rs: Seq<Reply<N, P>>,
    acc: Seq<LispView<N, P>>,
)
    requires
        f <= g,
        stops(items_spec(f, items, k, env, rs, acc)),
    ensures
        items_spec(g, items, k, env, rs, acc) == items_spec(f, items, k, env, rs, acc),
    decreases f, items, items_left(items.len(), k),
{
    if 0 <= k < items.len() {
        lemma_more_fuel_changes_nothing(f, g, items[k], env, rs);
        if let Run::Done(Ok(v), env1, rs1) = eval_spec(f, items[k], env, rs) {
            lemma_items_more_fuel(f, g, items, k + 1, env1, rs1, acc.push(v));
        }
    }
}

proof fn lemma_form_more_fuel<N, P>(f: nat, g: nat, s: Seq<char>, items: Seq<LispView<N, P>>, env: Seq<FrameView<N, P>>, rs: Seq<Reply<N, P>>)
    requires
        f <= g,
        stops(form_spec(f, s, items, env, rs)),
    ensures
        form_spec(g, s, items, env, rs) == form_spec(f, s, items, env, rs),
    decreases f, items, items.len() + 2,
{
    if s == "if"@ {
    } else if s == "setq"@ {
        if items.len() != 2 {
            lemma_setq_more_fuel(f, g, items, 1, env, rs, Seq::empty(), LispView::Symbol("nil"@), true);
        }
    } else if s == "defun"@ {
    } else {
        lemma_call_more_fuel(f, g, s, items, env, rs);
    }
}

proof fn lemma_setq_more_fuel<N, P>(
    f: nat,
    g: nat,
    items: Seq<LispView<N, P>>,
    k: int,
    env: Seq<FrameView<N, P>>,
    rs: Seq<Reply<N, P>>,
    name: Seq<char>,
    value: LispView<N, P>,
    next_is_name: bool,
)
    requires
        f <= g,
        stops(setq_spec(f, items, k, env, rs, name, value, next_is_name)),
    ensures
        setq_spec(g, items, k, env, rs, name, value, next_is_name) == setq_spec(f, items, k, env, rs, name, value, next_is_name),
    decreases f, items, items_left(items.len(), k),
{
    if 0 <= k < items.len() {
        if next_is_name {
            if let LispView::Symbol(n) = items[k] {
                lemma_setq_more_fuel(f, g, items, k + 1, env, rs, n, value, false);
            }
        } else {
            lemma_more_fuel_changes_nothing(f, g, items[k], env, rs);
            if let Run::Done(Ok(v), env1, rs1) = eval_spec(f, items[k], env, rs) {
                lemma_setq_more_fuel(f, g, items, k + 1, set_variable(env1, name, v), rs1, name, v, true);
            }
        }
    }
}

proof fn lemma_call_more_fuel<N, P>(f: nat, g: nat, s: Seq<char>, items: Seq<LispView<N, P>>, env: Seq<FrameView<N, P>>, rs: Seq<Reply<N, P>>)
    requires
        f <= g,
        stops(call_spec(f, s, items, env, rs)),
    ensures
        call_spec(g, s, items, env, rs) == call_spec(f, s, items, env, rs),
    decreases f, items, items.len() + 1,
{
    lemma_items_more_fuel(f, g, items, 1, env, rs, Seq::empty());
    if let Run::Done(Ok(args), env1, rs1) = items_spec(f, items, 1, env, rs, Seq::empty()) {
        if let Some(LispView::List(lam)) = lookup(env1, s, true) {
            if lam.len() == 3 && !(lam[1] matches LispView::List(ps) && missing_argument(ps, args)) && f > 0 {
                let vars = match lam[1] {
                    LispView::List(ps) => bind_params(ps, args, ps.len() as int),
                    _ => Map::empty(),
                };
                let frame = FrameView { variables: vars, functions: Map::empty() };
                lemma_more_fuel_changes_nothing((f - 1) as nat, (g - 1) as nat, lam[2], env1.push(frame), rs1);
            }
        }
    }
}

} // verus!
