//! The reader's side of the editor's Lisp: the expressions it builds, and
//! the reader that builds them from text.
use vstd::prelude::*;
use vstd::std_specs::iter::IteratorSpec;

verus! {

/// An expression as the reader builds it.
///
/// Numbers keep the text they were written with: turning that text into a
/// floating-point value is the evaluator's business, not the reader's.
#[derive(Debug, PartialEq)]
pub enum Sexp {
    List(Vec<Sexp>),
    Vector(Vec<Sexp>),
    /// Keys in the order they were first written; a key written twice keeps
    /// the place of its first writing and the value of its last.
    Dict(Vec<(String, Sexp)>),
    Number(String),
    Symbol(String),
    String(String),
}

impl Sexp {
    pub fn symbol(name: &str) -> (r: Sexp)
        ensures
            r matches Sexp::Symbol(s) && s@ == name@,
    {
        Sexp::Symbol(name.to_owned())
    }

    pub fn string(text: String) -> (r: Sexp)
        ensures
            r == Sexp::String(text),
    {
        Sexp::String(text)
    }

    /// A call: the head and its arguments as one list.
    pub fn form(items: Vec<Sexp>) -> (r: Sexp)
        ensures
            r == Sexp::List(items),
    {
        Sexp::List(items)
    }
}


/// An expression as a value.
pub enum SexpView {
    List(Seq<SexpView>),
    Vector(Seq<SexpView>),
    Dict(Seq<(Seq<char>, SexpView)>),
    Number(Seq<char>),
    Symbol(Seq<char>),
    String(Seq<char>),
}

pub open spec fn sexp_view(e: Sexp) -> SexpView
    decreases e,
{
    match e {
        Sexp::List(v) => SexpView::List(sexps_view(v@)),
        Sexp::Vector(v) => SexpView::Vector(sexps_view(v@)),
        Sexp::Dict(v) => SexpView::Dict(pairs_view(v@)),
        Sexp::Number(s) => SexpView::Number(s@),
        Sexp::Symbol(s) => SexpView::Symbol(s@),
        Sexp::String(s) => SexpView::String(s@),
    }
}

pub open spec fn sexps_view(s: Seq<Sexp>) -> Seq<SexpView>
    decreases s,
{
    if s.len() == 0 {
        Seq::empty()
    } else {
        sexps_view(s.drop_last()).push(sexp_view(s.last()))
    }
}

pub open spec fn pairs_view(s: Seq<(String, Sexp)>) -> Seq<(Seq<char>, SexpView)>
    decreases s,
{
    if s.len() == 0 {
        Seq::empty()
    } else {
        pairs_view(s.drop_last()).push((s.last().0@, sexp_view(s.last().1)))
    }
}

impl View for Sexp {
    type V = SexpView;

    open spec fn view(&self) -> SexpView {
        sexp_view(*self)
    }
}

/// What a list's view says about its items.
pub proof fn lemma_sexp_list_view(e: Sexp)
    ensures
        e matches Sexp::List(v) ==> ({
            &&& e@ == SexpView::List(sexps_view(v@))
            &&& sexps_view(v@).len() == v@.len()
            &&& forall|i: int| 0 <= i < v@.len() ==> #[trigger] sexps_view(v@)[i] == v@[i]@
        }),
{
    if let Sexp::List(v) = e {
        lemma_sexps_view(v@);
    }
}

/// A piece of the text, as the reader sees it.
#[derive(Clone, Debug, PartialEq)]
pub enum Token {
    /// Nothing has been read yet.
    Uninitialized,
    /// The text is used up.
    Void,
    LParen,
    RParen,
    LSquared,
    RSquared,
    LBracket,
    RBracket,
    /// A number, as written.
    Number(String),
    String(String),
    Symbol(String),
}

/// A token as the text gives it.
pub enum TokenView {
    Uninitialized,
    Void,
    LParen,
    RParen,
    LSquared,
    RSquared,
    LBracket,
    RBracket,
    Number(Seq<char>),
    String(Seq<char>),
    Symbol(Seq<char>),
}

impl View for Token {
    type V = TokenView;

    open spec fn view(&self) -> TokenView {
        match self {
            Token::Uninitialized => TokenView::Uninitialized,
            Token::Void => TokenView::Void,
            Token::LParen => TokenView::LParen,
            Token::RParen => TokenView::RParen,
            Token::LSquared => TokenView::LSquared,
            Token::RSquared => TokenView::RSquared,
            Token::LBracket => TokenView::LBracket,
            Token::RBracket => TokenView::RBracket,
            Token::Number(s) => TokenView::Number(s@),
            Token::String(s) => TokenView::String(s@),
            Token::Symbol(s) => TokenView::Symbol(s@),
        }
    }
}

/// Why a text could not be read.
#[derive(Clone, Debug, PartialEq)]
pub enum ParserError {
    // Lexing
    UnbalancedRParen,
    UnbalancedRSquared,
    UnbalancedRBracket,
    NumberParseError(String),
    NumberInvadidChar(char),
    UnclosedString,
    // Parsing
    VoidExp,
    UnclosedList,
    UnclosedVector,
    UnclosedMap,
    InvalidMapKey,
    MapKeyMissingValue,
}

/// A reading error as the text gives it.
pub enum ErrorView {
    UnbalancedRParen,
    UnbalancedRSquared,
    UnbalancedRBracket,
    NumberParseError(Seq<char>),
    NumberInvadidChar(char),
    UnclosedString,
    VoidExp,
    UnclosedList,
    UnclosedVector,
    UnclosedMap,
    InvalidMapKey,
    MapKeyMissingValue,
}

impl View for ParserError {
    type V = ErrorView;

    open spec fn view(&self) -> ErrorView {
        match self {
            ParserError::UnbalancedRParen => ErrorView::UnbalancedRParen,
            ParserError::UnbalancedRSquared => ErrorView::UnbalancedRSquared,
            ParserError::UnbalancedRBracket => ErrorView::UnbalancedRBracket,
            ParserError::NumberParseError(s) => ErrorView::NumberParseError(s@),
            ParserError::NumberInvadidChar(c) => ErrorView::NumberInvadidChar(*c),
            ParserError::UnclosedString => ErrorView::UnclosedString,
            ParserError::VoidExp => ErrorView::VoidExp,
            ParserError::UnclosedList => ErrorView::UnclosedList,
            ParserError::UnclosedVector => ErrorView::UnclosedVector,
            ParserError::UnclosedMap => ErrorView::UnclosedMap,
            ParserError::InvalidMapKey => ErrorView::InvalidMapKey,
            ParserError::MapKeyMissingValue => ErrorView::MapKeyMissingValue,
        }
    }
}

/// What the lexer is in the middle of.
#[derive(Clone, Copy, Debug, PartialEq, Eq, Structural)]
pub enum LexState {
    Default,
    InSymbol,
    InString,
    InStringSlash,
    InNumber,
    InNumberAfterDot,
}

/// Everything the lexer knows: the text, how far it has read, what it is in
/// the middle of, the characters of the token so far, and the brackets still
/// open.
pub struct LexView {
    pub chars: Seq<char>,
    pub pos: int,
    pub state: LexState,
    pub token: Seq<char>,
    pub stack: Seq<TokenView>,
}

/// How a request for the next token ends.
pub enum LexOutcome {
    /// The text is used up.
    Done(LexView),
    /// A token, and the lexer after it.
    Emit(TokenView, LexView),
    /// An error, and the lexer as it was left.
    Fail(ErrorView, LexView),
}

/// One character's worth of lexing.
pub enum LexStep {
    /// The character was taken in; carry on.
    Continue(LexView),
    /// The request ends here.
    Stop(LexOutcome),
}

pub open spec fn is_blank(c: char) -> bool {
    c == ' ' || c == '\t' || c == '\n'
}

pub open spec fn is_bracket(c: char) -> bool {
    c == '(' || c == '[' || c == '{' || c == ')' || c == ']' || c == '}'
}

pub open spec fn is_digit(c: char) -> bool {
    '0' <= c <= '9'
}

/// How many characters of `s` pass `p`.
pub open spec fn count_where(s: Seq<char>, p: spec_fn(char) -> bool) -> nat
    decreases s.len(),
{
    if s.len() == 0 {
        0
    } else {
        count_where(s.drop_last(), p) + if p(s.last()) {
            1nat
        } else {
            0nat
        }
    }
}

/// Whether `s` is made of digits and at most one dot, with at least one
/// digit.
pub open spec fn float_body(s: Seq<char>) -> bool {
    &&& count_where(s, |c: char| !(is_digit(c) || c == '.')) == 0
    &&& count_where(s, |c: char| c == '.') <= 1
    &&& count_where(s, |c: char| is_digit(c)) > 0
}

/// Whether the characters of a number token spell a number: an optional
/// minus sign, digits with at most one dot among them, and at least one
/// digit. This is Rust's syntax for a float as far as the characters a number
/// token can hold, so that "5." and ".5" are numbers and "." and "1.2." are
/// not.
pub open spec fn is_number_text(s: Seq<char>) -> bool {
    if s.len() > 0 && s[0] == '-' {
        float_body(s.drop_first())
    } else {
        float_body(s)
    }
}

/// The lexer with `c` added to the token.
pub open spec fn take_char(v: LexView, c: char, state: LexState) -> LexView {
    LexView { pos: v.pos + 1, state, token: v.token.push(c), ..v }
}

/// A closing bracket: it must close the innermost open bracket. The open
/// bracket is taken off the stack either way.
pub open spec fn close_bracket(v: LexView, opener: TokenView, closer: TokenView, err: ErrorView) -> LexStep {
    let popped = if v.stack.len() > 0 {
        v.stack.drop_last()
    } else {
        v.stack
    };
    if v.stack.len() > 0 && v.stack.last() == opener {
        LexStep::Stop(LexOutcome::Emit(closer, LexView { pos: v.pos + 1, stack: popped, ..v }))
    } else {
        LexStep::Stop(LexOutcome::Fail(err, LexView { stack: popped, ..v }))
    }
}

/// The end of a number: its characters are taken, and it is a token if they
/// spell a number. A blank that ends it is consumed; a bracket is left for
/// the next token.
pub open spec fn end_number(v: LexView, consume: bool) -> LexStep {
    let t = v.token;
    if is_number_text(t) {
        LexStep::Stop(LexOutcome::Emit(TokenView::Number(t), LexView {
            pos: if consume {
                v.pos + 1
            } else {
                v.pos
            },
            state: LexState::Default,
            token: Seq::empty(),
            ..v
        }))
    } else {
        LexStep::Stop(LexOutcome::Fail(ErrorView::NumberParseError(t), LexView { token: Seq::empty(), ..v }))
    }
}

/// What the lexer does with the character under it.
pub open spec fn lex_step(v: LexView) -> LexStep
    recommends
        0 <= v.pos < v.chars.len(),
{
    let c = v.chars[v.pos];
    let next = LexView { pos: v.pos + 1, ..v };
    match v.state {
        LexState::Default => {
            if c == '(' {
                LexStep::Stop(LexOutcome::Emit(TokenView::LParen, LexView { stack: v.stack.push(TokenView::LParen), ..next }))
            } else if c == '[' {
                LexStep::Stop(LexOutcome::Emit(TokenView::LSquared, LexView { stack: v.stack.push(TokenView::LSquared), ..next }))
            } else if c == '{' {
                LexStep::Stop(LexOutcome::Emit(TokenView::LBracket, LexView { stack: v.stack.push(TokenView::LBracket), ..next }))
            } else if c == ')' {
                close_bracket(v, TokenView::LParen, TokenView::RParen, ErrorView::UnbalancedRParen)
            } else if c == ']' {
                close_bracket(v, TokenView::LSquared, TokenView::RSquared, ErrorView::UnbalancedRSquared)
            } else if c == '}' {
                close_bracket(v, TokenView::LBracket, TokenView::RBracket, ErrorView::UnbalancedRBracket)
            } else if is_blank(c) {
                LexStep::Continue(next)
            } else if c == '"' {
                LexStep::Continue(LexView { state: LexState::InString, ..next })
            } else if c == '.' || c == '-' || is_digit(c) {
                LexStep::Continue(take_char(v, c, LexState::InNumber))
            } else {
                LexStep::Continue(take_char(v, c, LexState::InSymbol))
            }
        },
        LexState::InSymbol => {
            if is_blank(c) {
                LexStep::Stop(LexOutcome::Emit(TokenView::Symbol(v.token), LexView { state: LexState::Default, token: Seq::empty(), ..next }))
            } else if is_bracket(c) {
                LexStep::Stop(LexOutcome::Emit(TokenView::Symbol(v.token), LexView { state: LexState::Default, token: Seq::empty(), ..v }))
            } else {
                LexStep::Continue(take_char(v, c, LexState::InSymbol))
            }
        },
        LexState::InString => {
            if c == '"' {
                LexStep::Stop(LexOutcome::Emit(TokenView::String(v.token), LexView { state: LexState::Default, token: Seq::empty(), ..next }))
            } else if c == '\\' {
                LexStep::Continue(LexView { state: LexState::InStringSlash, ..next })
            } else {
                LexStep::Continue(take_char(v, c, LexState::InString))
            }
        },
        LexState::InStringSlash => {
            if c == '"' || c == '\\' {
                LexStep::Continue(take_char(v, c, LexState::InString))
            } else {
                LexStep::Continue(LexView { pos: v.pos + 1, state: LexState::InString, token: v.token.push('\\').push(c), ..v })
            }
        },
        LexState::InNumber => {
            if is_digit(c) {
                LexStep::Continue(take_char(v, c, LexState::InNumber))
            } else if c == '.' {
                LexStep::Continue(take_char(v, c, LexState::InNumberAfterDot))
            } else if is_bracket(c) {
                end_number(v, false)
            } else if is_blank(c) {
                end_number(v, true)
            } else {
                LexStep::Stop(LexOutcome::Fail(ErrorView::NumberInvadidChar(c), v))
            }
        },
        LexState::InNumberAfterDot => {
            if is_digit(c) {
                LexStep::Continue(take_char(v, c, LexState::InNumberAfterDot))
            } else if is_bracket(c) {
                end_number(v, false)
            } else if is_blank(c) {
                end_number(v, true)
            } else {
                LexStep::Stop(LexOutcome::Fail(ErrorView::NumberParseError(v.token.push(c)), LexView { token: v.token.push(c), ..v }))
            }
        },
    }
}

/// What the lexer does when the text runs out: a pending symbol or number is
/// the last token, an unfinished string is an error.
pub open spec fn lex_end(v: LexView) -> LexOutcome {
    match v.state {
        LexState::Default => LexOutcome::Done(v),
        LexState::InSymbol => LexOutcome::Emit(TokenView::Symbol(v.token), LexView { state: LexState::Default, token: Seq::empty(), ..v }),
        LexState::InNumber | LexState::InNumberAfterDot => match end_number(v, false) {
            LexStep::Stop(o) => o,
            LexStep::Continue(w) => LexOutcome::Done(w),
        },
        LexState::InString | LexState::InStringSlash => LexOutcome::Fail(ErrorView::UnclosedString, v),
    }
}

/// The next token: characters are taken in until one ends a token, or the
/// text runs out.
pub open spec fn lex_run(v: LexView) -> LexOutcome
    decreases v.chars.len() - v.pos,
{
    if v.pos < 0 || v.pos >= v.chars.len() {
        lex_end(v)
    } else {
        match lex_step(v) {
            LexStep::Continue(w) => if w.pos == v.pos + 1 && w.chars == v.chars {
                lex_run(w)
            } else {
                LexOutcome::Done(w)
            },
            LexStep::Stop(o) => o,
        }
    }
}


/// Whether S holds no space, tab or newline.
pub open spec fn free_of_blanks(s: Seq<char>) -> bool {
    forall|i: int| 0 <= i < s.len() ==> #[trigger] s[i] != ' ' && s[i] != '\t' && s[i] != '\n'
}

/// A lexer that is not half-way through a token holds no characters of one,
/// and one half-way through a symbol has taken in no blank.
pub open spec fn clean_symbol_state(v: LexView) -> bool {
    &&& v.state == LexState::Default ==> v.token.len() == 0
    &&& v.state == LexState::InSymbol ==> free_of_blanks(v.token)
}

/// What a request for a token gives keeps the lexer clean, and a symbol it
/// hands out has no blank in it.
pub open spec fn emits_clean_symbols(o: LexOutcome) -> bool {
    match o {
        LexOutcome::Emit(t, w) => clean_symbol_state(w) && (t matches TokenView::Symbol(s) ==> free_of_blanks(s)),
        LexOutcome::Done(w) => clean_symbol_state(w),
        LexOutcome::Fail(_, _) => true,
    }
}

proof fn lemma_step_keeps_symbols_clean(v: LexView)
    requires
        0 <= v.pos < v.chars.len(),
        clean_symbol_state(v),
    ensures
        lex_step(v) matches LexStep::Continue(w) ==> clean_symbol_state(w),
        lex_step(v) matches LexStep::Stop(o) ==> emits_clean_symbols(o),
{
    let c = v.chars[v.pos];
    if v.state == LexState::InSymbol && !is_blank(c) && !is_bracket(c) {
        let t = v.token.push(c);
        assert forall|i: int| 0 <= i < t.len() implies #[trigger] t[i] != ' ' && t[i] != '\t' && t[i] != '\n' by {
            if i < v.token.len() {
                assert(t[i] == v.token[i]);
            }
        }
    }
    if v.state == LexState::Default && !is_blank(c) && !is_bracket(c) && c != '"' && !(c == '.' || c == '-'
        || is_digit(c)) {
        let t = v.token.push(c);
        assert(t =~= seq![c]);
    }
}

proof fn lemma_run_keeps_symbols_clean(v: LexView)
    requires
        clean_symbol_state(v),
    ensures
        emits_clean_symbols(lex_run(v)),
    decreases v.chars.len() - v.pos,
{
    if v.pos < 0 || v.pos >= v.chars.len() {
    } else {
        lemma_step_keeps_symbols_clean(v);
        match lex_step(v) {
            LexStep::Continue(w) => {
                if w.pos == v.pos + 1 && w.chars == v.chars {
                    lemma_run_keeps_symbols_clean(w);
                }
            },
            LexStep::Stop(_) => {},
        }
    }
}

/// A blank ends a symbol: whatever the text, no symbol the lexer hands out
/// holds a space, a tab or a newline -- from a fresh lexer, or one left by
/// any token before -- and the lexer it leaves is one this holds of again.
pub proof fn lemma_symbols_hold_no_blanks(v: LexView)
    requires
        clean_symbol_state(v),
    ensures
        lex_run(v) matches LexOutcome::Emit(t, w) ==> clean_symbol_state(w) && (t matches TokenView::Symbol(
            s,
        ) ==> free_of_blanks(s)),
        lex_run(v) matches LexOutcome::Done(w) ==> clean_symbol_state(w),
{
    lemma_run_keeps_symbols_clean(v);
}

/// A fresh lexer on TEXT.
pub open spec fn fresh_lexer(text: Seq<char>) -> LexView {
    LexView { chars: text, pos: 0, state: LexState::Default, token: Seq::empty(), stack: Seq::empty() }
}

/// Two symbols on two lines are two tokens: `a`, a newline and `b` lex to
/// the symbol `a`, then the symbol `b`, then nothing more.
pub proof fn lemma_newline_separates_symbols()
    ensures
        lex_run(fresh_lexer(seq!['a', '\n', 'b'])) matches LexOutcome::Emit(TokenView::Symbol(s1), w1)
            && (s1 == seq!['a'] && (lex_run(w1) matches LexOutcome::Emit(TokenView::Symbol(s2), w2) && (s2
            == seq!['b'] && lex_run(w2) is Done))),
{
    let text = seq!['a', '\n', 'b'];
    let v0 = fresh_lexer(text);
    let v1 = take_char(v0, 'a', LexState::InSymbol);
    assert(lex_step(v0) == LexStep::Continue(v1));
    let w1 = LexView { pos: 2, state: LexState::Default, token: Seq::empty(), ..v1 };
    assert(lex_step(v1) == LexStep::Stop(LexOutcome::Emit(TokenView::Symbol(seq!['a']), w1)));
    assert(lex_run(v1) == LexOutcome::Emit(TokenView::Symbol(seq!['a']), w1));
    assert(lex_run(v0) == lex_run(v1));
    let u = take_char(w1, 'b', LexState::InSymbol);
    assert(u.token =~= seq!['b']);
    assert(lex_step(w1) == LexStep::Continue(u));
    let w2 = LexView { state: LexState::Default, token: Seq::empty(), ..u };
    assert(lex_run(u) == lex_end(u));
    assert(lex_run(u) == LexOutcome::Emit(TokenView::Symbol(seq!['b']), w2));
    assert(lex_run(w1) == lex_run(u));
    assert(lex_run(w2) == LexOutcome::Done(w2));
}

/// How much reading is left: every token the lexer hands out makes this
/// smaller, so reading always ends.
pub open spec fn lex_measure(v: LexView) -> nat {
    (2 * (v.chars.len() - v.pos) + if v.state == LexState::Default {
        0int
    } else {
        1int
    }) as nat
}

pub open spec fn is_opener(t: TokenView) -> bool {
    t is LParen || t is LSquared || t is LBracket
}

pub open spec fn is_closer(t: TokenView) -> bool {
    t is RParen || t is RSquared || t is RBracket
}

/// The bracket a closing bracket closes.
pub open spec fn opener_of(t: TokenView) -> TokenView {
    match t {
        TokenView::RParen => TokenView::LParen,
        TokenView::RSquared => TokenView::LSquared,
        _ => TokenView::LBracket,
    }
}

/// How the stack of open brackets changes when the lexer hands out `t`.
pub open spec fn stack_after(stack: Seq<TokenView>, t: TokenView) -> Seq<TokenView> {
    if is_opener(t) {
        stack.push(t)
    } else if is_closer(t) {
        stack.drop_last()
    } else {
        stack
    }
}

/// Whether the lexer may hand out `t` with `stack` open: a closing bracket
/// must close the innermost open one.
pub open spec fn may_close(stack: Seq<TokenView>, t: TokenView) -> bool {
    is_closer(t) ==> stack.len() > 0 && stack.last() == opener_of(t)
}

/// The lexer only ever hands out a token that fits the brackets open, moves
/// forward while it does, and stands still only when the text is used up.
pub proof fn lemma_lex_run(v: LexView)
    requires
        0 <= v.pos <= v.chars.len(),
        v.state == LexState::Default ==> v.token.len() == 0,
    ensures
        match lex_run(v) {
            LexOutcome::Emit(t, w) => {
                &&& may_close(v.stack, t)
                &&& w.stack == stack_after(v.stack, t)
                &&& lex_measure(w) < lex_measure(v)
                &&& w.chars == v.chars
                &&& 0 <= w.pos <= w.chars.len()
                &&& w.state == LexState::Default ==> w.token.len() == 0
                &&& !(t is Uninitialized) && !(t is Void)
            },
            LexOutcome::Done(w) => {
                &&& w.chars == v.chars
                &&& w.pos == w.chars.len()
                &&& w.state == LexState::Default
                &&& w.token.len() == 0
                &&& w.stack == v.stack
                &&& lex_measure(w) <= lex_measure(v)
            },
            LexOutcome::Fail(_, w) => {
                &&& w.chars == v.chars
                &&& 0 <= w.pos <= w.chars.len()
                &&& w.state == LexState::Default ==> w.token.len() == 0
            },
        },
    decreases v.chars.len() - v.pos,
{
    if v.pos < v.chars.len() {
        lemma_lex_step(v);
        match lex_step(v) {
            LexStep::Continue(w) => {
                lemma_lex_run(w);
            },
            LexStep::Stop(o) => {},
        }
    } else {
        lemma_lex_end(v);
    }
}

/// What one character of lexing can do.
proof fn lemma_lex_step(v: LexView)
    requires
        0 <= v.pos < v.chars.len(),
        v.state == LexState::Default ==> v.token.len() == 0,
    ensures
        match lex_step(v) {
            LexStep::Continue(w) => {
                &&& w.pos == v.pos + 1
                &&& w.chars == v.chars
                &&& w.stack == v.stack
                &&& lex_measure(w) < lex_measure(v)
                &&& w.state == LexState::Default ==> w.token.len() == 0
            },
            LexStep::Stop(LexOutcome::Emit(t, w)) => {
                &&& may_close(v.stack, t)
                &&& w.stack == stack_after(v.stack, t)
                &&& lex_measure(w) < lex_measure(v)
                &&& w.chars == v.chars
                &&& 0 <= w.pos <= w.chars.len()
                &&& w.state == LexState::Default ==> w.token.len() == 0
                &&& !(t is Uninitialized) && !(t is Void)
            },
            LexStep::Stop(LexOutcome::Done(w)) => false,
            LexStep::Stop(LexOutcome::Fail(_, w)) => {
                &&& w.chars == v.chars
                &&& 0 <= w.pos <= w.chars.len()
                &&& w.state == LexState::Default ==> w.token.len() == 0
            },
        },
{
    let c = v.chars[v.pos];
    match v.state {
        LexState::Default => {
            if c == ')' || c == ']' || c == '}' {
                if v.stack.len() > 0 {
                    assert(v.stack.drop_last() == stack_after(v.stack, TokenView::RParen));
                }
            }
        },
        _ => {},
    }
}

/// What running out of text can do.
proof fn lemma_lex_end(v: LexView)
    requires
        0 <= v.pos <= v.chars.len(),
        v.state == LexState::Default ==> v.token.len() == 0,
    ensures
        match lex_end(v) {
            LexOutcome::Emit(t, w) => {
                &&& may_close(v.stack, t)
                &&& w.stack == stack_after(v.stack, t)
                &&& lex_measure(w) < lex_measure(v)
                &&& w.chars == v.chars
                &&& 0 <= w.pos <= w.chars.len()
                &&& w.state == LexState::Default ==> w.token.len() == 0
                &&& !(t is Uninitialized) && !(t is Void)
            },
            LexOutcome::Done(w) => w == v && v.state == LexState::Default,
            LexOutcome::Fail(_, w) => {
                &&& w.chars == v.chars
                &&& 0 <= w.pos <= w.chars.len()
                &&& w.state == LexState::Default ==> w.token.len() == 0
            },
        },
{
}

/// A reader: its lexer, and the token it is looking at.
pub struct ReadView {
    pub lex: LexView,
    pub current: TokenView,
}

/// How much reading is left: each expression read makes this smaller.
pub open spec fn read_measure(p: ReadView) -> nat {
    4 * lex_measure(p.lex) + (if p.current is Uninitialized {
        2nat
    } else {
        0nat
    }) + (if p.current is Void {
        0nat
    } else {
        1nat
    })
}

/// Move on to the next token: the end of the text reads as `Void`, and an
/// error leaves the token being looked at as it was.
pub open spec fn advance(p: ReadView) -> (Result<(), ErrorView>, ReadView) {
    match lex_run(p.lex) {
        LexOutcome::Done(w) => (Ok(()), ReadView { lex: w, current: TokenView::Void }),
        LexOutcome::Emit(t, w) => (Ok(()), ReadView { lex: w, current: t }),
        LexOutcome::Fail(e, w) => (Err(e), ReadView { lex: w, current: p.current }),
    }
}

/// An atom: the token read as itself, and the reader moves on.
pub open spec fn read_atom(p: ReadView, e: SexpView) -> (Result<SexpView, ErrorView>, ReadView) {
    match advance(p) {
        (Err(err), q) => (Err(err), q),
        (Ok(_), q) => (Ok(e), q),
    }
}

/// The value a dictionary holds after `key` is given `value`: a key written
/// again keeps its place and takes the new value.
pub open spec fn dict_insert(acc: Seq<(Seq<char>, SexpView)>, key: Seq<char>, value: SexpView) -> Seq<(Seq<char>, SexpView)> {
    if exists|i: int| 0 <= i < acc.len() && (#[trigger] acc[i]).0 == key {
        let i = choose|i: int| 0 <= i < acc.len() && (#[trigger] acc[i]).0 == key;
        acc.update(i, (key, value))
    } else {
        acc.push((key, value))
    }
}

/// The expression the reader reads next, and the reader after it.
pub open spec fn read_next(p: ReadView) -> (Result<SexpView, ErrorView>, ReadView)
    decreases read_measure(p), 0nat,
{
    match p.current {
        TokenView::Symbol(s) => read_atom(p, SexpView::Symbol(s)),
        TokenView::String(s) => read_atom(p, SexpView::String(s)),
        TokenView::Number(s) => read_atom(p, SexpView::Number(s)),
        TokenView::LParen => match advance(p) {
            (Err(err), q) => (Err(err), q),
            (Ok(_), q) => if read_measure(q) < read_measure(p) {
                read_items(q, true, Seq::empty())
            } else {
                (Err(ErrorView::VoidExp), q)
            },
        },
        TokenView::LSquared => match advance(p) {
            (Err(err), q) => (Err(err), q),
            (Ok(_), q) => if read_measure(q) < read_measure(p) {
                read_items(q, false, Seq::empty())
            } else {
                (Err(ErrorView::VoidExp), q)
            },
        },
        TokenView::LBracket => match advance(p) {
            (Err(err), q) => (Err(err), q),
            (Ok(_), q) => if read_measure(q) < read_measure(p) {
                read_pairs(q, true, Seq::empty(), Seq::empty())
            } else {
                (Err(ErrorView::VoidExp), q)
            },
        },
        TokenView::Uninitialized => match advance(p) {
            (Err(err), q) => (Err(err), q),
            (Ok(_), q) => if read_measure(q) < read_measure(p) {
                read_next(q)
            } else {
                (Err(ErrorView::VoidExp), q)
            },
        },
        _ => (Err(ErrorView::VoidExp), p),
    }
}

/// The rest of a list (or a vector), whose items so far are `acc`.
pub open spec fn read_items(p: ReadView, is_list: bool, acc: Seq<SexpView>) -> (Result<SexpView, ErrorView>, ReadView)
    decreases read_measure(p), 1nat,
{
    let closer = if is_list {
        TokenView::RParen
    } else {
        TokenView::RSquared
    };
    if p.current is Void {
        (Err(if is_list {
            ErrorView::UnclosedList
        } else {
            ErrorView::UnclosedVector
        }), p)
    } else if p.current == closer {
        match advance(p) {
            (Err(err), q) => (Err(err), q),
            (Ok(_), q) => (Ok(if is_list {
                SexpView::List(acc)
            } else {
                SexpView::Vector(acc)
            }), q),
        }
    } else {
        match read_next(p) {
            (Err(err), q) => (Err(err), q),
            (Ok(e), q) => if read_measure(q) < read_measure(p) {
                read_items(q, is_list, acc.push(e))
            } else {
                (Err(ErrorView::VoidExp), q)
            },
        }
    }
}

/// The rest of a dictionary, whose entries so far are `acc`; `key` is the key
/// waiting for its value when one is not expected.
pub open spec fn read_pairs(p: ReadView, is_key: bool, key: Seq<char>, acc: Seq<(Seq<char>, SexpView)>) -> (Result<SexpView, ErrorView>, ReadView)
    decreases read_measure(p), 1nat,
{
    if p.current is Void {
        (Err(ErrorView::UnclosedMap), p)
    } else if is_key {
        match p.current {
            TokenView::RBracket => match advance(p) {
                (Err(err), q) => (Err(err), q),
                (Ok(_), q) => (Ok(SexpView::Dict(acc)), q),
            },
            TokenView::Symbol(k) => match advance(p) {
                (Err(err), q) => (Err(err), q),
                (Ok(_), q) => if read_measure(q) < read_measure(p) {
                    read_pairs(q, false, k, acc)
                } else {
                    (Err(ErrorView::VoidExp), q)
                },
            },
            TokenView::String(k) => match advance(p) {
                (Err(err), q) => (Err(err), q),
                (Ok(_), q) => if read_measure(q) < read_measure(p) {
                    read_pairs(q, false, k, acc)
                } else {
                    (Err(ErrorView::VoidExp), q)
                },
            },
            _ => (Err(ErrorView::InvalidMapKey), p),
        }
    } else if p.current is RBracket {
        (Err(ErrorView::MapKeyMissingValue), p)
    } else {
        match read_next(p) {
            (Err(err), q) => (Err(err), q),
            (Ok(e), q) => if read_measure(q) < read_measure(p) {
                read_pairs(q, true, key, dict_insert(acc, key, e))
            } else {
                (Err(ErrorView::VoidExp), q)
            },
        }
    }
}

/// The brackets open around the token being looked at, not counting that
/// token itself.
pub open spec fn level_of(p: ReadView) -> Seq<TokenView> {
    if is_opener(p.current) {
        p.lex.stack.drop_last()
    } else if is_closer(p.current) {
        p.lex.stack.push(opener_of(p.current))
    } else {
        p.lex.stack
    }
}

/// Whether an opening bracket being looked at is the innermost open one.
pub open spec fn consistent(p: ReadView) -> bool {
    is_opener(p.current) ==> p.lex.stack.len() > 0 && p.lex.stack.last() == p.current
}

/// Whether a reader's lexer is in order.
pub open spec fn lex_ok(v: LexView) -> bool {
    &&& 0 <= v.pos <= v.chars.len()
    &&& v.state == LexState::Default ==> v.token.len() == 0
}

/// Moving on stays inside the brackets open after the token left behind, and
/// leaves less to read.
proof fn lemma_advance(p: ReadView)
    requires
        lex_ok(p.lex),
        !(p.current is Void),
    ensures
        lex_ok(advance(p).1.lex),
        advance(p).1.lex.chars == p.lex.chars,
        advance(p).0 is Ok ==> {
            let q = advance(p).1;
            &&& level_of(q) == p.lex.stack
            &&& consistent(q)
            &&& read_measure(q) < read_measure(p)
            &&& !(q.current is Uninitialized)
        },
{
    lemma_lex_run(p.lex);
    match lex_run(p.lex) {
        LexOutcome::Emit(t, w) => {
            if is_closer(t) {
                assert(w.stack.push(opener_of(t)) =~= p.lex.stack);
            }
        },
        _ => {},
    }
}

/// Reads expressions from a text, one at a time.
pub struct Parser {
    source: Vec<char>,
    pos: usize,
    token: String,
    current_token: Token,
    parens_stack: Vec<Token>,
    lexer_state: LexState,
}

/// The lexer's stack of open brackets, as the text gives them.
pub open spec fn stack_view(s: Seq<Token>) -> Seq<TokenView> {
    s.map_values(|t: Token| t@)
}

impl Parser {
    /// What the lexer knows.
    pub closed spec fn lex(&self) -> LexView {
        LexView {
            chars: self.source@,
            pos: self.pos as int,
            state: self.lexer_state,
            token: self.token@,
            stack: stack_view(self.parens_stack@),
        }
    }

    /// The token the parser is looking at.
    pub closed spec fn current(&self) -> TokenView {
        self.current_token@
    }

    pub closed spec fn wf(&self) -> bool {
        &&& self.pos <= self.source@.len()
        &&& self.lexer_state == LexState::Default ==> self.token@.len() == 0
    }

    /// A reader at the start of SOURCE, with nothing read yet.
    pub fn new(source: &str) -> (r: Self)
        ensures
            r.wf(),
            r.lex() == (LexView {
                chars: source@,
                pos: 0,
                state: LexState::Default,
                token: Seq::empty(),
                stack: Seq::empty(),
            }),
            r.current() == TokenView::Uninitialized,
    {
        broadcast use vstd::string::group_string_axioms;

        let mut chars: Vec<char> = Vec::new();
        let ghost all = source@;
        let mut it = source.chars();
        let ghost mut n: int = 0;
        loop
            invariant
                all == source@,
                0 <= n <= all.len(),
                it.remaining() == all.skip(n),
                chars@ == all.take(n),
            ensures
                chars@ == all,
            decreases all.len() - n,
        {
            match it.next() {
                Some(c) => {
                    assert(all.skip(n)[0] == all[n]);
                    assert(all.skip(n).drop_first() =~= all.skip(n + 1));
                    chars.push(c);
                    proof {
                        assert(chars@ =~= all.take(n + 1));
                        n = n + 1;
                    }
                },
                None => {
                    assert(all.skip(n).len() == 0);
                    assert(all.take(n) =~= all);
                    break;
                },
            }
        }
        let r = Parser {
            source: chars,
            pos: 0,
            token: String::new(),
            current_token: Token::Uninitialized,
            parens_stack: Vec::new(),
            lexer_state: LexState::Default,
        };
        proof {
            assert(r.lex().stack =~= Seq::<TokenView>::empty());
        }
        r
    }

    /// Take the characters of the token so far, leaving none.
    fn take_token(&mut self) -> (r: String)
        ensures
            r@ == old(self).token@,
            final(self).token@ == Seq::<char>::empty(),
            final(self).source == old(self).source,
            final(self).pos == old(self).pos,
            final(self).current_token == old(self).current_token,
            final(self).parens_stack == old(self).parens_stack,
            final(self).lexer_state == old(self).lexer_state,
    {
        let mut taken = String::new();
        std::mem::swap(&mut taken, &mut self.token);
        taken
    }

    /// Close a bracket: it must close the innermost open one.
    fn close(&mut self, closer: Token) -> (r: Result<Option<Token>, ParserError>)
        requires
            old(self).wf(),
            old(self).pos < old(self).source@.len(),
            old(self).lexer_state == LexState::Default,
            closer is RParen || closer is RSquared || closer is RBracket,
        ensures
            final(self).wf(),
            final(self).current_token == old(self).current_token,
            ({
                let v = old(self).lex();
                let step = match closer {
                    Token::RParen => close_bracket(v, TokenView::LParen, TokenView::RParen, ErrorView::UnbalancedRParen),
                    Token::RSquared => close_bracket(v, TokenView::LSquared, TokenView::RSquared, ErrorView::UnbalancedRSquared),
                    _ => close_bracket(v, TokenView::LBracket, TokenView::RBracket, ErrorView::UnbalancedRBracket),
                };
                step matches LexStep::Stop(o) && outcome_is(o, r, final(self).lex())
            }),
    {
        let ghost before = stack_view(self.parens_stack@);
        let popped = self.parens_stack.pop();
        proof {
            if before.len() > 0 {
                assert(stack_view(self.parens_stack@) =~= before.drop_last());
            } else {
                assert(stack_view(self.parens_stack@) =~= before);
            }
        }
        let matched = match (&popped, &closer) {
            (Some(Token::LParen), Token::RParen) => true,
            (Some(Token::LSquared), Token::RSquared) => true,
            (Some(Token::LBracket), Token::RBracket) => true,
            _ => false,
        };
        if matched {
            let _len = self.source.len();
            self.pos = self.pos + 1;
            Ok(Some(closer))
        } else {
            match closer {
                Token::RParen => Err(ParserError::UnbalancedRParen),
                Token::RSquared => Err(ParserError::UnbalancedRSquared),
                _ => Err(ParserError::UnbalancedRBracket),
            }
        }
    }

    /// The end of a number: a token if its characters spell a number.
    fn finish_number(&mut self, consume: bool) -> (r: Result<Option<Token>, ParserError>)
        requires
            old(self).wf(),
            old(self).lexer_state == LexState::InNumber || old(self).lexer_state == LexState::InNumberAfterDot,
            consume ==> old(self).pos < old(self).source@.len(),
        ensures
            final(self).wf(),
            final(self).current_token == old(self).current_token,
            end_number(old(self).lex(), consume) matches LexStep::Stop(o) && outcome_is(o, r, final(self).lex()),
    {
        let text = self.take_token();
        if number_text(text.as_str()) {
            self.lexer_state = LexState::Default;
            if consume {
                let _len = self.source.len();
                self.pos = self.pos + 1;
            }
            Ok(Some(Token::Number(text)))
        } else {
            Err(ParserError::NumberParseError(text))
        }
    }
}

impl Parser {
    /// Open a bracket.
    fn open(&mut self, opener: Token) -> (r: Result<Option<Token>, ParserError>)
        requires
            old(self).wf(),
            old(self).pos < old(self).source@.len(),
            old(self).lexer_state == LexState::Default,
            opener is LParen || opener is LSquared || opener is LBracket,
        ensures
            final(self).wf(),
            final(self).current_token == old(self).current_token,
            outcome_is(
                LexOutcome::Emit(opener@, LexView {
                    pos: old(self).lex().pos + 1,
                    stack: old(self).lex().stack.push(opener@),
                    ..old(self).lex()
                }),
                r,
                final(self).lex(),
            ),
    {
        let ghost before = stack_view(self.parens_stack@);
        let token = match &opener {
            Token::LParen => Token::LParen,
            Token::LSquared => Token::LSquared,
            _ => Token::LBracket,
        };
        self.parens_stack.push(token);
        proof {
            assert(stack_view(self.parens_stack@) =~= before.push(opener@));
        }
        let _len = self.source.len();
        self.pos = self.pos + 1;
        Ok(Some(opener))
    }

    /// Read the next token.
    ///
    /// When the text runs out in the middle of a symbol, the symbol is the
    /// last token, and every request after it answers that there are no more
    /// -- rather than answering with an empty symbol again and again, which
    /// would leave a reader that reads until the tokens run out reading
    /// forever.
    pub fn next_token(&mut self) -> (r: Result<Option<Token>, ParserError>)
        requires
            old(self).wf(),
        ensures
            final(self).wf(),
            final(self).current() == old(self).current(),
            outcome_is(lex_run(old(self).lex()), r, final(self).lex()),
    {
        while self.pos < self.source.len()
            invariant
                self.wf(),
                lex_run(self.lex()) == lex_run(old(self).lex()),
                self.current_token == old(self).current_token,
            decreases self.source@.len() - self.pos,
        {
            let c = self.source[self.pos];
            let ghost v = self.lex();
            assert(v.chars[v.pos] == c);
            match self.lexer_state {
                LexState::Default => {
                    if c == '(' {
                        return self.open(Token::LParen);
                    } else if c == '[' {
                        return self.open(Token::LSquared);
                    } else if c == '{' {
                        return self.open(Token::LBracket);
                    } else if c == ')' {
                        return self.close(Token::RParen);
                    } else if c == ']' {
                        return self.close(Token::RSquared);
                    } else if c == '}' {
                        return self.close(Token::RBracket);
                    } else if c == ' ' || c == '\t' || c == '\n' {
                    } else if c == '"' {
                        self.lexer_state = LexState::InString;
                    } else if c == '.' || c == '-' || ('0' <= c && c <= '9') {
                        self.token.push(c);
                        self.lexer_state = LexState::InNumber;
                    } else {
                        self.token.push(c);
                        self.lexer_state = LexState::InSymbol;
                    }
                },
                LexState::InSymbol => {
                    if c == ' ' || c == '\t' || c == '\n' {
                        let text = self.take_token();
                        self.lexer_state = LexState::Default;
                        self.pos = self.pos + 1;
                        return Ok(Some(Token::Symbol(text)));
                    } else if c == '(' || c == '[' || c == '{' || c == ')' || c == ']' || c == '}' {
                        let text = self.take_token();
                        self.lexer_state = LexState::Default;
                        return Ok(Some(Token::Symbol(text)));
                    } else {
                        self.token.push(c);
                    }
                },
                LexState::InString => {
                    if c == '"' {
                        let text = self.take_token();
                        self.lexer_state = LexState::Default;
                        self.pos = self.pos + 1;
                        return Ok(Some(Token::String(text)));
                    } else if c == '\\' {
                        self.lexer_state = LexState::InStringSlash;
                    } else {
                        self.token.push(c);
                    }
                },
                LexState::InStringSlash => {
                    if c == '"' || c == '\\' {
                        self.token.push(c);
                    } else {
                        self.token.push('\\');
                        self.token.push(c);
                    }
                    self.lexer_state = LexState::InString;
                },
                LexState::InNumber => {
                    if '0' <= c && c <= '9' {
                        self.token.push(c);
                    } else if c == '.' {
                        self.token.push(c);
                        self.lexer_state = LexState::InNumberAfterDot;
                    } else if c == '(' || c == '[' || c == '{' || c == ')' || c == ']' || c == '}' {
                        return self.finish_number(false);
                    } else if c == ' ' || c == '\t' || c == '\n' {
                        return self.finish_number(true);
                    } else {
                        return Err(ParserError::NumberInvadidChar(c));
                    }
                },
                LexState::InNumberAfterDot => {
                    if '0' <= c && c <= '9' {
                        self.token.push(c);
                    } else if c == '(' || c == '[' || c == '{' || c == ')' || c == ']' || c == '}' {
                        return self.finish_number(false);
                    } else if c == ' ' || c == '\t' || c == '\n' {
                        return self.finish_number(true);
                    } else {
                        self.token.push(c);
                        return Err(ParserError::NumberParseError(self.token.clone()));
                    }
                },
            }
            self.pos = self.pos + 1;
            proof {
                assert(lex_step(v) == LexStep::Continue(self.lex()));
            }
        }
        // The text is used up: what is pending is the last token.
        match self.lexer_state {
            LexState::Default => Ok(None),
            LexState::InSymbol => {
                let text = self.take_token();
                self.lexer_state = LexState::Default;
                Ok(Some(Token::Symbol(text)))
            },
            LexState::InNumber | LexState::InNumberAfterDot => self.finish_number(false),
            LexState::InString | LexState::InStringSlash => Err(ParserError::UnclosedString),
        }
    }
}

impl View for Parser {
    type V = ReadView;

    closed spec fn view(&self) -> ReadView {
        ReadView { lex: self.lex(), current: self.current() }
    }
}

/// A reading result as values.
pub open spec fn read_outcome(r: Result<Sexp, ParserError>) -> Result<SexpView, ErrorView> {
    match r {
        Ok(e) => Ok(e@),
        Err(e) => Err(e@),
    }
}

/// Whether `r` and the reader `q` after it are what `expected` says.
pub open spec fn read_is(expected: (Result<SexpView, ErrorView>, ReadView), r: Result<Sexp, ParserError>, q: ReadView) -> bool {
    read_outcome(r) == expected.0 && q == expected.1
}

/// A copy of a string.
fn copy_text(s: &String) -> (r: String)
    ensures
        r@ == s@,
{
    s.clone()
}

proof fn lemma_pairs_view(s: Seq<(String, Sexp)>)
    ensures
        pairs_view(s).len() == s.len(),
        forall|i: int| 0 <= i < s.len() ==> #[trigger] pairs_view(s)[i] == (s[i].0@, sexp_view(s[i].1)),
    decreases s.len(),
{
    if s.len() > 0 {
        lemma_pairs_view(s.drop_last());
    }
}

proof fn lemma_sexps_view(s: Seq<Sexp>)
    ensures
        sexps_view(s).len() == s.len(),
        forall|i: int| 0 <= i < s.len() ==> #[trigger] sexps_view(s)[i] == sexp_view(s[i]),
    decreases s.len(),
{
    if s.len() > 0 {
        lemma_sexps_view(s.drop_last());
    }
}

/// Whether no key is written twice.
pub open spec fn keys_distinct(s: Seq<(Seq<char>, SexpView)>) -> bool {
    forall|i: int, j: int| 0 <= i < j < s.len() ==> (#[trigger] s[i]).0 != (#[trigger] s[j]).0
}

/// Give `key` the value `value` in `acc`.
fn insert_entry(acc: &mut Vec<(String, Sexp)>, key: String, value: Sexp)
    requires
        keys_distinct(pairs_view(old(acc)@)),
    ensures
        keys_distinct(pairs_view(final(acc)@)),
        pairs_view(final(acc)@) == dict_insert(pairs_view(old(acc)@), key@, value@),
{
    let ghost before = pairs_view(acc@);
    proof {
        lemma_pairs_view(acc@);
    }
    let mut i: usize = 0;
    while i < acc.len()
        invariant
            i <= acc@.len(),
            before == pairs_view(acc@),
            acc@ == old(acc)@,
            before.len() == acc@.len(),
            keys_distinct(before),
            forall|j: int| 0 <= j < acc@.len() ==> #[trigger] before[j] == (acc@[j].0@, sexp_view(acc@[j].1)),
            forall|j: int| 0 <= j < i ==> (#[trigger] before[j]).0 != key@,
        decreases acc@.len() - i,
    {
        if acc[i].0 == key {
            let ghost k = key@;
            let ghost v = value@;
            acc.set(i, (key, value));
            proof {
                lemma_pairs_view(acc@);
                assert(before[i as int].0 == k);
                assert forall|j: int| 0 <= j < before.len() && (#[trigger] before[j]).0 == k implies j == i by {
                    if j != i {
                        assert(before[j].0 != before[i as int].0);
                    }
                }
                assert(pairs_view(acc@) =~= before.update(i as int, (k, v)));
                assert(keys_distinct(pairs_view(acc@))) by {
                    let a = pairs_view(acc@);
                    assert forall|x: int, y: int| 0 <= x < y < a.len() implies (#[trigger] a[x]).0 != (#[trigger] a[y]).0 by {
                        assert(a[x].0 == before[x].0);
                        assert(a[y].0 == before[y].0);
                    }
                }
            }
            return;
        }
        i = i + 1;
    }
    let ghost k = key@;
    let ghost v = value@;
    acc.push((key, value));
    proof {
        assert(acc@.drop_last() =~= old(acc)@);
        assert(pairs_view(acc@) == before.push((k, v)));
        let a = pairs_view(acc@);
        assert forall|x: int, y: int| 0 <= x < y < a.len() implies (#[trigger] a[x]).0 != (#[trigger] a[y]).0 by {
            if y == a.len() - 1 {
                assert(a[x] == before[x]);
            } else {
                assert(a[x] == before[x] && a[y] == before[y]);
            }
        }
    }
}

impl Parser {
    /// Whether the reader stands between two expressions, outside every
    /// bracket: where reading the next one can begin.
    pub open spec fn ready(&self) -> bool {
        &&& level_of(self@) == Seq::<TokenView>::empty()
        &&& consistent(self@)
    }

    proof fn lemma_wf(&self)
        requires
            self.wf(),
        ensures
            lex_ok(self@.lex),
    {
    }

    /// Move on to the next token.
    fn advance_token(&mut self) -> (r: Result<(), ParserError>)
        requires
            old(self).wf(),
        ensures
            final(self).wf(),
            match advance(old(self)@) {
                (Ok(_), q) => r is Ok && final(self)@ == q,
                (Err(e), q) => r matches Err(x) && x@ == e && final(self)@ == q,
            },
    {
        match self.next_token() {
            Ok(Some(token)) => {
                self.current_token = token;
                Ok(())
            },
            Ok(None) => {
                self.current_token = Token::Void;
                Ok(())
            },
            Err(e) => Err(e),
        }
    }
}

impl Parser {
    /// Read the expression at the token being looked at.
    fn read(&mut self) -> (r: Result<Sexp, ParserError>)
        requires
            old(self).wf(),
            consistent(old(self)@),
            !is_closer(old(self)@.current),
            old(self)@.current is Uninitialized ==> level_of(old(self)@).len() == 0,
        ensures
            final(self).wf(),
            read_is(read_next(old(self)@), r, final(self)@),
            r is Ok ==> {
                &&& level_of(final(self)@) == level_of(old(self)@)
                &&& consistent(final(self)@)
                &&& read_measure(final(self)@) < read_measure(old(self)@)
                &&& !(final(self)@.current is Uninitialized)
            },
        decreases read_measure(old(self)@), 0nat,
    {
        let ghost p = self@;
        proof {
            if !(p.current is Void) {
                lemma_advance(p);
            }
        }
        match &self.current_token {
            Token::Symbol(text) => {
                let text = copy_text(text);
                match self.advance_token() {
                    Ok(()) => Ok(Sexp::Symbol(text)),
                    Err(e) => Err(e),
                }
            },
            Token::String(text) => {
                let text = copy_text(text);
                match self.advance_token() {
                    Ok(()) => Ok(Sexp::String(text)),
                    Err(e) => Err(e),
                }
            },
            Token::Number(text) => {
                let text = copy_text(text);
                match self.advance_token() {
                    Ok(()) => Ok(Sexp::Number(text)),
                    Err(e) => Err(e),
                }
            },
            Token::LParen => {
                match self.advance_token() {
                    Ok(()) => {},
                    Err(e) => {
                        return Err(e);
                    },
                }
                self.parse_list()
            },
            Token::LSquared => {
                match self.advance_token() {
                    Ok(()) => {},
                    Err(e) => {
                        return Err(e);
                    },
                }
                self.parse_vector()
            },
            Token::LBracket => {
                match self.advance_token() {
                    Ok(()) => {},
                    Err(e) => {
                        return Err(e);
                    },
                }
                self.parse_map()
            },
            Token::Uninitialized => {
                match self.advance_token() {
                    Ok(()) => {},
                    Err(e) => {
                        return Err(e);
                    },
                }
                self.read()
            },
            _ => Err(ParserError::VoidExp),
        }
    }

    fn parse_list(&mut self) -> (r: Result<Sexp, ParserError>)
        requires
            old(self).wf(),
            consistent(old(self)@),
            !(old(self)@.current is Uninitialized),
            level_of(old(self)@).len() > 0,
            level_of(old(self)@).last() == TokenView::LParen,
        ensures
            final(self).wf(),
            read_is(read_items(old(self)@, true, Seq::empty()), r, final(self)@),
            r is Ok ==> {
                &&& level_of(final(self)@) == level_of(old(self)@).drop_last()
                &&& consistent(final(self)@)
                &&& read_measure(final(self)@) < read_measure(old(self)@)
                &&& !(final(self)@.current is Uninitialized)
            },
        decreases read_measure(old(self)@), 2nat,
    {
        self.parse_sequence(true)
    }

    fn parse_vector(&mut self) -> (r: Result<Sexp, ParserError>)
        requires
            old(self).wf(),
            consistent(old(self)@),
            !(old(self)@.current is Uninitialized),
            level_of(old(self)@).len() > 0,
            level_of(old(self)@).last() == TokenView::LSquared,
        ensures
            final(self).wf(),
            read_is(read_items(old(self)@, false, Seq::empty()), r, final(self)@),
            r is Ok ==> {
                &&& level_of(final(self)@) == level_of(old(self)@).drop_last()
                &&& consistent(final(self)@)
                &&& read_measure(final(self)@) < read_measure(old(self)@)
                &&& !(final(self)@.current is Uninitialized)
            },
        decreases read_measure(old(self)@), 2nat,
    {
        self.parse_sequence(false)
    }

    /// The items of a list or a vector, up to the bracket that closes it.
    fn parse_sequence(&mut self, is_list: bool) -> (r: Result<Sexp, ParserError>)
        requires
            old(self).wf(),
            consistent(old(self)@),
            !(old(self)@.current is Uninitialized),
            level_of(old(self)@).len() > 0,
            level_of(old(self)@).last() == (if is_list {
                TokenView::LParen
            } else {
                TokenView::LSquared
            }),
        ensures
            final(self).wf(),
            read_is(read_items(old(self)@, is_list, Seq::empty()), r, final(self)@),
            r is Ok ==> {
                &&& level_of(final(self)@) == level_of(old(self)@).drop_last()
                &&& consistent(final(self)@)
                &&& read_measure(final(self)@) < read_measure(old(self)@)
                &&& !(final(self)@.current is Uninitialized)
            },
        decreases read_measure(old(self)@), 1nat,
    {
        let ghost start = self@;
        let ghost level = level_of(self@);
        let mut items: Vec<Sexp> = Vec::new();
        proof {
            assert(sexps_view(items@) =~= Seq::<SexpView>::empty());
        }
        loop
            invariant
                self.wf(),
                consistent(self@),
                level_of(self@) == level,
                level.len() > 0,
                level.last() == (if is_list {
                    TokenView::LParen
                } else {
                    TokenView::LSquared
                }),
                read_measure(self@) <= read_measure(start),
                start == old(self)@,
                level == level_of(start),
                !(self@.current is Uninitialized),
                read_items(self@, is_list, sexps_view(items@)) == read_items(start, is_list, Seq::empty()),
            decreases read_measure(self@),
        {
            let ghost p = self@;
            let at_end = match &self.current_token {
                Token::Void => true,
                _ => false,
            };
            if at_end {
                return if is_list {
                    Err(ParserError::UnclosedList)
                } else {
                    Err(ParserError::UnclosedVector)
                };
            }
            let closes = match &self.current_token {
                Token::RParen => is_list,
                Token::RSquared => !is_list,
                _ => false,
            };
            if closes {
                proof {
                    lemma_advance(p);
                    assert(p.lex.stack =~= level.drop_last()) by {
                        assert(level =~= p.lex.stack.push(opener_of(p.current)));
                    }
                }
                match self.advance_token() {
                    Ok(()) => {},
                    Err(e) => {
                        return Err(e);
                    },
                }
                let ghost acc = sexps_view(items@);
                let result = if is_list {
                    Sexp::List(items)
                } else {
                    Sexp::Vector(items)
                };
                return Ok(result);
            }
            proof {
                if is_closer(p.current) {
                    assert(level =~= p.lex.stack.push(opener_of(p.current)));
                    assert(level.last() == opener_of(p.current));
                }
            }
            match self.read() {
                Ok(e) => {
                    let ghost ev = e@;
                    let ghost before = items@;
                    items.push(e);
                    proof {
                        assert(items@.drop_last() =~= before);
                        assert(sexps_view(items@) == sexps_view(before).push(ev));
                    }
                },
                Err(e) => {
                    return Err(e);
                },
            }
        }
    }

    /// The entries of a dictionary, up to the bracket that closes it.
    fn parse_map(&mut self) -> (r: Result<Sexp, ParserError>)
        requires
            old(self).wf(),
            consistent(old(self)@),
            !(old(self)@.current is Uninitialized),
            level_of(old(self)@).len() > 0,
            level_of(old(self)@).last() == TokenView::LBracket,
        ensures
            final(self).wf(),
            read_is(read_pairs(old(self)@, true, Seq::empty(), Seq::empty()), r, final(self)@),
            r is Ok ==> {
                &&& level_of(final(self)@) == level_of(old(self)@).drop_last()
                &&& consistent(final(self)@)
                &&& read_measure(final(self)@) < read_measure(old(self)@)
                &&& !(final(self)@.current is Uninitialized)
            },
        decreases read_measure(old(self)@), 2nat,
    {
        let ghost start = self@;
        let ghost level = level_of(self@);
        let mut entries: Vec<(String, Sexp)> = Vec::new();
        let mut is_key = true;
        let mut current_key = String::new();
        proof {
            assert(pairs_view(entries@) =~= Seq::<(Seq<char>, SexpView)>::empty());
        }
        loop
            invariant
                self.wf(),
                consistent(self@),
                level_of(self@) == level,
                level.len() > 0,
                level.last() == TokenView::LBracket,
                read_measure(self@) <= read_measure(start),
                keys_distinct(pairs_view(entries@)),
                start == old(self)@,
                level == level_of(start),
                !(self@.current is Uninitialized),
                read_pairs(self@, is_key, current_key@, pairs_view(entries@)) == read_pairs(start, true, Seq::empty(), Seq::empty()),
            decreases read_measure(self@),
        {
            let ghost p = self@;
            let at_end = match &self.current_token {
                Token::Void => true,
                _ => false,
            };
            if at_end {
                return Err(ParserError::UnclosedMap);
            }
            proof {
                lemma_advance(p);
                if is_closer(p.current) {
                    assert(level =~= p.lex.stack.push(opener_of(p.current)));
                    assert(level.last() == opener_of(p.current));
                }
            }
            if is_key {
                match &self.current_token {
                    Token::RBracket => {
                        proof {
                            assert(p.lex.stack =~= level.drop_last()) by {
                                assert(level =~= p.lex.stack.push(opener_of(p.current)));
                            }
                        }
                        match self.advance_token() {
                            Ok(()) => {},
                            Err(e) => {
                                return Err(e);
                            },
                        }
                        return Ok(Sexp::Dict(entries));
                    },
                    Token::Symbol(text) => {
                        let key = copy_text(text);
                        match self.advance_token() {
                            Ok(()) => {},
                            Err(e) => {
                                return Err(e);
                            },
                        }
                        is_key = false;
                        current_key = key;
                    },
                    Token::String(text) => {
                        let key = copy_text(text);
                        match self.advance_token() {
                            Ok(()) => {},
                            Err(e) => {
                                return Err(e);
                            },
                        }
                        is_key = false;
                        current_key = key;
                    },
                    _ => {
                        return Err(ParserError::InvalidMapKey);
                    },
                }
            } else {
                let missing = match &self.current_token {
                    Token::RBracket => true,
                    _ => false,
                };
                if missing {
                    return Err(ParserError::MapKeyMissingValue);
                }
                match self.read() {
                    Ok(value) => {
                        insert_entry(&mut entries, copy_text(&current_key), value);
                        is_key = true;
                    },
                    Err(e) => {
                        return Err(e);
                    },
                }
            }
        }
    }

    /// Read the next expression, from the token being looked at.
    ///
    /// From between two expressions -- a fresh reader, or one whose last read
    /// succeeded -- this reads the next one. After a failed read it carries on
    /// from wherever the failure left the reader, which is not a closing
    /// bracket: there is no expression a closing bracket begins.
    pub fn next(&mut self) -> (r: Result<Sexp, ParserError>)
        requires
            old(self).wf(),
            consistent(old(self)@),
            !is_closer(old(self)@.current),
            old(self)@.current is Uninitialized ==> level_of(old(self)@).len() == 0,
        ensures
            final(self).wf(),
            read_is(read_next(old(self)@), r, final(self)@),
            r is Ok ==> {
                &&& level_of(final(self)@) == level_of(old(self)@)
                &&& consistent(final(self)@)
                &&& !is_closer(final(self)@.current) ==> !(final(self)@.current is Uninitialized)
            },
            old(self).ready() && r is Ok ==> final(self).ready(),
    {
        self.read()
    }

    /// Whether [`Self::next`] may be asked for another expression: the
    /// reader is not looking at a closing bracket, which begins none.
    pub fn can_read(&self) -> (r: bool)
        requires
            self.wf(),
        ensures
            r == !is_closer(self@.current),
    {
        match &self.current_token {
            Token::RParen | Token::RSquared | Token::RBracket => false,
            _ => true,
        }
    }
}

/// Whether the result `r` of a request for a token, and the lexer `w` it
/// left, are what `o` says.
pub open spec fn outcome_is(o: LexOutcome, r: Result<Option<Token>, ParserError>, w: LexView) -> bool {
    match o {
        LexOutcome::Done(v) => r matches Ok(None) && w == v,
        LexOutcome::Emit(t, v) => r matches Ok(Some(tok)) && tok@ == t && w == v,
        LexOutcome::Fail(e, v) => r matches Err(err) && err@ == e && w == v,
    }
}

/// Whether the characters of a number token spell a number.
fn number_text(s: &str) -> (r: bool)
    ensures
        r == is_number_text(s@),
{
    broadcast use vstd::string::group_string_axioms;

    let ghost all = s@;
    let ghost bad = |c: char| !(is_digit(c) || c == '.');
    let ghost dot = |c: char| c == '.';
    let ghost digit = |c: char| is_digit(c);
    let mut it = s.chars();
    let mut has_digit = false;
    let mut has_bad = false;
    let mut dots: u8 = 0;
    let mut signed = false;
    let mut first = true;
    let ghost mut n: int = 0;
    let ghost mut body: Seq<char> = Seq::empty();
    loop
        invariant
            all == s@,
            0 <= n <= all.len(),
            it.remaining() == all.skip(n),
            signed == (n > 0 && all[0] == '-'),
            first == (n == 0),
            body == (if signed {
                all.take(n).drop_first()
            } else {
                all.take(n)
            }),
            bad == (|c: char| !(is_digit(c) || c == '.')),
            dot == (|c: char| c == '.'),
            digit == (|c: char| is_digit(c)),
            has_digit == (count_where(body, digit) > 0),
            has_bad == (count_where(body, bad) > 0),
            dots == (if count_where(body, dot) < 2 {
                count_where(body, dot)
            } else {
                2
            }),
        ensures
            n == all.len(),
        decreases all.len() - n,
    {
        match it.next() {
            Some(c) => {
                assert(all.skip(n)[0] == all[n]);
                assert(all.skip(n).drop_first() =~= all.skip(n + 1));
                if first && c == '-' {
                    signed = true;
                    proof {
                        assert(all.take(1).drop_first() =~= Seq::<char>::empty());
                    }
                } else {
                    if '0' <= c && c <= '9' {
                        has_digit = true;
                    } else if c == '.' {
                        if dots < 2 {
                            dots = dots + 1;
                        }
                    } else {
                        has_bad = true;
                    }
                    proof {
                        let nb = body.push(c);
                        assert(nb.drop_last() =~= body);
                        if signed {
                            assert(all.take(n + 1).drop_first() =~= nb);
                        } else {
                            assert(all.take(n + 1) =~= nb);
                        }
                        body = nb;
                    }
                }
                first = false;
                proof {
                    n = n + 1;
                }
            },
            None => {
                assert(all.skip(n).len() == 0);
                break;
            },
        }
    }
    proof {
        assert(all.take(n) =~= all);
    }
    !has_bad && has_digit && dots <= 1
}

} // verus!
