//! The command registry: which named functions the user may invoke by name,
//! and what arguments the editor should collect for them.
//!
//! "Command" is an editor concept, not a Lisp one. A command is something a
//! user can reach with M-x or bind to a key, and whose arguments the *editor*
//! knows how to ask for -- a file name with completion, a buffer name, a
//! number.
//!
//! Registration takes Emacs-style code strings (`"fFind file: "`) and parses
//! them here, at definition time, so a typo is an error when the editor boots
//! rather than a surprise the first time somebody runs the command.
use vstd::prelude::*;
use std::collections::HashMap;
use crate::string_ops::{decimal, decimal_text, debug_quoted, debug_str, split_first_char};

verus! {

/// The argument `C-u` and the digit keys build for the next command.
///
/// `Raw` and `Number` differ only in what `P` hands to Lisp.
#[derive(Clone, Copy, Debug, PartialEq, Eq, Structural)]
pub enum PrefixArg {
    /// `C-u` repeated N times: four to the N.
    Raw(u32),
    /// Digits typed after `C-u`.
    Number(i32),
    /// `C-u -` with no digits yet.
    Negative,
    /// `C-u -` followed by zeros only: zero, with the minus kept for the
    /// digits still to come.
    NegativeZero,
}

/// Four to the `n`.
pub open spec fn pow4(n: nat) -> int
    decreases n,
{
    if n == 0 {
        1
    } else {
        4 * pow4((n - 1) as nat)
    }
}

/// `x` pinned to what an `i32` can hold, as a saturating operation leaves it.
pub open spec fn saturate_i32(x: int) -> int {
    if x > i32::MAX {
        i32::MAX as int
    } else if x < i32::MIN {
        i32::MIN as int
    } else {
        x
    }
}

/// How the raw prefix argument of `times` presses of `C-u` reads.
pub open spec fn raw_description(times: nat) -> Seq<char>
    decreases times,
{
    if times == 0 {
        Seq::empty()
    } else if times == 1 {
        "C-u"@
    } else {
        raw_description((times - 1) as nat) + " C-u"@
    }
}

proof fn lemma_pow4_grows(n: nat)
    ensures
        pow4(n) >= 1,
        pow4(n + 1) >= pow4(n),
    decreases n,
{
    if n > 0 {
        lemma_pow4_grows((n - 1) as nat);
    }
}

fn saturating_to_i32(x: i64) -> (r: i32)
    ensures
        r == saturate_i32(x as int),
{
    if x > i32::MAX as i64 {
        i32::MAX
    } else if x < i32::MIN as i64 {
        i32::MIN
    } else {
        x as i32
    }
}

impl PrefixArg {
    /// How the argument reads in the echo area.
    pub open spec fn description(self) -> Seq<char> {
        match self {
            PrefixArg::Raw(times) => raw_description(times as nat),
            PrefixArg::Number(n) => "C-u "@ + decimal_text(n as int),
            PrefixArg::Negative => "C-u -"@,
            PrefixArg::NegativeZero => "C-u 0"@,
        }
    }

    /// The argument after the digit key `digit`: a digit replaces a raw
    /// argument, and after a minus the digits build a negative number: zeros
    /// straight after the minus make zero, and keep the minus for the first
    /// digit that is not zero. The arithmetic saturates at what an `i32`
    /// holds.
    pub open spec fn after_digit(self, digit: u32) -> PrefixArg {
        match self {
            PrefixArg::Raw(_) => PrefixArg::Number(digit as i32),
            PrefixArg::Negative | PrefixArg::NegativeZero => if digit == 0 {
                PrefixArg::NegativeZero
            } else {
                PrefixArg::Number(saturate_i32(-(digit as i32)) as i32)
            },
            PrefixArg::Number(n) => if n < 0 {
                PrefixArg::Number(saturate_i32(saturate_i32(n * 10) - (digit as i32)) as i32)
            } else {
                PrefixArg::Number(saturate_i32(saturate_i32(n * 10) + (digit as i32)) as i32)
            },
        }
    }

    /// What `p` gives a command: a plain count.
    pub fn count(&self) -> (r: i32)
        ensures
            r == (match *self {
                PrefixArg::Raw(times) => if pow4(times as nat) > i32::MAX {
                    i32::MAX as int
                } else {
                    pow4(times as nat)
                },
                PrefixArg::Number(n) => n as int,
                PrefixArg::Negative => -1,
                PrefixArg::NegativeZero => 0,
            }),
    {
        match self {
            PrefixArg::Raw(times) => {
                // Four to the N, saturating: once past what an i32 holds it
                // stays there however many more times C-u was pressed.
                let mut acc: i64 = 1;
                let mut i: u32 = 0;
                while i < *times
                    invariant
                        i <= *times,
                        1 <= acc <= i32::MAX,
                        acc == (if pow4(i as nat) > i32::MAX {
                            i32::MAX as int
                        } else {
                            pow4(i as nat)
                        }),
                    decreases *times - i,
                {
                    proof {
                        lemma_pow4_grows(i as nat);
                        assert(pow4((i + 1) as nat) == 4 * pow4(i as nat));
                    }
                    if acc >= i32::MAX as i64 / 4 + 1 {
                        acc = i32::MAX as i64;
                    } else {
                        acc = acc * 4;
                    }
                    i = i + 1;
                }
                acc as i32
            },
            PrefixArg::Number(n) => *n,
            PrefixArg::Negative => -1,
            PrefixArg::NegativeZero => 0,
        }
    }

    /// Extend the argument with a digit key.
    ///
    /// A digit replaces `Raw`: `C-u 12` means twelve, not four then twelve.
    /// After a minus the digits build a negative number, so `C-u - 4 2` is
    /// minus forty-two rather than minus one followed by a number. A zero
    /// straight after the minus is zero, minus zero being zero, and the minus
    /// waits for the digits still to come, so `C-u - 0 2` is minus two.
    pub fn push_digit(&mut self, digit: u32)
        ensures
            *final(self) == old(self).after_digit(digit),
    {
        let zero = digit == 0;
        let digit = digit as i32;
        *self = match *self {
            PrefixArg::Raw(_) => PrefixArg::Number(digit),
            PrefixArg::Negative | PrefixArg::NegativeZero => if zero {
                PrefixArg::NegativeZero
            } else {
                PrefixArg::Number(saturating_to_i32(-(digit as i64)))
            },
            PrefixArg::Number(n) => {
                let times_ten = saturating_to_i32(n as i64 * 10);
                if n < 0 {
                    PrefixArg::Number(saturating_to_i32(times_ten as i64 - digit as i64))
                } else {
                    PrefixArg::Number(saturating_to_i32(times_ten as i64 + digit as i64))
                }
            },
        };
    }

    /// How the argument reads in the echo area while it is being typed.
    pub fn describe(&self) -> (r: String)
        ensures
            r@ == self.description(),
    {
        match self {
            PrefixArg::Raw(times) => {
                let mut out = String::new();
                let mut i: u32 = 0;
                while i < *times
                    invariant
                        i <= *times,
                        out@ == raw_description(i as nat),
                    decreases *times - i,
                {
                    if i == 0 {
                        out.push_str("C-u");
                    } else {
                        out.push_str(" C-u");
                    }
                    i = i + 1;
                    proof {
                        if i == 1 {
                            assert(out@ =~= "C-u"@);
                        }
                    }
                }
                out
            },
            PrefixArg::Number(n) => {
                let mut out = String::new();
                out.push_str("C-u ");
                let digits = decimal(*n as i64);
                out.push_str(digits.as_str());
                proof {
                    assert(out@ =~= "C-u "@ + decimal_text(*n as int));
                }
                out
            },
            PrefixArg::Negative => {
                let mut out = String::new();
                out.push_str("C-u -");
                proof {
                    assert(out@ =~= "C-u -"@);
                }
                out
            },
            PrefixArg::NegativeZero => {
                let mut out = String::new();
                out.push_str("C-u 0");
                proof {
                    assert(out@ =~= "C-u 0"@);
                }
                out
            },
        }
    }
}

/// What the editor knew at the moment a command was invoked.
///
/// A command's arguments are not all collected at once: a prompted one arrives
/// keystrokes later. So the answers the editor gives on the user's behalf are
/// fixed when the command starts, which is also when the user meant them.
#[derive(Clone, Debug, Default, PartialEq, Eq)]
pub struct Invocation {
    pub prefix_arg: Option<PrefixArg>,
    /// The active region as it stood, ordered and clamped.
    pub region: Option<(usize, usize)>,
}

/// One argument the editor collects on the user's behalf before invoking a
/// command.
#[derive(Clone, Debug, PartialEq, Eq)]
pub enum ArgSpec {
    /// Free text.
    String { prompt: String },
    /// Free text, parsed as a number before the command sees it.
    Number { prompt: String },
    /// A buffer name, with completion over the live buffers.
    Buffer { prompt: String },
    /// A file name, with completion over the filesystem.
    File { prompt: String },
    /// The prefix argument as a count, defaulting to 1. Never prompts.
    Count,
    /// The raw prefix argument, nil when there was none. Never prompts.
    RawCount,
    /// The active region, as *two* arguments -- its start and its end. Never
    /// prompts, and refuses the command outright when there is no region.
    Region,
}

/// The message for a self-answering code written with a prompt after it.
pub open spec fn no_prompt_message(code: Seq<char>, kind: char) -> Seq<char> {
    "argument spec "@ + debug_quoted(code) + " takes no prompt: '"@ + seq![kind]
        + "' is answered by the editor"@
}

/// The message for a code that is not one of the seven.
pub open spec fn unknown_code_message(code: Seq<char>, kind: char) -> Seq<char> {
    "unknown argument spec code '"@ + seq![kind] + "' in "@ + debug_quoted(code)
        + " -- expected one of s (string), n (number), b (buffer name), f (file name), p (prefix count), P (raw prefix), r (region)"@
}

impl ArgSpec {
    /// The prompt the spec carries, or nothing for the ones that never ask.
    pub open spec fn spec_prompt(self) -> Seq<char> {
        match self {
            ArgSpec::String { prompt } => prompt@,
            ArgSpec::Number { prompt } => prompt@,
            ArgSpec::Buffer { prompt } => prompt@,
            ArgSpec::File { prompt } => prompt@,
            _ => Seq::empty(),
        }
    }

    /// Parse one Emacs-style spec: a single-character code, then the prompt.
    ///
    /// The codes deliberately match Emacs' own so that muscle memory and
    /// documentation carry over: `s`tring, `n`umber, `b`uffer, `f`ile.
    pub fn parse(code: &str) -> (r: Result<Self, String>)
        ensures
            code@.len() == 0 ==> (r matches Err(m) && m@ == "an argument spec cannot be empty"@),
            code@.len() > 0 ==> ({
                let kind = code@[0];
                let prompt = code@.skip(1);
                &&& kind == 's' ==> (r matches Ok(ArgSpec::String { prompt: p }) && p@ == prompt)
                &&& kind == 'n' ==> (r matches Ok(ArgSpec::Number { prompt: p }) && p@ == prompt)
                &&& kind == 'b' ==> (r matches Ok(ArgSpec::Buffer { prompt: p }) && p@ == prompt)
                &&& kind == 'f' ==> (r matches Ok(ArgSpec::File { prompt: p }) && p@ == prompt)
                &&& (kind == 'p' || kind == 'P' || kind == 'r') && prompt.len() > 0 ==> (r matches Err(
                    m,
                ) && m@ == no_prompt_message(code@, kind))
                &&& kind == 'p' && prompt.len() == 0 ==> r == Ok::<ArgSpec, String>(ArgSpec::Count)
                &&& kind == 'P' && prompt.len() == 0 ==> r == Ok::<ArgSpec, String>(ArgSpec::RawCount)
                &&& kind == 'r' && prompt.len() == 0 ==> r == Ok::<ArgSpec, String>(ArgSpec::Region)
                &&& !(kind == 's' || kind == 'n' || kind == 'b' || kind == 'f' || kind == 'p'
                    || kind == 'P' || kind == 'r') ==> (r matches Err(m) && m@
                    == unknown_code_message(code@, kind))
            }),
    {
        let (kind, prompt) = match split_first_char(code) {
            Some(split) => split,
            None => {
                let mut m = String::new();
                m.push_str("an argument spec cannot be empty");
                assert(m@ =~= "an argument spec cannot be empty"@);
                return Err(m);
            },
        };
        match kind {
            's' => Ok(ArgSpec::String { prompt }),
            'n' => Ok(ArgSpec::Number { prompt }),
            'b' => Ok(ArgSpec::Buffer { prompt }),
            'f' => Ok(ArgSpec::File { prompt }),
            // The three that answer themselves. They take no prompt, so
            // anything written after the code is a mistake worth reporting
            // rather than silently dropping.
            'p' | 'P' | 'r' => {
                if !prompt.as_str().is_empty() {
                    let mut m = String::new();
                    m.push_str("argument spec ");
                    let quoted = debug_str(code);
                    m.push_str(quoted.as_str());
                    m.push_str(" takes no prompt: '");
                    m.push(kind);
                    m.push_str("' is answered by the editor");
                    assert(m@ =~= no_prompt_message(code@, kind));
                    Err(m)
                } else if kind == 'p' {
                    Ok(ArgSpec::Count)
                } else if kind == 'P' {
                    Ok(ArgSpec::RawCount)
                } else {
                    Ok(ArgSpec::Region)
                }
            },
            other => {
                let mut m = String::new();
                m.push_str("unknown argument spec code '");
                m.push(other);
                m.push_str("' in ");
                let quoted = debug_str(code);
                m.push_str(quoted.as_str());
                m.push_str(
                    " -- expected one of s (string), n (number), b (buffer name), f (file name), p (prefix count), P (raw prefix), r (region)",
                );
                assert(m@ =~= unknown_code_message(code@, other));
                Err(m)
            },
        }
    }

    /// The symbol Lisp sees for this kind, so the prompting code can dispatch
    /// on it without parsing the code string again.
    pub fn kind(&self) -> (r: &'static str)
        ensures
            r@ == (match *self {
                ArgSpec::String { .. } => "string"@,
                ArgSpec::Number { .. } => "number"@,
                ArgSpec::Buffer { .. } => "buffer"@,
                ArgSpec::File { .. } => "file"@,
                ArgSpec::Count => "count"@,
                ArgSpec::RawCount => "raw-count"@,
                ArgSpec::Region => "region"@,
            }),
    {
        match self {
            ArgSpec::String { .. } => "string",
            ArgSpec::Number { .. } => "number",
            ArgSpec::Buffer { .. } => "buffer",
            ArgSpec::File { .. } => "file",
            ArgSpec::Count => "count",
            ArgSpec::RawCount => "raw-count",
            ArgSpec::Region => "region",
        }
    }

    /// How many values this spec hands the command.
    ///
    /// Almost always one. `r` is the exception -- it is the region's two ends.
    pub fn arity(&self) -> (r: usize)
        ensures
            r == (if *self is Region {
                2int
            } else {
                1int
            }),
    {
        match self {
            ArgSpec::Region => 2,
            _ => 1,
        }
    }

    /// Whether this argument has to be asked of the user.
    pub fn prompts(&self) -> (r: bool)
        ensures
            r == !(*self is Count || *self is RawCount || *self is Region),
    {
        match self {
            ArgSpec::Count | ArgSpec::RawCount | ArgSpec::Region => false,
            _ => true,
        }
    }

    pub fn prompt(&self) -> (r: &str)
        ensures
            r@ == self.spec_prompt(),
    {
        match self {
            ArgSpec::String { prompt } => prompt.as_str(),
            ArgSpec::Number { prompt } => prompt.as_str(),
            ArgSpec::Buffer { prompt } => prompt.as_str(),
            ArgSpec::File { prompt } => prompt.as_str(),
            ArgSpec::Count | ArgSpec::RawCount | ArgSpec::Region => {
                proof {
                    reveal_strlit("");
                }
                ""
            },
        }
    }
}

/// A command whose arguments are still being collected.
///
/// `minibuffer-read` does not block: it opens a prompt and returns, and its
/// callback runs on a *later* keystroke. Collecting two arguments therefore
/// cannot be a loop -- it is a chain, and the state between links lives here.
#[derive(Debug)]
pub struct PendingCommand<E> {
    /// The command to apply once every argument is in.
    pub name: String,
    /// Arguments still to read, in order.
    pub remaining: Vec<ArgSpec>,
    /// Values read so far, in the order the command expects them.
    pub collected: Vec<E>,
    /// What the editor knew when this command started.
    pub invocation: Invocation,
}

impl<E> PendingCommand<E> {
    pub fn new(name: String, remaining: Vec<ArgSpec>, invocation: Invocation) -> (r: Self)
        ensures
            r.name == name,
            r.remaining == remaining,
            r.collected@.len() == 0,
            r.invocation == invocation,
    {
        Self { name, remaining, collected: Vec::new(), invocation }
    }

    /// The argument currently being prompted for.
    pub fn current(&self) -> (r: Option<&ArgSpec>)
        ensures
            self.remaining@.len() == 0 ==> r is None,
            self.remaining@.len() > 0 ==> r == Some(&self.remaining@[0]),
    {
        if self.remaining.len() > 0 {
            Some(&self.remaining[0])
        } else {
            None
        }
    }
}

/// Name -> the arguments to collect for it.
pub type CommandRegistry = HashMap<String, Vec<ArgSpec>>;


/// The number the digits DS spell, the first digit most significant.
pub open spec fn digits_value(ds: Seq<u32>) -> int
    decreases ds.len(),
{
    if ds.len() == 0 {
        0
    } else {
        10 * digits_value(ds.drop_last()) + ds.last()
    }
}

/// The argument A after the digit keys DS, in order.
pub open spec fn after_digits(a: PrefixArg, ds: Seq<u32>) -> PrefixArg
    decreases ds.len(),
{
    if ds.len() == 0 {
        a
    } else {
        after_digits(a, ds.drop_last()).after_digit(ds.last())
    }
}

/// Whether every key in DS is a decimal digit.
pub open spec fn all_digits(ds: Seq<u32>) -> bool {
    forall|i: int| 0 <= i < ds.len() ==> #[trigger] ds[i] < 10
}

proof fn lemma_digits_value_grows(ds: Seq<u32>)
    requires
        all_digits(ds),
    ensures
        digits_value(ds) >= 0,
        ds.len() > 0 ==> digits_value(ds.drop_last()) <= digits_value(ds),
    decreases ds.len(),
{
    if ds.len() > 0 {
        assert(all_digits(ds.drop_last()));
        lemma_digits_value_grows(ds.drop_last());
    }
}

/// `C-u 1 2` means twelve, not four then twelve: digits typed after `C-u`
/// replace it and build the number they spell.
pub proof fn lemma_digits_replace_raw(times: u32, ds: Seq<u32>)
    requires
        ds.len() >= 1,
        all_digits(ds),
        digits_value(ds) <= i32::MAX,
    ensures
        after_digits(PrefixArg::Raw(times), ds) == PrefixArg::Number(digits_value(ds) as i32),
    decreases ds.len(),
{
    lemma_digits_value_grows(ds);
    let rest = ds.drop_last();
    assert(all_digits(rest));
    if rest.len() == 0 {
        assert(digits_value(rest) == 0);
    } else {
        lemma_digits_replace_raw(times, rest);
        lemma_digits_value_grows(rest);
    }
}

/// After a minus, the digits d1..dk give minus the number they spell: `C-u -
/// 4 2` is minus forty-two and `C-u - 0 2` minus two. While every digit typed
/// is zero the argument is zero, and the minus still waits for the rest.
pub proof fn lemma_digits_after_minus(ds: Seq<u32>)
    requires
        all_digits(ds),
        digits_value(ds) <= i32::MAX,
    ensures
        after_digits(PrefixArg::Negative, ds) == (if ds.len() == 0 {
            PrefixArg::Negative
        } else if digits_value(ds) == 0 {
            PrefixArg::NegativeZero
        } else {
            PrefixArg::Number(-digits_value(ds) as i32)
        }),
    decreases ds.len(),
{
    if ds.len() > 0 {
        lemma_digits_value_grows(ds);
        let rest = ds.drop_last();
        assert(all_digits(rest));
        lemma_digits_value_grows(rest);
        lemma_digits_after_minus(rest);
    }
}
} // verus!
