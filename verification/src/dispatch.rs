//! From a keystroke to a command, and what the user is told along the way:
//! the keymaps that resolve a sequence, what the echo area shows of input
//! still being read, and how a backtrace is reported.
use vstd::prelude::*;
use crate::commands::PrefixArg;
use crate::input::{describe_keys, keys_text, Keymap, OnUnbound, TransientKeymap, KeyEvent, proper_prefixes};
use crate::lisp::{Sexp, SexpView, lemma_sexp_list_view, sexps_view};

verus! {

/// What the keymaps had to say about the key sequence typed so far.
///
/// Four answers rather than a pair of "what it is bound to" and "whether it
/// is a prefix": that pair could say bound *and* a prefix, which is not a
/// thing a keymap can mean, and it had no way to say "bound to nothing, and
/// say nothing about it", which a transient map that refuses keys needs.
#[derive(Debug)]
pub enum Bound<E> {
    /// Run this.
    Command(E),
    /// Part-way through a sequence. The keys are kept.
    Prefix,
    /// Bound to nothing, and nothing is to be said about it.
    Refused,
    /// Bound to nothing. Say so.
    Unbound,
}

impl<E> Bound<E> {
    /// Whether the keys typed so far are kept for the next one: only a
    /// sequence part-way through a binding is.
    pub fn keeps_sequence(&self) -> (r: bool)
        ensures
            r == (self is Prefix),
    {
        match self {
            Bound::Prefix => true,
            _ => false,
        }
    }
}

/// Whether `keys` begins a longer binding of `map`.
pub open spec fn begins_binding<E>(map: Keymap<E>, keys: Seq<KeyEvent>) -> bool {
    proper_prefixes(map.bindings().dom()).contains(keys)
}

/// What `keys` resolves to in a mode's keymap and the global one: the
/// mode's own binding wins, then the global one -- and a mode that binds a
/// prefix keeps the sequence alive even when only the global map completes
/// it.
pub open spec fn resolve_below<E>(keys: Seq<KeyEvent>, mode: Option<Keymap<E>>, global: Keymap<E>) -> Bound<E> {
    if mode matches Some(m) && m.bindings().contains_key(keys) {
        Bound::Command(mode->0.bindings()[keys])
    } else if global.bindings().contains_key(keys) {
        Bound::Command(global.bindings()[keys])
    } else if (mode matches Some(m) && begins_binding(m, keys)) || begins_binding(global, keys) {
        Bound::Prefix
    } else {
        Bound::Unbound
    }
}

/// What `keys` resolves to, and whether the transient map is to be taken
/// down: a transient map is consulted before every other, for as long as it
/// is installed.
pub open spec fn resolution<E>(
    keys: Seq<KeyEvent>,
    transient: Option<TransientKeymap<E>>,
    mode: Option<Keymap<E>>,
    global: Keymap<E>,
) -> (Bound<E>, bool) {
    match transient {
        Some(t) => if t.keymap.bindings().contains_key(keys) {
            (Bound::Command(t.keymap.bindings()[keys]), false)
        } else if begins_binding(t.keymap, keys) {
            (Bound::Prefix, false)
        } else if t.on_unbound == OnUnbound::Refuse {
            (Bound::Refused, false)
        } else {
            (resolve_below(keys, mode, global), true)
        },
        None => (resolve_below(keys, mode, global), false),
    }
}

/// The mode's own keymap wins, then the global one: with no transient map in
/// the way (none installed, or one that binds nothing the keys begin and lets
/// them through), keys the mode binds run the mode's command, and keys the
/// mode does not bind but the global map does run the global command --
/// whether or not there is a mode keymap at all.
pub proof fn lemma_mode_then_global<E>(
    keys: Seq<KeyEvent>,
    transient: Option<TransientKeymap<E>>,
    mode: Option<Keymap<E>>,
    global: Keymap<E>,
)
    requires
        transient matches Some(t) ==> !t.keymap.bindings().contains_key(keys) && !begins_binding(t.keymap, keys)
            && t.on_unbound == OnUnbound::Release,
    ensures
        mode matches Some(m) ==> (m.bindings().contains_key(keys) ==> resolution(keys, transient, mode, global).0
            == Bound::Command(m.bindings()[keys])),
        !(mode matches Some(m) && m.bindings().contains_key(keys)) && global.bindings().contains_key(keys)
            ==> resolution(keys, transient, mode, global).0 == Bound::Command(global.bindings()[keys]),
        !(mode matches Some(m) && m.bindings().contains_key(keys)) ==> resolution(keys, transient, mode, global).0
            is Command == (global.bindings().contains_key(keys)),
{
}

/// A resolution whose command is held by reference, as its value.
pub open spec fn bound_value<E>(b: Bound<&E>) -> Bound<E> {
    match b {
        Bound::Command(e) => Bound::Command(*e),
        Bound::Prefix => Bound::Prefix,
        Bound::Refused => Bound::Refused,
        Bound::Unbound => Bound::Unbound,
    }
}

fn resolve_in<'a, E>(keys: &[KeyEvent], mode: Option<&'a Keymap<E>>, global: &'a Keymap<E>) -> (r: Bound<&'a E>)
    requires
        mode matches Some(m) ==> m.inv(),
        global.inv(),
    ensures
        bound_value(r) == resolve_below(
            keys@,
            match mode {
                Some(m) => Some(*m),
                None => None,
            },
            *global,
        ),
{
    let from_mode = match mode {
        Some(m) => m.get(keys),
        None => None,
    };
    match from_mode {
        Some(e) => {
            return Bound::Command(e);
        },
        None => {},
    }
    match global.get(keys) {
        Some(e) => {
            return Bound::Command(e);
        },
        None => {},
    }
    let mode_prefix = match mode {
        Some(m) => m.is_prefix(keys),
        None => false,
    };
    if mode_prefix || global.is_prefix(keys) {
        Bound::Prefix
    } else {
        Bound::Unbound
    }
}

/// Resolve the key sequence typed so far against the transient map, the
/// mode's keymap and the global one, and say whether the transient map is to
/// be taken down.
///
/// A transient map that refuses keys swallows one it does not bind, and stays;
/// one that releases them is dismissed, and the key carries on to the keymaps
/// underneath exactly as though the map had never been there.
pub fn resolve_keys<'a, E>(
    keys: &[KeyEvent],
    transient: Option<&'a TransientKeymap<E>>,
    mode: Option<&'a Keymap<E>>,
    global: &'a Keymap<E>,
) -> (r: (Bound<&'a E>, bool))
    requires
        transient matches Some(t) ==> t.keymap.inv(),
        mode matches Some(m) ==> m.inv(),
        global.inv(),
    ensures
        (bound_value(r.0), r.1) == resolution(
            keys@,
            match transient {
                Some(t) => Some(*t),
                None => None,
            },
            match mode {
                Some(m) => Some(*m),
                None => None,
            },
            *global,
        ),
{
    let mut release = false;
    match transient {
        Some(map) => {
            match map.keymap.get(keys) {
                Some(e) => {
                    return (Bound::Command(e), false);
                },
                None => {},
            }
            if map.keymap.is_prefix(keys) {
                return (Bound::Prefix, false);
            }
            match map.on_unbound {
                OnUnbound::Refuse => {
                    return (Bound::Refused, false);
                },
                OnUnbound::Release => {
                    release = true;
                },
            }
        },
        None => {},
    }
    (resolve_in(keys, mode, global), release)
}

/// What the echo area says of a sequence bound to nothing, and what the log
/// records of it.
pub fn unbound_messages(keys: &[KeyEvent]) -> (r: (String, String))
    ensures
        r.0@ == keys_text(keys@) + " is undefined"@,
        r.1@ == "[INFO] Keymap not bound "@ + keys_text(keys@),
{
    let described = describe_keys(keys);
    let mut echo = String::new();
    echo.push_str(described.as_str());
    echo.push_str(" is undefined");
    let mut log = String::new();
    log.push_str("[INFO] Keymap not bound ");
    log.push_str(described.as_str());
    proof {
        assert(echo@ =~= keys_text(keys@) + " is undefined"@);
        assert(log@ =~= "[INFO] Keymap not bound "@ + keys_text(keys@));
    }
    (echo, log)
}

/// What the editor is part-way through reading, spelt the way a binding is
/// written and ending in a dash for the key still to come: the prefix
/// argument and the keys appear together, because they compose.
pub open spec fn pending_text(arg: Option<PrefixArg>, keys: Seq<KeyEvent>) -> Seq<char> {
    match arg {
        Some(a) => if keys.len() > 0 {
            a.description() + " "@ + keys_text(keys) + "-"@
        } else {
            a.description() + "-"@
        },
        None => if keys.len() > 0 {
            keys_text(keys) + "-"@
        } else {
            Seq::empty()
        },
    }
}

/// What the echo area shows of input still being read.
pub fn pending_input(arg: Option<PrefixArg>, keys: &[KeyEvent]) -> (r: String)
    ensures
        r@ == pending_text(arg, keys@),
{
    let mut out = String::new();
    let mut any = false;
    match arg {
        Some(a) => {
            let text = a.describe();
            out.push_str(text.as_str());
            any = true;
        },
        None => {},
    }
    if keys.len() > 0 {
        if any {
            out.push_str(" ");
        }
        let described = describe_keys(keys);
        out.push_str(described.as_str());
        any = true;
    }
    if !any {
        return String::new();
    }
    out.push_str("-");
    proof {
        match arg {
            Some(a) => if keys@.len() > 0 {
                assert(out@ =~= a.description() + " "@ + keys_text(keys@) + "-"@);
            } else {
                assert(out@ =~= a.description() + "-"@);
            },
            None => {
                assert(out@ =~= keys_text(keys@) + "-"@);
            },
        }
    }
    out
}

/// `parts` written one after another with `sep` between them.
pub open spec fn joined(parts: Seq<Seq<char>>, sep: Seq<char>) -> Seq<char>
    decreases parts.len(),
{
    if parts.len() == 0 {
        Seq::empty()
    } else if parts.len() == 1 {
        parts[0]
    } else {
        joined(parts.drop_last(), sep) + sep + parts.last()
    }
}

/// The text of each string.
pub open spec fn texts(s: Seq<String>) -> Seq<Seq<char>> {
    s.map_values(|t: String| t@)
}

/// How a captured call stack is reported after an error: ` | backtrace: `
/// and the frames, innermost first, joined by arrows -- or nothing when there
/// are none.
pub open spec fn backtrace_text(frames: Seq<Seq<char>>) -> Seq<char> {
    if frames.len() == 0 {
        Seq::empty()
    } else {
        " | backtrace: "@ + joined(frames, " -> "@)
    }
}

/// The suffix an error report carries for the frames captured at the point
/// of failure.
pub fn backtrace_suffix(frames: &[String]) -> (r: String)
    ensures
        r@ == backtrace_text(texts(frames@)),
{
    if frames.len() == 0 {
        return String::new();
    }
    let mut out = String::new();
    out.push_str(" | backtrace: ");
    let ghost head = out@;
    let mut i: usize = 0;
    while i < frames.len()
        invariant
            i <= frames@.len(),
            frames@.len() > 0,
            head == " | backtrace: "@,
            out@ == head + joined(texts(frames@).take(i as int), " -> "@),
        decreases frames@.len() - i,
    {
        if i > 0 {
            out.push_str(" -> ");
        }
        out.push_str(frames[i].as_str());
        proof {
            let t = texts(frames@);
            assert(t.take(i + 1).drop_last() =~= t.take(i as int));
            assert(t.take(i + 1).last() == frames@[i as int]@);
            if i == 0 {
                assert(t.take(1) =~= seq![frames@[0]@]);
                assert(out@ =~= head + joined(t.take(1), " -> "@));
            } else {
                assert(out@ =~= head + joined(t.take(i + 1), " -> "@));
            }
        }
        i = i + 1;
    }
    proof {
        assert(texts(frames@).take(i as int) =~= texts(frames@));
    }
    out
}

/// The backtrace suffix for the frames captured at the point of the most
/// recent uncaught error, with the frames cleared either way, so that the
/// next error starts from a clean stack.
pub fn take_backtrace_suffix(frames: &mut Vec<String>) -> (r: String)
    ensures
        r@ == backtrace_text(texts(old(frames)@)),
        final(frames)@ == Seq::<String>::empty(),
{
    let suffix = backtrace_suffix(frames.as_slice());
    frames.clear();
    suffix
}

/// What the log records of an uncaught evaluation error when nothing in the
/// configuration is there to report it: the message, then the backtrace.
pub fn eval_error_log(message: &str, frames: &[String]) -> (r: String)
    ensures
        r@ == "Eval Error: "@ + message@ + backtrace_text(texts(frames@)),
{
    let suffix = backtrace_suffix(frames);
    let mut out = String::new();
    out.push_str("Eval Error: ");
    out.push_str(message);
    out.push_str(suffix.as_str());
    proof {
        assert(out@ =~= "Eval Error: "@ + message@ + backtrace_text(texts(frames@)));
    }
    out
}


/// The command a form runs: a bare symbol names it, and a call names it by
/// its head -- `(self-insert "a")` runs `self-insert` just as much as a bare
/// `next-line` does.
pub open spec fn command_of(e: SexpView) -> Option<Seq<char>> {
    match e {
        SexpView::Symbol(name) => Some(name),
        SexpView::List(items) => if items.len() > 0 && items[0] is Symbol {
            Some(items[0]->Symbol_0)
        } else {
            None
        },
        _ => None,
    }
}

/// The command a binding names without supplying its arguments: a bare
/// symbol, or a call with nothing after its head.
pub open spec fn bare_command(e: SexpView) -> Option<Seq<char>> {
    match e {
        SexpView::Symbol(name) => Some(name),
        SexpView::List(items) => if items.len() == 1 && items[0] is Symbol {
            Some(items[0]->Symbol_0)
        } else {
            None
        },
        _ => None,
    }
}

/// The name of the command a form runs, if it names one.
pub fn command_name(ast: &Sexp) -> (r: Option<String>)
    ensures
        r matches Some(n) ==> command_of(ast@) == Some(n@),
        r is None ==> command_of(ast@) is None,
{
    proof {
        lemma_sexp_list_view(*ast);
    }
    match ast {
        Sexp::Symbol(name) => Some(name.clone()),
        Sexp::List(items) => {
            if items.len() > 0 {
                match &items[0] {
                    Sexp::Symbol(name) => Some(name.clone()),
                    _ => None,
                }
            } else {
                None
            }
        },
        _ => None,
    }
}

/// What running the binding AST evaluates: a binding that names a command
/// without its arguments is routed through `call-interactively`, so that the
/// editor collects whatever arguments the command declared; one that supplies
/// them -- every ordinary keystroke -- is left exactly as it is.
pub fn command_form(ast: Sexp) -> (r: Sexp)
    ensures
        match bare_command(ast@) {
            Some(name) => r@ == SexpView::List(seq![
                SexpView::Symbol("call-interactively"@),
                SexpView::String(name),
            ]),
            None => r == ast,
        },
{
    proof {
        lemma_sexp_list_view(ast);
    }
    let name = match &ast {
        Sexp::Symbol(name) => Some(name.clone()),
        Sexp::List(items) => {
            if items.len() == 1 {
                match &items[0] {
                    Sexp::Symbol(name) => Some(name.clone()),
                    _ => None,
                }
            } else {
                None
            }
        },
        _ => None,
    };
    match name {
        Some(name) => {
            let mut items: Vec<Sexp> = Vec::new();
            items.push(Sexp::symbol("call-interactively"));
            items.push(Sexp::String(name));
            let ghost wanted = seq![SexpView::Symbol("call-interactively"@), SexpView::String(name@)];
            proof {
                lemma_sexp_list_view(Sexp::List(items));
                assert(sexps_view(items@) =~= wanted);
            }
            Sexp::List(items)
        },
        None => ast,
    }
}

/// Whether the command named NAME amalgamates into one undo step with the
/// same command before it: only typing does.
pub fn amalgamates(name: Option<&str>) -> (r: bool)
    ensures
        r == (name matches Some(n) && n@ == "self-insert"@),
{
    match name {
        Some(n) => crate::string_ops::same_text(n, "self-insert"),
        None => false,
    }
}

/// Whether the form a command ran is remembered as the last one: not when the
/// command is `repeat`, or repeating would repeat the repeating.
pub fn remembered_as_last(name: Option<&str>) -> (r: bool)
    ensures
        r == !(name matches Some(n) && n@ == "repeat"@),
{
    match name {
        Some(n) => !crate::string_ops::same_text(n, "repeat"),
        None => true,
    }
}

/// A hook run after a command.
#[derive(Debug, Clone, Copy, PartialEq, Eq, Structural)]
pub enum Hook {
    /// `post-self-insert-hook`, run only after typing.
    PostSelfInsert,
    /// `post-command-hook`, run after every command that succeeded.
    PostCommand,
}

impl Hook {
    /// The hook's name.
    pub fn name(&self) -> (r: &'static str)
        ensures
            r@ == match self {
                Hook::PostSelfInsert => "post-self-insert-hook"@,
                Hook::PostCommand => "post-command-hook"@,
            },
    {
        match self {
            Hook::PostSelfInsert => "post-self-insert-hook",
            Hook::PostCommand => "post-command-hook",
        }
    }
}

/// One thing done around running a command, in the order handed out.
#[derive(Debug, Clone, Copy, PartialEq, Eq, Structural)]
pub enum CommandStep {
    /// Open the undo group the command's edits land in, however many it
    /// makes; AMALGAMATE when it may join the group of the same command
    /// before it.
    BeginUndoGroup { amalgamate: bool },
    /// Roll over the flags the previous command left, so the command can ask
    /// them about its predecessor.
    RollOverFlags,
    /// Evaluate the command's form.
    Evaluate,
    /// Drop the prefix argument: the command consumed it, whether or not it
    /// succeeded.
    ClearPrefixArgument,
    /// Report that the command failed.
    ReportError,
    /// Run a hook of the current mode.
    RunHook(Hook),
    /// Remember the command's form as the one `repeat` runs again.
    RememberForm,
    /// Offer the command's repeat keymap, or take down the one the previous
    /// command offered.
    InstallRepeatKeymap,
    /// Remember the command's name as the last command.
    SetLastCommand,
}

/// Whether NAME is the command name WORD.
pub open spec fn names(name: Option<Seq<char>>, word: Seq<char>) -> bool {
    name matches Some(n) && n == word
}

/// What is done up to the command's evaluation, for the command named NAME:
/// the undo group is opened and the flags rolled over first, so that its
/// edits land in one group and it can ask about its predecessor.
pub open spec fn steps_before(name: Option<Seq<char>>) -> Seq<CommandStep> {
    seq![
        CommandStep::BeginUndoGroup { amalgamate: names(name, "self-insert"@) },
        CommandStep::RollOverFlags,
        CommandStep::Evaluate,
    ]
}

/// What is done once the command named NAME has been evaluated, FAILED or
/// not: the prefix argument goes either way; a failure is reported and ends
/// the run there; otherwise the hooks run (the typing hook first, and only
/// for typing), the form is remembered unless the command was `repeat`, and
/// the repeat keymap and the last command are brought up to date.
pub open spec fn steps_after(name: Option<Seq<char>>, failed: bool) -> Seq<CommandStep> {
    if failed {
        seq![CommandStep::ClearPrefixArgument, CommandStep::ReportError]
    } else {
        seq![CommandStep::ClearPrefixArgument]
            + (if names(name, "self-insert"@) {
                seq![CommandStep::RunHook(Hook::PostSelfInsert)]
            } else {
                Seq::empty()
            })
            + seq![CommandStep::RunHook(Hook::PostCommand)]
            + (if names(name, "repeat"@) {
                Seq::empty()
            } else {
                seq![CommandStep::RememberForm]
            })
            + seq![CommandStep::InstallRepeatKeymap, CommandStep::SetLastCommand]
    }
}

/// A command consumes its prefix argument whether or not it succeeds; one
/// that fails runs no hook and is remembered neither as the last command nor
/// as the form to repeat; and one that succeeds is remembered as the form to
/// repeat exactly when it is not `repeat` itself.
pub proof fn lemma_command_aftermath(name: Option<Seq<char>>, failed: bool)
    ensures
        steps_after(name, failed)[0] == CommandStep::ClearPrefixArgument,
        failed ==> forall|i: int| 0 <= i < steps_after(name, failed).len() ==> {
            let s = #[trigger] steps_after(name, failed)[i];
            !(s is RunHook) && s != CommandStep::RememberForm && s != CommandStep::SetLastCommand
        },
        !failed ==> (steps_after(name, failed).contains(CommandStep::RememberForm) <==> !names(name, "repeat"@)),
{
    let steps = steps_after(name, failed);
    if !failed {
        let typed: Seq<CommandStep> = if names(name, "self-insert"@) {
            seq![CommandStep::RunHook(Hook::PostSelfInsert)]
        } else {
            Seq::empty()
        };
        let k: int = 2int + typed.len() as int;
        if names(name, "repeat"@) {
            if steps.contains(CommandStep::RememberForm) {
                let i = choose|i: int| 0 <= i < steps.len() && steps[i] == CommandStep::RememberForm;
                assert(steps[i] != CommandStep::RememberForm);
            }
        } else {
            assert(steps[k] == CommandStep::RememberForm);
        }
    }
}

/// The steps of running the command named NAME up to its evaluation.
pub fn command_steps_before(name: Option<&str>) -> (r: Vec<CommandStep>)
    ensures
        r@ == steps_before(match name {
            Some(n) => Some(n@),
            None => None,
        }),
{
    let amalgamate = amalgamates(name);
    let mut steps: Vec<CommandStep> = Vec::new();
    steps.push(CommandStep::BeginUndoGroup { amalgamate });
    steps.push(CommandStep::RollOverFlags);
    steps.push(CommandStep::Evaluate);
    steps
}

/// The steps of running the command named NAME once it has been evaluated,
/// FAILED or not.
pub fn command_steps_after(name: Option<&str>, failed: bool) -> (r: Vec<CommandStep>)
    ensures
        r@ == steps_after(
            match name {
                Some(n) => Some(n@),
                None => None,
            },
            failed,
        ),
{
    let ghost name_view = match name {
        Some(n) => Some(n@),
        None => None,
    };
    let mut steps: Vec<CommandStep> = Vec::new();
    steps.push(CommandStep::ClearPrefixArgument);
    if failed {
        steps.push(CommandStep::ReportError);
        proof {
            assert(steps@ =~= steps_after(name_view, failed));
        }
        return steps;
    }
    let typed = amalgamates(name);
    if typed {
        steps.push(CommandStep::RunHook(Hook::PostSelfInsert));
    }
    steps.push(CommandStep::RunHook(Hook::PostCommand));
    if remembered_as_last(name) {
        steps.push(CommandStep::RememberForm);
    }
    steps.push(CommandStep::InstallRepeatKeymap);
    steps.push(CommandStep::SetLastCommand);
    proof {
        assert(steps@ =~= steps_after(name_view, failed));
    }
    steps
}

} // verus!
