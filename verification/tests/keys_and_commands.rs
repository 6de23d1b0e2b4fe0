use rsedit_core::commands::{ArgSpec, Invocation, PendingCommand, PrefixArg};
use rsedit_core::dispatch::{
    amalgamates, backtrace_suffix, command_form, command_name, eval_error_log, pending_input,
    remembered_as_last, resolve_keys, take_backtrace_suffix, unbound_messages, Bound,
};
use rsedit_core::input::{
    describe_keys, fill_default_keymaps, KeyCode, KeyEvent, Keymap, OnUnbound, TransientKeymap,
};
use rsedit_core::lisp::Sexp;

fn ctrl(c: char) -> KeyEvent {
    let mut k = KeyEvent::new(KeyCode::Char(c));
    k.modifiers.ctrl = true;
    k
}

fn plain(c: char) -> KeyEvent {
    KeyEvent::new(KeyCode::Char(c))
}

#[test]
fn keys_are_described_the_way_bindings_are_written() {
    let mut alt_x = plain('x');
    alt_x.modifiers.alt = true;
    let keys = vec![ctrl('x'), alt_x, plain(' '), KeyEvent::new(KeyCode::Enter)];
    assert_eq!(describe_keys(&keys), "C-x M-x <space> <ret>");
    assert_eq!(describe_keys(&[]), "");
}

#[test]
fn a_binding_registers_its_prefixes() {
    let mut map: Keymap<&str> = Keymap::new();
    map.insert(vec![ctrl('x'), ctrl('f')], "find-file");
    assert_eq!(map.get(&[ctrl('x'), ctrl('f')]), Some(&"find-file"));
    assert!(map.is_prefix(&[ctrl('x')]));
    assert!(!map.is_prefix(&[ctrl('x'), ctrl('f')]));
    assert_eq!(map.get(&[ctrl('x')]), None);
    assert_eq!(map.len(), 1);
    map.insert(vec![ctrl('x'), ctrl('f')], "other");
    assert_eq!(map.len(), 1);
    assert_eq!(map.get(&[ctrl('x'), ctrl('f')]), Some(&"other"));
}

#[test]
fn the_default_keymaps_bind_typing_and_movement() {
    let mut map: Keymap<Sexp> = Keymap::default();
    fill_default_keymaps(&mut map);
    assert_eq!(
        map.get(&[plain('a')]),
        Some(&Sexp::List(vec![Sexp::Symbol("self-insert".into()), Sexp::String("a".into())]))
    );
    assert_eq!(
        map.get(&[ctrl('q')]),
        Some(&Sexp::List(vec![Sexp::Symbol("quit".into())]))
    );
    assert_eq!(
        map.get(&[KeyEvent::new(KeyCode::Left)]),
        Some(&Sexp::List(vec![Sexp::Symbol("backward-char".into())]))
    );
    // 95 printable characters, and eight editor keys.
    assert_eq!(map.len(), 95 + 8);
}

#[test]
fn a_repeat_map_offers_its_key() {
    let map = TransientKeymap::repeating(plain('o'), "other-window");
    assert_eq!(map.message, "[o]");
    assert_eq!(map.on_unbound, OnUnbound::Release);
    assert_eq!(map.keymap.get(&[plain('o')]), Some(&Sexp::Symbol("other-window".into())));
}

#[test]
fn the_mode_keymap_wins_over_the_global_one() {
    let mut global: Keymap<&str> = Keymap::new();
    global.insert_key(ctrl('s'), "save");
    global.insert(vec![ctrl('x'), ctrl('c')], "quit");
    let mut mode: Keymap<&str> = Keymap::new();
    mode.insert_key(ctrl('s'), "search");
    let (bound, release) = resolve_keys(&[ctrl('s')], None, Some(&mode), &global);
    assert!(matches!(bound, Bound::Command(&"search")));
    assert!(!release);
    let (bound, _) = resolve_keys(&[ctrl('x')], None, Some(&mode), &global);
    assert!(matches!(bound, Bound::Prefix));
    assert!(bound.keeps_sequence());
    let (bound, _) = resolve_keys(&[ctrl('z')], None, Some(&mode), &global);
    assert!(matches!(bound, Bound::Unbound));
    assert!(!bound.keeps_sequence());
}

#[test]
fn a_refusing_transient_map_swallows_other_keys() {
    let mut global: Keymap<&str> = Keymap::new();
    global.insert_key(plain('q'), "quit");
    let mut question: Keymap<&str> = Keymap::new();
    question.insert_key(plain('y'), "yes");
    let map = TransientKeymap { keymap: question, on_unbound: OnUnbound::Refuse, message: String::new() };
    let (bound, release) = resolve_keys(&[plain('y')], Some(&map), None, &global);
    assert!(matches!(bound, Bound::Command(&"yes")));
    assert!(!release);
    let (bound, release) = resolve_keys(&[plain('q')], Some(&map), None, &global);
    assert!(matches!(bound, Bound::Refused));
    assert!(!release);
}

#[test]
fn a_releasing_transient_map_lets_other_keys_through() {
    let mut global: Keymap<&str> = Keymap::new();
    global.insert_key(plain('q'), "quit");
    let mut offer: Keymap<&str> = Keymap::new();
    offer.insert_key(plain('o'), "other-window");
    let map = TransientKeymap { keymap: offer, on_unbound: OnUnbound::Release, message: String::new() };
    let (bound, release) = resolve_keys(&[plain('q')], Some(&map), None, &global);
    assert!(matches!(bound, Bound::Command(&"quit")));
    assert!(release);
}

#[test]
fn an_unbound_sequence_is_reported() {
    let (echo, log) = unbound_messages(&[ctrl('x'), plain('z')]);
    assert_eq!(echo, "C-x z is undefined");
    assert_eq!(log, "[INFO] Keymap not bound C-x z");
}

#[test]
fn pending_input_shows_the_argument_and_the_keys() {
    assert_eq!(pending_input(None, &[]), "");
    assert_eq!(pending_input(None, &[ctrl('x')]), "C-x-");
    assert_eq!(pending_input(Some(PrefixArg::Number(4)), &[ctrl('x')]), "C-u 4 C-x-");
    assert_eq!(pending_input(Some(PrefixArg::Raw(2)), &[]), "C-u C-u-");
}

#[test]
fn a_backtrace_is_reported_innermost_first_and_cleared() {
    let mut frames = vec!["inner".to_string(), "middle".to_string(), "outer".to_string()];
    assert_eq!(backtrace_suffix(&frames), " | backtrace: inner -> middle -> outer");
    assert_eq!(take_backtrace_suffix(&mut frames), " | backtrace: inner -> middle -> outer");
    assert!(frames.is_empty());
    assert_eq!(take_backtrace_suffix(&mut frames), "");
    assert_eq!(eval_error_log("boom", &["f".to_string()]), "Eval Error: boom | backtrace: f");
    assert_eq!(eval_error_log("boom", &[]), "Eval Error: boom");
}

#[test]
fn a_prefix_argument_counts_and_reads() {
    assert_eq!(PrefixArg::Raw(0).count(), 1);
    assert_eq!(PrefixArg::Raw(2).count(), 16);
    assert_eq!(PrefixArg::Raw(40).count(), i32::MAX);
    assert_eq!(PrefixArg::Negative.count(), -1);
    assert_eq!(PrefixArg::Raw(3).describe(), "C-u C-u C-u");
    assert_eq!(PrefixArg::Number(-42).describe(), "C-u -42");
    assert_eq!(PrefixArg::Negative.describe(), "C-u -");
}

#[test]
fn digits_replace_a_raw_argument_and_follow_a_minus() {
    let mut arg = PrefixArg::Raw(1);
    arg.push_digit(1);
    arg.push_digit(2);
    assert_eq!(arg, PrefixArg::Number(12));
    let mut neg = PrefixArg::Negative;
    neg.push_digit(4);
    neg.push_digit(2);
    assert_eq!(neg, PrefixArg::Number(-42));
    let mut zero_first = PrefixArg::Negative;
    zero_first.push_digit(0);
    assert_eq!(zero_first.count(), 0);
    assert_eq!(zero_first.describe(), "C-u 0");
    zero_first.push_digit(0);
    assert_eq!(zero_first.count(), 0);
    zero_first.push_digit(2);
    assert_eq!(zero_first, PrefixArg::Number(-2));
    let mut big = PrefixArg::Number(i32::MAX / 10 + 1);
    big.push_digit(9);
    assert_eq!(big, PrefixArg::Number(i32::MAX));
}

#[test]
fn argument_specs_parse_their_codes() {
    assert_eq!(ArgSpec::parse("fFind file: "), Ok(ArgSpec::File { prompt: "Find file: ".into() }));
    assert_eq!(ArgSpec::parse("p"), Ok(ArgSpec::Count));
    assert_eq!(ArgSpec::parse("P"), Ok(ArgSpec::RawCount));
    assert_eq!(ArgSpec::parse("r"), Ok(ArgSpec::Region));
    assert_eq!(ArgSpec::parse(""), Err("an argument spec cannot be empty".to_string()));
    assert_eq!(
        ArgSpec::parse("pCount: "),
        Err("argument spec \"pCount: \" takes no prompt: 'p' is answered by the editor".to_string())
    );
    assert!(ArgSpec::parse("zWhat: ").unwrap_err().starts_with("unknown argument spec code 'z' in \"zWhat: \""));
    let spec = ArgSpec::parse("bBuffer: ").unwrap();
    assert!(spec.prompts());
    assert_eq!(spec.prompt(), "Buffer: ");
    assert_eq!(ArgSpec::Region.arity(), 2);
    assert_eq!(ArgSpec::Count.arity(), 1);
}

#[test]
fn a_pending_command_reads_its_arguments_in_order() {
    let pending: PendingCommand<String> = PendingCommand::new(
        "find-file".to_string(),
        vec![ArgSpec::File { prompt: "Find file: ".into() }, ArgSpec::Count],
        Invocation::default(),
    );
    assert_eq!(pending.current(), Some(&ArgSpec::File { prompt: "Find file: ".into() }));
    assert!(pending.collected.is_empty());
}

#[test]
fn a_bare_command_is_run_interactively() {
    let routed = command_form(Sexp::Symbol("next-line".into()));
    assert_eq!(
        routed,
        Sexp::List(vec![Sexp::Symbol("call-interactively".into()), Sexp::String("next-line".into())])
    );
    let call = Sexp::List(vec![Sexp::Symbol("find-file".into())]);
    assert_eq!(
        command_form(call),
        Sexp::List(vec![Sexp::Symbol("call-interactively".into()), Sexp::String("find-file".into())])
    );
    let typing = Sexp::List(vec![Sexp::Symbol("self-insert".into()), Sexp::String("a".into())]);
    assert_eq!(command_form(Sexp::List(vec![Sexp::Symbol("self-insert".into()), Sexp::String("a".into())])), typing);
}

#[test]
fn a_command_is_named_by_its_head() {
    let typing = Sexp::List(vec![Sexp::Symbol("self-insert".into()), Sexp::String("a".into())]);
    assert_eq!(command_name(&typing), Some("self-insert".to_string()));
    assert_eq!(command_name(&Sexp::Symbol("repeat".into())), Some("repeat".to_string()));
    assert_eq!(command_name(&Sexp::String("x".into())), None);
    assert_eq!(command_name(&Sexp::List(vec![])), None);
    assert!(amalgamates(Some("self-insert")));
    assert!(!amalgamates(Some("next-line")));
    assert!(!amalgamates(None));
    assert!(!remembered_as_last(Some("repeat")));
    assert!(remembered_as_last(Some("next-line")));
    assert!(remembered_as_last(None));
}
