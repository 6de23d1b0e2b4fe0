use rsedit_core::dispatch::{command_steps_after, command_steps_before, CommandStep, Hook};

#[test]
fn typing_opens_an_amalgamating_group_before_it_runs() {
    assert_eq!(
        command_steps_before(Some("self-insert")),
        vec![
            CommandStep::BeginUndoGroup { amalgamate: true },
            CommandStep::RollOverFlags,
            CommandStep::Evaluate,
        ]
    );
    assert_eq!(
        command_steps_before(Some("next-line"))[0],
        CommandStep::BeginUndoGroup { amalgamate: false }
    );
    assert_eq!(command_steps_before(None)[0], CommandStep::BeginUndoGroup { amalgamate: false });
}

#[test]
fn typing_runs_its_own_hook_before_the_general_one() {
    assert_eq!(
        command_steps_after(Some("self-insert"), false),
        vec![
            CommandStep::ClearPrefixArgument,
            CommandStep::RunHook(Hook::PostSelfInsert),
            CommandStep::RunHook(Hook::PostCommand),
            CommandStep::RememberForm,
            CommandStep::InstallRepeatKeymap,
            CommandStep::SetLastCommand,
        ]
    );
    assert_eq!(Hook::PostSelfInsert.name(), "post-self-insert-hook");
    assert_eq!(Hook::PostCommand.name(), "post-command-hook");
}

#[test]
fn repeat_is_not_remembered_as_the_form_to_repeat() {
    assert_eq!(
        command_steps_after(Some("repeat"), false),
        vec![
            CommandStep::ClearPrefixArgument,
            CommandStep::RunHook(Hook::PostCommand),
            CommandStep::InstallRepeatKeymap,
            CommandStep::SetLastCommand,
        ]
    );
}

#[test]
fn a_failed_command_still_consumes_its_argument_and_stops_there() {
    assert_eq!(
        command_steps_after(Some("self-insert"), true),
        vec![CommandStep::ClearPrefixArgument, CommandStep::ReportError]
    );
}
