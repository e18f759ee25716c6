use branch_stack::commands::{
    cmd_new, cmd_switch, parse_command, submit_base, submit_step, trunk, Command, SubmitStep,
};
use branch_stack::error::{err, StackError};
use branch_stack::graph::get_child_map;
use branch_stack::links::ParentLink;

fn names(v: &[&str]) -> Vec<String> {
    v.iter().map(|s| s.to_string()).collect()
}

fn usage(text: &str) -> StackError {
    StackError::Usage(text.to_string())
}

#[test]
fn commands_without_arguments_are_recognised() {
    assert_eq!(parse_command(&names(&["stack", "submit"])), Ok(Command::Submit));
    assert_eq!(parse_command(&names(&["stack", "restack"])), Ok(Command::Restack));
    assert_eq!(parse_command(&names(&["stack", "amend"])), Ok(Command::Amend));
    assert_eq!(parse_command(&names(&["stack", "log"])), Ok(Command::Log));
    assert_eq!(parse_command(&names(&["stack", "land", "extra"])), Ok(Command::Land));
}

#[test]
fn commands_with_a_branch_name_carry_it() {
    assert_eq!(
        parse_command(&names(&["stack", "new", "topic"])),
        Ok(Command::New("topic".to_string()))
    );
    assert_eq!(
        parse_command(&names(&["stack", "switch", "topic", "more"])),
        Ok(Command::Switch("topic".to_string()))
    );
}

#[test]
fn missing_command_is_a_usage_error() {
    let text = "Usage: stack <new|switch|submit|restack|amend|log|land>";
    assert_eq!(parse_command(&names(&["stack"])), Err(usage(text)));
    assert_eq!(parse_command(&names(&[])), Err(usage(text)));
}

#[test]
fn missing_branch_name_is_a_usage_error() {
    assert_eq!(
        parse_command(&names(&["stack", "new"])),
        Err(usage("Usage: stack new <branch-name>"))
    );
    assert_eq!(
        parse_command(&names(&["stack", "switch"])),
        Err(usage("Usage: stack switch <branch-name>"))
    );
}

#[test]
fn unknown_command_is_named_in_the_error() {
    let result = parse_command(&names(&["stack", "frobnicate"]));
    assert_eq!(result, Err(usage("Unknown command: frobnicate")));
    assert_eq!(result.unwrap_err().message(), "Unknown command: frobnicate");
}

#[test]
fn cmd_new_records_the_link_to_current() {
    assert_eq!(
        cmd_new(&names(&["topic"]), "base"),
        Ok(ParentLink { child: "topic".to_string(), parent: "base".to_string() })
    );
    assert_eq!(cmd_new(&names(&[]), "base"), Err(usage("Usage: stack new <branch-name>")));
}

#[test]
fn cmd_switch_names_the_target() {
    assert_eq!(cmd_switch(&names(&["topic", "x"])), Ok("topic".to_string()));
    assert_eq!(cmd_switch(&names(&[])), Err(usage("Usage: stack switch <branch-name>")));
}

#[test]
fn submit_base_defaults_to_the_trunk() {
    let graph = get_child_map("branch.b.stack-parent a\n");
    assert_eq!(submit_base(&graph, "b", "main"), "a");
    assert_eq!(submit_base(&graph, "a", "main"), "main");
    assert_eq!(trunk(), "main");
}

#[test]
fn err_carries_its_message() {
    let e = err("Command failed: git rebase a");
    assert_eq!(e, StackError::Command("Command failed: git rebase a".to_string()));
    assert_eq!(e.message(), "Command failed: git rebase a");
    assert_eq!(
        StackError::CorruptStack.message(),
        "Corrupt stack: parent links form a cycle"
    );
}

#[test]
fn submit_updates_an_existing_pull_request() {
    assert_eq!(submit_step(true), SubmitStep::UpdateBase);
    assert_eq!(submit_step(false), SubmitStep::Create);
}
