//! The commands of the tool: what the operator's arguments ask for.

use vstd::prelude::*;
use vstd::string::StringExecFns;
use crate::error::StackError;
use crate::graph::{parent_in, StackGraph};
use crate::links::{names_of, Link, Name, ParentLink};

verus! {

/// The mathematical value of a command.
pub enum Cmd {
    New(Name),
    Switch(Name),
    Submit,
    Restack,
    Amend,
    Log,
    Land,
}

/// What the operator asked for.
#[derive(Debug, PartialEq, Eq)]
pub enum Command {
    /// Create the named branch on top of the current one.
    New(String),
    /// Move to the named branch.
    Switch(String),
    /// Push the current branch and open or update its pull request.
    Submit,
    /// Rebase all descendants of the current branch.
    Restack,
    /// Amend the last commit, then restack.
    Amend,
    /// Show the stack as a tree.
    Log,
    /// Merge the stack into the trunk.
    Land,
}

impl View for Command {
    type V = Cmd;

    open spec fn view(&self) -> Cmd {
        match self {
            Command::New(name) => Cmd::New(name@),
            Command::Switch(name) => Cmd::Switch(name@),
            Command::Submit => Cmd::Submit,
            Command::Restack => Cmd::Restack,
            Command::Amend => Cmd::Amend,
            Command::Log => Cmd::Log,
            Command::Land => Cmd::Land,
        }
    }
}

/// The name of the trunk, into which all stacks are landed.
pub open spec fn trunk_name() -> Name {
    "main"@
}

/// The trunk branch.
pub fn trunk() -> (name: String)
    ensures
        name@ == trunk_name(),
{
    String::from_str("main")
}

/// The branch that a pull request for `branch` is opened against: its
/// recorded parent, or `trunk` where it has none.
pub open spec fn base_in(links: Seq<Link>, branch: Name, trunk: Name) -> Name {
    match parent_in(links, branch) {
        Some(parent) => parent,
        None => trunk,
    }
}

/// Finds the branch that a pull request for `branch` is opened against.
pub fn submit_base(graph: &StackGraph, branch: &str, trunk: &str) -> (base: String)
    ensures
        base@ == base_in(graph@, branch@, trunk@),
{
    match graph.parent_of(branch) {
        Some(parent) => parent,
        None => String::from_str(trunk),
    }
}

/// What a submit does about the pull request, once the branch is pushed.
#[derive(Debug, Clone, Copy, PartialEq, Eq, Structural)]
pub enum SubmitStep {
    /// A pull request exists: point it at the base branch.
    UpdateBase,
    /// None exists: ask for title and description and create one.
    Create,
}

/// Decides what a submit does about the pull request.
pub fn submit_step(pr_exists: bool) -> (step: SubmitStep)
    ensures
        step == if pr_exists {
            SubmitStep::UpdateBase
        } else {
            SubmitStep::Create
        },
{
    if pr_exists {
        SubmitStep::UpdateBase
    } else {
        SubmitStep::Create
    }
}

/// Starts a new branch: the link to record for the branch named by the
/// first argument, on top of `current`. Without an argument it is a usage
/// error.
pub fn cmd_new(args: &Vec<String>, current: &str) -> (link: Result<ParentLink, StackError>)
    ensures
        args@.len() == 0 ==> link is Err && link->Err_0 is Usage && link->Err_0.text()
            == "Usage: stack new <branch-name>"@,
        args@.len() > 0 ==> link is Ok && link->Ok_0@ == (Link {
            child: args@[0]@,
            parent: current@,
        }),
{
    if args.len() == 0 {
        return Err(StackError::Usage(String::from_str("Usage: stack new <branch-name>")));
    }
    Ok(ParentLink { child: args[0].clone(), parent: String::from_str(current) })
}

/// Switches branches: the branch to move to, named by the first argument.
/// Without an argument it is a usage error.
pub fn cmd_switch(args: &Vec<String>) -> (target: Result<String, StackError>)
    ensures
        args@.len() == 0 ==> target is Err && target->Err_0 is Usage && target->Err_0.text()
            == "Usage: stack switch <branch-name>"@,
        args@.len() > 0 ==> target is Ok && target->Ok_0@ == args@[0]@,
{
    if args.len() == 0 {
        return Err(StackError::Usage(String::from_str("Usage: stack switch <branch-name>")));
    }
    Ok(args[0].clone())
}

/// What the argument list `args` asks for, the program's own name first;
/// or the text of the usage error.
pub open spec fn command_of(args: Seq<Name>) -> Result<Cmd, Name> {
    if args.len() < 2 {
        Err("Usage: stack <new|switch|submit|restack|amend|log|land>"@)
    } else if args[1] == "new"@ {
        if args.len() < 3 {
            Err("Usage: stack new <branch-name>"@)
        } else {
            Ok(Cmd::New(args[2]))
        }
    } else if args[1] == "switch"@ {
        if args.len() < 3 {
            Err("Usage: stack switch <branch-name>"@)
        } else {
            Ok(Cmd::Switch(args[2]))
        }
    } else if args[1] == "submit"@ {
        Ok(Cmd::Submit)
    } else if args[1] == "restack"@ {
        Ok(Cmd::Restack)
    } else if args[1] == "amend"@ {
        Ok(Cmd::Amend)
    } else if args[1] == "log"@ {
        Ok(Cmd::Log)
    } else if args[1] == "land"@ {
        Ok(Cmd::Land)
    } else {
        Err("Unknown command: "@ + args[1])
    }
}

fn is_word(arg: &String, word: &str) -> (same: bool)
    ensures
        same == (arg@ == word@),
{
    *arg == String::from_str(word)
}

/// Reads the command out of the argument list, the program's own name
/// first. A missing or unknown command, or a missing branch name, is a
/// usage error.
pub fn parse_command(args: &Vec<String>) -> (command: Result<Command, StackError>)
    ensures
        match command_of(names_of(args@)) {
            Ok(cmd) => command is Ok && command->Ok_0@ == cmd,
            Err(text) => command is Err && command->Err_0 is Usage && command->Err_0.text()
                == text,
        },
{
    if args.len() < 2 {
        return Err(
            StackError::Usage(
                String::from_str("Usage: stack <new|switch|submit|restack|amend|log|land>"),
            ),
        );
    }
    let word = &args[1];
    assert(names_of(args@)[1] == word@);
    if is_word(word, "new") {
        if args.len() < 3 {
            return Err(StackError::Usage(String::from_str("Usage: stack new <branch-name>")));
        }
        assert(names_of(args@)[2] == args@[2]@);
        Ok(Command::New(args[2].clone()))
    } else if is_word(word, "switch") {
        if args.len() < 3 {
            return Err(StackError::Usage(String::from_str("Usage: stack switch <branch-name>")));
        }
        assert(names_of(args@)[2] == args@[2]@);
        Ok(Command::Switch(args[2].clone()))
    } else if is_word(word, "submit") {
        Ok(Command::Submit)
    } else if is_word(word, "restack") {
        Ok(Command::Restack)
    } else if is_word(word, "amend") {
        Ok(Command::Amend)
    } else if is_word(word, "log") {
        Ok(Command::Log)
    } else if is_word(word, "land") {
        Ok(Command::Land)
    } else {
        let mut text = String::from_str("Unknown command: ");
        text.append(word.as_str());
        Err(StackError::Usage(text))
    }
}

} // verus!
