//! The ways in which a stack operation can fail.

use vstd::prelude::*;
use vstd::string::StringExecFns;

verus! {

/// Why an operation on the stack did not go through.
#[derive(Debug, PartialEq, Eq)]
pub enum StackError {
    /// A command was called without an argument that it needs, or is unknown.
    Usage(String),
    /// An outside command failed.
    Command(String),
    /// The parent links run in a circle.
    CorruptStack,
    /// The land plan is empty.
    NothingToLand,
}

impl StackError {
    /// The text shown to the operator.
    pub open spec fn text(&self) -> Seq<char> {
        match self {
            StackError::Usage(msg) => msg@,
            StackError::Command(msg) => msg@,
            StackError::CorruptStack => "Corrupt stack: parent links form a cycle"@,
            StackError::NothingToLand => "Nothing to land"@,
        }
    }

    /// The one-line message of this error.
    pub fn message(&self) -> (msg: String)
        ensures
            msg@ == self.text(),
    {
        match self {
            StackError::Usage(msg) => msg.clone(),
            StackError::Command(msg) => msg.clone(),
            StackError::CorruptStack => String::from_str(
                "Corrupt stack: parent links form a cycle",
            ),
            StackError::NothingToLand => String::from_str("Nothing to land"),
        }
    }
}

/// The failure of an outside command, with what to tell the operator.
pub fn err(msg: &str) -> (e: StackError)
    ensures
        e is Command,
        e->Command_0@ == msg@,
{
    StackError::Command(String::from_str(msg))
}

} // verus!
