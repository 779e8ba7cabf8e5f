//! The subcommands the program accepts, on its own command line and as the
//! `termfix` shell function inside a recorded session.

use vstd::prelude::*;

verus! {

/// A subcommand.
#[derive(Debug)]
pub enum Commands {
    /// Start a recorded shell session.
    Start,
    /// Report whether a session is being recorded.
    Status,
    /// Print the recorded commands and their outputs.
    Context,
    /// Ask the diagnosis service about the recorded commands: `message` is
    /// the question, `count` how many recent commands to send, `all` sends
    /// every one.
    Fix { message: Option<String>, count: Option<u32>, all: bool },
}

/// A parsed command line: the subcommand, when one was given.
#[derive(Debug)]
pub struct Cli {
    pub command: Option<Commands>,
}

/// What the program does when it is run outside a recorded session.
#[derive(Clone, Copy, Debug, PartialEq, Eq, Structural)]
pub enum LaunchAction {
    /// Start recording a shell session.
    StartSession,
    /// Report that no session is recorded, then exit successfully.
    ReportInactive,
    /// Report that there is no recorded context, then exit successfully.
    ReportNoContext,
    /// Report an error and exit with a failure status.
    Fail,
}

/// Decides what a command line given outside a session does: only `start`
/// starts a session; `status` reports that none is active; `context` and
/// `fix` report that there is nothing recorded; no subcommand is an error.
pub fn launch_action(command: Option<Commands>) -> (res: LaunchAction)
    ensures
        res == match command {
            Some(Commands::Start) => LaunchAction::StartSession,
            Some(Commands::Status) => LaunchAction::ReportInactive,
            Some(Commands::Context) => LaunchAction::ReportNoContext,
            Some(Commands::Fix { .. }) => LaunchAction::ReportNoContext,
            None => LaunchAction::Fail,
        },
{
    match command {
        Some(Commands::Start) => LaunchAction::StartSession,
        Some(Commands::Status) => LaunchAction::ReportInactive,
        Some(Commands::Context) => LaunchAction::ReportNoContext,
        Some(Commands::Fix { .. }) => LaunchAction::ReportNoContext,
        None => LaunchAction::Fail,
    }
}

} // verus!
