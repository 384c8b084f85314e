//! The executor over a merged tree: it resolves an argument list to the
//! shell command string to run.  Running the string through a shell —
//! spawning, capture, exit status — is the caller's business, outside
//! this library.

use vstd::prelude::*;

use crate::config::{Config, res_view, spec_find_command, strings_view};
use crate::error::HumorError;

verus! {

/// Resolves argument lists against one merged configuration tree.
pub struct CommandExecutor<'a> {
    config: &'a Config,
}

impl<'a> CommandExecutor<'a> {
    /// An executor over the given tree.
    pub fn new(config: &'a Config) -> (r: CommandExecutor<'a>)
        ensures
            r@ == config@,
    {
        CommandExecutor { config }
    }

    /// The command string the argument list resolves to, by the same
    /// dispatch as [`Config::find_command`]: the part of an execution
    /// that this library decides.
    pub fn find_command(&self, args: &[String]) -> (r: Result<&str, HumorError>)
        ensures
            res_view(r) == spec_find_command(self@, strings_view(args@)),
    {
        self.config.find_command(args)
    }
}

impl<'a> View for CommandExecutor<'a> {
    type V = Seq<crate::config::EntryView>;

    closed spec fn view(&self) -> Seq<crate::config::EntryView> {
        self.config@
    }
}

} // verus!
