//! The command-line surface of the catalog tool, as plain data: the front end
//! that parses argument strings lives outside the library and hands these
//! values in.
use vstd::prelude::*;

verus! {

/// The two catalog commands.
pub enum Command {
    /// Reconcile every existing catalog against the extracted keys.
    Update {
        /// Drop translations the source no longer references.
        rm_unused: bool,
    },
    /// Write a fresh catalog for each named locale.
    Generate { locales: Vec<String> },
}

/// The arguments of one run.
pub struct InnerArgs {
    pub command: Command,
    /// Root directory of the project to scan.
    pub root: String,
}

/// The tool's own subcommand, as invoked through a cargo-style front end.
pub enum SelfCommand {
    R18(InnerArgs),
}

/// The outermost argument shape: the front end's one subcommand.
pub struct Args {
    pub command: SelfCommand,
}

impl Args {
    /// The run arguments inside the subcommand wrapper.
    pub fn inner_args(self) -> (r: InnerArgs)
        ensures
            self.command == SelfCommand::R18(r),
    {
        let SelfCommand::R18(args) = self.command;
        args
    }
}

} // verus!
