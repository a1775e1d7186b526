use crate::args::Args;
use vstd::prelude::*;

verus! {

/// The main application: the validated configuration, ready to run.
pub struct App {
    /// The validated configuration.
    pub args: Args,
}

impl App {
    /// Build the application from the arguments that the environment
    /// supplied, already parsed and validated by the caller.
    pub fn from_env(args: Args) -> (app: App)
        requires
            args.wf(),
        ensures
            app.args == args,
    {
        App { args }
    }
}

} // verus!
