//! Commands that a controller handle sends.
use vstd::prelude::*;

verus! {

/// A command for a running controller.
#[derive(Debug)]
pub enum ControllerCommand {
    /// Stop accepting connections and begin shutdown procedure.
    Stop {
        /// True if shut down should be graceful.
        graceful: bool,
    },
}

impl ControllerCommand {
    /// Whether the command ends the watch loop: only a graceful stop does; a
    /// stop that is not graceful is received and ignored.
    pub fn stops_watch(&self) -> (r: bool)
        ensures
            r == match self {
                ControllerCommand::Stop { graceful } => *graceful,
            },
    {
        match self {
            ControllerCommand::Stop { graceful } => *graceful,
        }
    }
}

} // verus!
