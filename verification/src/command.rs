//! The command that the scheduler runs.
use vstd::prelude::*;

verus! {

/// A command with its arguments, the program first.
pub enum SubCommand {
    Sub(Vec<String>),
}

impl SubCommand {
    /// The command and its arguments, taking them out of the value.
    pub fn get(self) -> (v: Vec<String>)
        ensures
            v == self->Sub_0,
    {
        match self {
            SubCommand::Sub(v) => v,
        }
    }

    /// The command and its arguments.
    pub fn as_ref(&self) -> (v: &Vec<String>)
        ensures
            *v == self->Sub_0,
    {
        match self {
            SubCommand::Sub(v) => v,
        }
    }

    /// The command and its arguments, through a unique borrow.
    pub fn as_mut(&mut self) -> (v: &Vec<String>)
        ensures
            *v == old(self)->Sub_0,
            *final(self) == *old(self),
    {
        match self {
            SubCommand::Sub(v) => v,
        }
    }
}

} // verus!
