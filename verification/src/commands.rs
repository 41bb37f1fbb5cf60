use vstd::prelude::*;

verus! {

/// An instruction queued by logic code for the surrounding driver to execute
/// once the current phase is over.
#[derive(PartialEq, Eq, Structural, Copy, Clone, Debug)]
pub enum Command {
    Exit,
}

/// A queue of pending commands, filled during a phase and drained by the
/// driver afterwards.
pub struct Commands {
    commands: Vec<Command>,
}

impl Commands {
    /// The queued commands, oldest first.
    pub closed spec fn queued(&self) -> Seq<Command> {
        self.commands@
    }

    pub fn new() -> (c: Commands)
        ensures
            c.queued() == Seq::<Command>::empty(),
    {
        Commands { commands: Vec::new() }
    }

    pub fn queue_command(&mut self, command: Command)
        requires
            old(self).queued().len() < usize::MAX,
        ensures
            final(self).queued() == old(self).queued().push(command),
    {
        self.commands.push(command);
    }

    /// Hands the queued commands out, oldest first, leaving the queue empty.
    pub fn drain(self) -> (r: Vec<Command>)
        ensures
            r@ == self.queued(),
    {
        self.commands
    }
}

} // verus!
