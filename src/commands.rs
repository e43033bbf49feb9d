//! Deferred mutations: commands are queued during a reaction and applied
//! later, at a fixed barrier, by the object store.
use vstd::prelude::*;

verus! {

/// One staged mutation.
pub enum Command<H> {
    /// Run the system behind this handle.
    RunSystem(H),
    /// Destroy this object and all of its descendants.
    DespawnRecursive(usize),
}

/// A queue of staged commands, in the order in which they were issued.
pub struct CommandQueue<H> {
    commands: Vec<Command<H>>,
}

impl<H> View for CommandQueue<H> {
    type V = Seq<Command<H>>;

    closed spec fn view(&self) -> Seq<Command<H>> {
        self.commands@
    }
}

impl<H> CommandQueue<H> {
    /// An empty queue.
    pub fn new() -> (r: Self)
        ensures
            r@ == Seq::<Command<H>>::empty(),
    {
        CommandQueue { commands: Vec::new() }
    }

    /// Number of queued commands.
    pub fn len(&self) -> (r: usize)
        ensures
            r == self@.len(),
    {
        self.commands.len()
    }

    /// Queues a command at the end.
    pub fn push(&mut self, c: Command<H>)
        ensures
            final(self)@ == old(self)@.push(c),
    {
        self.commands.push(c);
    }

    /// Queues a run of the system behind `system`.
    pub fn run_system(&mut self, system: H)
        ensures
            final(self)@ == old(self)@.push(Command::RunSystem(system)),
    {
        self.commands.push(Command::RunSystem(system));
    }

    /// Queues the recursive destruction of `entity`.
    pub fn despawn_recursive(&mut self, entity: usize)
        ensures
            final(self)@ == old(self)@.push(Command::DespawnRecursive(entity)),
    {
        self.commands.push(Command::DespawnRecursive(entity));
    }

    /// Takes every queued command out, leaving the queue empty.
    pub fn take(&mut self) -> (r: Vec<Command<H>>)
        ensures
            r@ == old(self)@,
            final(self)@ == Seq::<Command<H>>::empty(),
    {
        let mut out: Vec<Command<H>> = Vec::new();
        std::mem::swap(&mut out, &mut self.commands);
        out
    }
}

} // verus!
