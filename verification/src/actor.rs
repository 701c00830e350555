//! Actors: tasks bound to an interrupt vector, a priority and a CPU.
use vstd::prelude::*;

verus! {

/// An actor: the CPU it runs on, the interrupt vector that runs it, the
/// priority of that vector, and whether an executor has taken it over.
#[derive(Clone, Copy)]
pub struct Actor {
    pub prio: u8,
    pub cpu: u8,
    pub vect: u16,
    pub parent: bool,
}

impl Actor {
    /// Whether an executor owns the actor.
    pub open spec fn has_parent(&self) -> bool {
        self.parent
    }

    pub fn new(cpu: u8, vect: u16, prio: u8) -> (a: Actor)
        ensures
            a.cpu == cpu,
            a.vect == vect,
            a.prio == prio,
            !a.has_parent(),
    {
        Actor { prio, cpu, vect, parent: false }
    }

    /// Records that an executor owns the actor; an actor has one owner only.
    pub fn set_parent(&mut self)
        requires
            !old(self).has_parent(),
        ensures
            final(self).has_parent(),
            final(self).cpu == old(self).cpu,
            final(self).vect == old(self).vect,
            final(self).prio == old(self).prio,
    {
        self.parent = true;
    }
}

} // verus!
