//! Messages and the envelopes that hand them to users.
use vstd::prelude::*;
use crate::list::Mut;

verus! {

/// A message of a pool: its payload and whether it has been handed out by
/// its pool (and so returns there when its envelope is disposed of).
pub struct Message<T> {
    pub parent: bool,
    pub payload: T,
}

impl<T> Message<T> {
    pub fn new(data: T) -> (m: Message<T>)
        ensures
            m.parent == false,
            m.payload == data,
    {
        Message { parent: false, payload: data }
    }
}

/// A message as handed to a user, who passes it on by moving it. `new`
/// can wrap any claim, so that only one envelope exists per message rests
/// on the callers; the channels and pools guard their own part by
/// requiring that a message put or given back is not already queued there.
pub struct Envelope {
    content: Mut,
}

impl View for Envelope {
    type V = usize;

    /// Identifier of the enclosed message.
    closed spec fn view(&self) -> usize {
        self.content@
    }
}

impl Envelope {
    pub fn new(msg: Mut) -> (e: Envelope)
        ensures
            e@ == msg@,
    {
        Envelope { content: msg }
    }

    /// Opens the envelope: the access to the message passes to the caller.
    pub fn into_msg(self) -> (msg: Mut)
        ensures
            msg@ == self@,
    {
        self.content
    }

    /// Identifier of the enclosed message.
    pub fn id(&self) -> (id: usize)
        ensures
            id == self@,
    {
        self.content.to_id()
    }
}

} // verus!
