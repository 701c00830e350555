//! Channels: a queue of messages and a queue of waiting receivers. A message
//! put into a channel goes to the longest-waiting receiver if there is one,
//! and waits in the message queue otherwise.
use vstd::prelude::*;
use crate::list::{Mut, QueueMut, QueueRef};
use crate::msg::Envelope;
use crate::utils::SmpProtection;

verus! {

/// The message cell of a waiting receiver: filled by the channel when a
/// message is handed to it.
pub struct CWaitBlock {
    pub msg: Option<Mut>,
}

pub struct Channel {
    protect: SmpProtection,
    msgs: QueueMut,
    subscribers: QueueRef,
    slots: Vec<CWaitBlock>,
}

impl Channel {
    /// Messages waiting for a receiver, oldest first.
    pub closed spec fn messages(&self) -> Seq<usize> {
        self.msgs@
    }

    /// Receivers waiting for a message, longest-waiting first.
    pub closed spec fn waiting(&self) -> Seq<usize> {
        self.subscribers@
    }

    /// Messages handed to receivers and not yet collected by them.
    pub closed spec fn handed(&self) -> Map<usize, usize> {
        Map::new(
            |wb: usize| wb < self.slots@.len() && self.slots@[wb as int].msg is Some,
            |wb: usize| self.slots@[wb as int].msg->0@,
        )
    }

    pub closed spec fn wf(&self) -> bool {
        &&& self.msgs.wf()
        &&& self.subscribers.wf()
        &&& self.msgs@.len() == 0 || self.subscribers@.len() == 0
        &&& forall|j: int|
            0 <= j < self.subscribers@.len() ==> !self.handed().contains_key(#[trigger] self.subscribers@[j])
    }

    /// A channel never holds queued messages and waiting receivers at once,
    /// a waiting receiver has no message handed to it, and neither queue
    /// holds anything twice.
    pub proof fn law_no_idle_pair(&self)
        requires
            self.wf(),
        ensures
            self.messages().len() == 0 || self.waiting().len() == 0,
            forall|j: int| 0 <= j < self.waiting().len() ==> !self.handed().contains_key(#[trigger] self.waiting()[j]),
            self.messages().no_duplicates(),
            self.waiting().no_duplicates(),
    {
        self.msgs.lemma_unique();
        self.subscribers.lemma_unique();
    }

    pub fn new() -> (c: Channel)
        ensures
            c.wf(),
            c.messages() == Seq::<usize>::empty(),
            c.waiting() == Seq::<usize>::empty(),
            c.handed() == Map::<usize, usize>::empty(),
    {
        let c = Channel {
            msgs: QueueMut::new(),
            subscribers: QueueRef::new(),
            protect: SmpProtection::new(),
            slots: Vec::new(),
        };
        assert(c.handed() =~= Map::<usize, usize>::empty());
        c
    }

    /// Whether message `id` waits in the channel's message queue.
    pub fn holds(&self, id: usize) -> (b: bool)
        requires
            self.wf(),
        ensures
            b == self.messages().contains(id),
    {
        self.msgs.contains(id)
    }

    /// Empties both queues.
    pub fn init(&mut self)
        ensures
            final(self).wf(),
            final(self).messages() == Seq::<usize>::empty(),
            final(self).waiting() == Seq::<usize>::empty(),
            final(self).handed() == old(self).handed(),
    {
        self.msgs.init();
        self.subscribers.init();
    }

    /// Receiving side: takes the oldest message, or, when there is none,
    /// enqueues the receiver `wb` to wait for one.
    pub fn get(&mut self, wb: usize) -> (msg: Option<Mut>)
        requires
            old(self).wf(),
            old(self).messages().len() == 0 ==> !old(self).waiting().contains(wb) && !old(self).handed().contains_key(wb)
                && wb < usize::MAX - 1,
        ensures
            final(self).wf(),
            final(self).handed() == old(self).handed(),
            old(self).messages().len() > 0 ==> msg is Some && msg->0@ == old(self).messages()[0]
                && final(self).messages() == old(self).messages().drop_first() && final(self).waiting()
                == old(self).waiting(),
            old(self).messages().len() == 0 ==> msg is None && final(self).messages() == old(self).messages() && final(self).waiting() == old(self).waiting().push(wb),
    {
        match self.msgs.dequeue() {
            Some(msg) => Some(msg),
            None => {
                self.subscribers.enqueue(&wb);
                proof {
                    let s = self.subscribers@;
                    assert forall|j: int| 0 <= j < s.len() implies !self.handed().contains_key(
                        #[trigger] s[j],
                    ) by {
                        if j < s.len() - 1 {
                            assert(s[j] == old(self).subscribers@[j]);
                        }
                    }
                }
                None
            },
        }
    }

    /// Takes the oldest waiting message without subscribing.
    pub fn take_msg(&mut self) -> (msg: Option<Mut>)
        requires
            old(self).wf(),
        ensures
            final(self).wf(),
            final(self).handed() == old(self).handed(),
            final(self).waiting() == old(self).waiting(),
            old(self).messages().len() > 0 ==> msg is Some && msg->0@ == old(self).messages()[0]
                && final(self).messages() == old(self).messages().drop_first(),
            old(self).messages().len() == 0 ==> msg is None && final(self).messages() == old(self).messages(),
    {
        self.msgs.dequeue()
    }

    /// Sending side: the message goes to the longest-waiting receiver, whose
    /// identifier is returned (it is to be woken); with no receiver waiting
    /// it is queued.
    pub fn put_internal(&mut self, msg: Mut) -> (woken: Option<usize>)
        requires
            old(self).wf(),
            !old(self).messages().contains(msg@),
            msg@ < usize::MAX - 1,
        ensures
            final(self).wf(),
            old(self).waiting().len() > 0 ==> woken == Some(old(self).waiting()[0]) && final(self).waiting() == old(self).waiting().drop_first() && final(self).messages() == old(self).messages() && final(self).handed() == old(self).handed().insert(old(self).waiting()[0], msg@),
            old(self).waiting().len() == 0 ==> woken is None && final(self).messages() == old(self).messages().push(msg@) && final(self).waiting() == old(self).waiting() && final(self).handed()
                == old(self).handed(),
    {
        match self.subscribers.dequeue() {
            Some(wait_blk) => {
                let ghost h0 = self.handed();
                proof {
                    old(self).subscribers.lemma_unique();
                }
                while self.slots.len() <= wait_blk
                    invariant
                        self.msgs == old(self).msgs,
                        self.subscribers.wf(),
                        self.subscribers@ == old(self).subscribers@.drop_first(),
                        old(self).subscribers@.len() > 0,
                        wait_blk == old(self).subscribers@[0],
                        wait_blk < usize::MAX - 1,
                        self.handed() == h0,
                    decreases wait_blk + 1 - self.slots@.len(),
                {
                    self.slots.push(CWaitBlock { msg: None });
                    proof {
                        assert(self.handed() =~= h0);
                    }
                }
                let ghost id = msg@;
                self.slots.set(wait_blk, CWaitBlock { msg: Some(msg) });
                proof {
                    assert(self.handed() =~= h0.insert(wait_blk, id));
                    let s0 = old(self).subscribers@;
                    let s = self.subscribers@;
                    assert forall|j: int| 0 <= j < s.len() implies !self.handed().contains_key(
                        #[trigger] s[j],
                    ) by {
                        assert(s[j] == s0[j + 1]);
                        assert(!h0.contains_key(s0[j + 1]));
                        assert(s0[j + 1] != s0[0]);
                    }
                }
                Some(wait_blk)
            },
            None => {
                self.msgs.enqueue(msg);
                None
            },
        }
    }

    /// Sends the message in the envelope; see `put_internal`.
    pub fn put(&mut self, msg: Envelope) -> (woken: Option<usize>)
        requires
            old(self).wf(),
            !old(self).messages().contains(msg@),
            msg@ < usize::MAX - 1,
        ensures
            final(self).wf(),
            old(self).waiting().len() > 0 ==> woken == Some(old(self).waiting()[0]) && final(self).waiting() == old(self).waiting().drop_first() && final(self).messages() == old(self).messages() && final(self).handed() == old(self).handed().insert(old(self).waiting()[0], msg@),
            old(self).waiting().len() == 0 ==> woken is None && final(self).messages() == old(self).messages().push(msg@) && final(self).waiting() == old(self).waiting() && final(self).handed()
                == old(self).handed(),
    {
        self.put_internal(msg.into_msg())
    }

    /// The wait of the receiving task whose waiter is `wb` for a message.
    pub fn block_on(&self, wb: usize) -> (f: ChannelFuture)
        ensures
            f.wb == wb,
    {
        ChannelFuture { wb }
    }

    /// A receiver collects the message handed to it, if any.
    pub fn take_handed(&mut self, wb: usize) -> (msg: Option<Mut>)
        requires
            old(self).wf(),
        ensures
            final(self).wf(),
            final(self).messages() == old(self).messages(),
            final(self).waiting() == old(self).waiting(),
            old(self).handed().contains_key(wb) ==> msg is Some && msg->0@ == old(self).handed()[wb]
                && final(self).handed() == old(self).handed().remove(wb),
            !old(self).handed().contains_key(wb) ==> msg is None && final(self).handed() == old(self).handed(),
    {
        if wb < self.slots.len() {
            let mut cell = CWaitBlock { msg: None };
            let ghost h0 = self.handed();
            std::mem::swap(&mut cell, &mut self.slots[wb]);
            proof {
                assert(self.handed() =~= h0.remove(wb));
            }
            cell.msg
        } else {
            None
        }
    }
}

/// What a poll of a receiving task decides.
pub enum ChannelPoll {
    /// A message arrived.
    Ready(Mut),
    /// The receiver waits in the channel.
    Pending,
}

/// The receiving side of `block_on`: the receiver `wb` of one task.
pub struct ChannelFuture {
    pub wb: usize,
}

impl ChannelFuture {
    /// A message already handed to the receiver is taken; otherwise the
    /// oldest waiting message is taken, or the receiver starts waiting.
    pub fn poll(&self, source: &mut Channel) -> (r: ChannelPoll)
        requires
            old(source).wf(),
            !old(source).waiting().contains(self.wb),
            self.wb < usize::MAX - 1,
        ensures
            final(source).wf(),
            old(source).handed().contains_key(self.wb) ==> r is Ready && r->0@ == old(source).handed()[self.wb] && final(source).handed() == old(source).handed().remove(self.wb)
                && final(source).messages() == old(source).messages() && final(source).waiting() == old(source).waiting(),
            !old(source).handed().contains_key(self.wb) && old(source).messages().len() > 0 ==> r is Ready
                && r->0@ == old(source).messages()[0] && final(source).messages() == old(source).messages().drop_first() && final(source).waiting() == old(source).waiting() && final(source).handed() == old(source).handed(),
            !old(source).handed().contains_key(self.wb) && old(source).messages().len() == 0 ==> r is Pending
                && final(source).messages() == old(source).messages() && final(source).waiting() == old(source).waiting().push(self.wb) && final(source).handed() == old(source).handed(),
    {
        match source.take_handed(self.wb) {
            Some(msg) => ChannelPoll::Ready(msg),
            None => match source.get(self.wb) {
                Some(msg) => ChannelPoll::Ready(msg),
                None => ChannelPoll::Pending,
            },
        }
    }
}

} // verus!
