//! Message pools: a stock of messages handed out one by one, first the ones
//! never used, then those given back, in the order they came back.
use vstd::prelude::*;
use crate::channel::{Channel, ChannelFuture, ChannelPoll};
use crate::list::Mut;
use crate::msg::{Envelope, Message};

verus! {

pub struct Pool<T> {
    pool: Channel,
    slice: Option<(usize, usize)>,
    storage: Vec<Message<T>>,
}

impl<T> Pool<T> {
    /// First identifier that was never handed out; the storage length when
    /// all were.
    pub closed spec fn fresh_start(&self) -> int {
        match self.slice {
            Some((a, _)) => a as int,
            None => self.storage@.len() as int,
        }
    }

    /// Number of messages of the pool.
    pub closed spec fn capacity(&self) -> int {
        self.storage@.len() as int
    }

    /// Messages given back and not handed out again, oldest first.
    pub closed spec fn free(&self) -> Seq<usize> {
        self.pool.messages()
    }

    /// Tasks waiting for a message to be given back.
    pub closed spec fn waiting(&self) -> Seq<usize> {
        self.pool.waiting()
    }

    /// Messages given back and handed directly to a waiting task.
    pub closed spec fn handed(&self) -> Map<usize, usize> {
        self.pool.handed()
    }

    /// The messages themselves.
    pub closed spec fn messages(&self) -> Seq<Message<T>> {
        self.storage@
    }

    /// Message `id` is out of the pool: handed out and not given back.
    pub open spec fn in_use(&self, id: usize) -> bool {
        id < self.fresh_start() && !self.free().contains(id)
    }

    pub closed spec fn wf(&self) -> bool {
        &&& self.pool.wf()
        &&& self.storage@.len() < usize::MAX - 1
        &&& self.slice matches Some((a, b)) ==> a < b && b == self.storage@.len()
        &&& forall|j: int| 0 <= j < self.free().len() ==> #[trigger] self.free()[j] < self.fresh_start()
        &&& forall|i: int| 0 <= i < self.fresh_start() ==> (#[trigger] self.storage@[i]).parent
    }

    /// The pool holds `capacity()` messages, and the messages not used yet
    /// are the last ones; every message already handed out has its parent
    /// flag set.
    pub proof fn law_shape(&self)
        requires
            self.wf(),
        ensures
            self.capacity() == self.messages().len(),
            0 <= self.fresh_start() <= self.capacity(),
            forall|i: int| 0 <= i < self.fresh_start() ==> (#[trigger] self.messages()[i]).parent,
    {
    }

    /// A message given back is never among those not used yet, and the
    /// free queue holds no message twice: no message is handed out twice
    /// without having been given back in between.
    pub proof fn law_free_are_used(&self)
        requires
            self.wf(),
        ensures
            forall|j: int| 0 <= j < self.free().len() ==> #[trigger] self.free()[j] < self.fresh_start(),
            self.free().no_duplicates(),
    {
        self.pool.law_no_idle_pair();
    }

    /// Whether message `id` is out of the pool (see `in_use`): the
    /// condition for giving it back.
    pub fn is_in_use(&self, id: usize) -> (b: bool)
        requires
            self.wf(),
        ensures
            b == self.in_use(id),
    {
        let fresh = match self.slice {
            Some((a, _)) => a,
            None => self.storage.len(),
        };
        id < fresh && !self.pool.holds(id)
    }

    /// A pool without messages.
    pub fn new() -> (p: Pool<T>)
        ensures
            p.wf(),
            p.capacity() == 0,
            p.fresh_start() == 0,
            p.free() == Seq::<usize>::empty(),
            p.waiting() == Seq::<usize>::empty(),
            p.handed() == Map::<usize, usize>::empty(),
    {
        Pool { pool: Channel::new(), slice: None, storage: Vec::new() }
    }

    /// Hands the messages `arr` to the pool; none of them is in use yet.
    pub fn init(&mut self, arr: Vec<Message<T>>)
        requires
            arr@.len() >= 1,
            arr@.len() < usize::MAX - 1,
        ensures
            final(self).wf(),
            final(self).messages() == arr@,
            final(self).capacity() == arr@.len(),
            final(self).fresh_start() == 0,
            final(self).free() == Seq::<usize>::empty(),
            final(self).waiting() == Seq::<usize>::empty(),
            final(self).handed() == old(self).handed(),
    {
        self.pool.init();
        let n = arr.len();
        self.storage = arr;
        self.slice = Some((0, n));
    }

    /// Hands out a message: the first one never used if any, else the one
    /// given back longest ago, else none.
    pub fn allocate(&mut self) -> (msg: Option<Envelope>)
        requires
            old(self).wf(),
        ensures
            final(self).wf(),
            final(self).capacity() == old(self).capacity(),
            final(self).waiting() == old(self).waiting(),
            final(self).handed() == old(self).handed(),
            old(self).fresh_start() < old(self).capacity() ==> msg is Some && msg->0@ == old(self).fresh_start()
                && final(self).fresh_start() == old(self).fresh_start() + 1 && final(self).free() == old(self).free()
                && final(self).messages() == old(self).messages().update(
                msg->0@ as int,
                Message { parent: true, payload: old(self).messages()[msg->0@ as int].payload },
            ),
            old(self).fresh_start() == old(self).capacity() && old(self).free().len() > 0 ==> msg is Some
                && msg->0@ == old(self).free()[0] && final(self).free() == old(self).free().drop_first()
                && final(self).fresh_start() == old(self).fresh_start() && final(self).messages() == old(self).messages(),
            msg is Some ==> !final(self).free().contains(msg->0@) && msg->0@ < final(self).fresh_start()
                && final(self).messages()[msg->0@ as int].parent,
            msg is Some ==> !old(self).in_use(msg->0@) && final(self).in_use(msg->0@),
            forall|m: usize| #[trigger] old(self).in_use(m) ==> final(self).in_use(m),
            old(self).fresh_start() == old(self).capacity() && old(self).free().len() == 0 ==> msg is None
                && final(self).free() == old(self).free() && final(self).fresh_start() == old(self).fresh_start()
                && final(self).messages() == old(self).messages(),
    {
        proof {
            self.pool.law_no_idle_pair();
        }
        let ghost before = *self;
        proof {
            assert forall|m: usize|
                before.free().len() > 0 && #[trigger] before.free().drop_first().contains(m) implies before.free().contains(m) by {
                let d = before.free().drop_first();
                let j = choose|j: int| 0 <= j < d.len() && #[trigger] d[j] == m;
                assert(before.free()[j + 1] == m);
            }
        }
        match self.slice.take() {
            Some((start, end)) => {
                let rest = start + 1;
                if rest < end {
                    self.slice = Some((rest, end));
                }
                self.storage[start].parent = true;
                Some(Envelope::new(Mut::new(start)))
            },
            None => match self.pool.take_msg() {
                Some(m) => Some(Envelope::new(m)),
                None => None,
            },
        }
    }
    /// A message at once if one can be handed out (as `allocate`), or else
    /// the wait of the task whose waiter is `wb` for one to come back.
    pub fn get(&mut self, wb: usize) -> (r: Result<Envelope, ChannelFuture>)
        requires
            old(self).wf(),
        ensures
            final(self).wf(),
            final(self).capacity() == old(self).capacity(),
            final(self).waiting() == old(self).waiting(),
            final(self).handed() == old(self).handed(),
            old(self).fresh_start() < old(self).capacity() ==> r is Ok && r->Ok_0@ == old(self).fresh_start()
                && final(self).fresh_start() == old(self).fresh_start() + 1 && final(self).free() == old(self).free()
                && final(self).messages() == old(self).messages().update(
                r->Ok_0@ as int,
                Message { parent: true, payload: old(self).messages()[r->Ok_0@ as int].payload },
            ),
            old(self).fresh_start() == old(self).capacity() && old(self).free().len() > 0 ==> r is Ok
                && r->Ok_0@ == old(self).free()[0] && final(self).free() == old(self).free().drop_first()
                && final(self).fresh_start() == old(self).fresh_start() && final(self).messages() == old(self).messages(),
            r is Ok ==> !final(self).free().contains(r->Ok_0@) && r->Ok_0@ < final(self).fresh_start()
                && final(self).messages()[r->Ok_0@ as int].parent,
            r is Ok ==> !old(self).in_use(r->Ok_0@) && final(self).in_use(r->Ok_0@),
            forall|m: usize| #[trigger] old(self).in_use(m) ==> final(self).in_use(m),
            old(self).fresh_start() == old(self).capacity() && old(self).free().len() == 0 ==> r is Err
                && r->Err_0.wb == wb && final(self).free() == old(self).free() && final(self).fresh_start() == old(
                self).fresh_start() && final(self).messages() == old(self).messages(),
    {
        match self.allocate() {
            Some(msg) => Ok(msg),
            None => Err(self.pool.block_on(wb)),
        }
    }

    /// Gives back the message of an envelope handed out by this pool (what
    /// disposing of the envelope does): it goes to the longest-waiting task,
    /// which is returned to be woken, or else to the tail of the free queue.
    pub fn recycle(&mut self, msg: Envelope) -> (woken: Option<usize>)
        requires
            old(self).wf(),
            msg@ < old(self).fresh_start(),
            !old(self).free().contains(msg@),
        ensures
            final(self).wf(),
            final(self).capacity() == old(self).capacity(),
            final(self).fresh_start() == old(self).fresh_start(),
            final(self).messages() == old(self).messages(),
            old(self).waiting().len() > 0 ==> woken == Some(old(self).waiting()[0]) && final(self).waiting()
                == old(self).waiting().drop_first() && final(self).free() == old(self).free() && final(self).handed() == old(self).handed().insert(old(self).waiting()[0], msg@),
            old(self).waiting().len() == 0 ==> woken is None && final(self).free() == old(self).free().push(msg@) && final(self).waiting() == old(self).waiting() && final(self).handed() == old(self).handed(),
            old(self).waiting().len() == 0 ==> !final(self).in_use(msg@),
            forall|m: usize| m != msg@ ==> #[trigger] final(self).in_use(m) == old(self).in_use(m),
    {
        let ghost id = msg@;
        let woken = self.pool.put(msg);
        proof {
            let f = self.free();
            assert forall|j: int| 0 <= j < f.len() implies #[trigger] f[j] < self.fresh_start() by {
                if j < old(self).free().len() {
                    assert(f[j] == old(self).free()[j]);
                }
            }
            if old(self).waiting().len() == 0 {
                assert(f[f.len() - 1] == id);
                assert forall|m: usize| m != id implies #[trigger] f.contains(m) == old(self).free().contains(m) by {
                    if f.contains(m) {
                        let j = choose|j: int| 0 <= j < f.len() && #[trigger] f[j] == m;
                        assert(old(self).free()[j] == m);
                    }
                    if old(self).free().contains(m) {
                        let j = choose|j: int| 0 <= j < old(self).free().len() && #[trigger] old(self).free()[j] == m;
                        assert(f[j] == m);
                    }
                }
            }
        }
        woken
    }

    /// One poll of a task waiting for a message of this pool: it collects a
    /// message handed to it, or takes a free one, or starts waiting.
    pub fn poll_get(&mut self, fut: &ChannelFuture) -> (r: ChannelPoll)
        requires
            old(self).wf(),
            !old(self).waiting().contains(fut.wb),
            fut.wb < usize::MAX - 1,
        ensures
            final(self).wf(),
            final(self).capacity() == old(self).capacity(),
            final(self).fresh_start() == old(self).fresh_start(),
            final(self).messages() == old(self).messages(),
            old(self).handed().contains_key(fut.wb) ==> r is Ready && r->0@ == old(self).handed()[fut.wb]
                && final(self).handed() == old(self).handed().remove(fut.wb) && final(self).free() == old(self).free() && final(self).waiting() == old(self).waiting(),
            !old(self).handed().contains_key(fut.wb) && old(self).free().len() > 0 ==> r is Ready
                && r->0@ == old(self).free()[0] && final(self).free() == old(self).free().drop_first()
                && final(self).waiting() == old(self).waiting() && final(self).handed() == old(self).handed(),
            !old(self).handed().contains_key(fut.wb) && old(self).free().len() == 0 ==> r is Pending
                && final(self).free() == old(self).free() && final(self).waiting() == old(self).waiting().push(fut.wb) && final(self).handed() == old(self).handed(),
    {
        let r = fut.poll(&mut self.pool);
        proof {
            let f = self.free();
            assert forall|j: int| 0 <= j < f.len() implies #[trigger] f[j] < self.fresh_start() by {
                if old(self).free().len() > 0 && f == old(self).free().drop_first() {
                    assert(f[j] == old(self).free()[j + 1]);
                }
            }
        }
        r
    }

    /// A waiting task collects the message given back to it, if any.
    pub fn take_handed(&mut self, wb: usize) -> (msg: Option<Mut>)
        requires
            old(self).wf(),
        ensures
            final(self).wf(),
            final(self).capacity() == old(self).capacity(),
            final(self).fresh_start() == old(self).fresh_start(),
            final(self).messages() == old(self).messages(),
            final(self).free() == old(self).free(),
            final(self).waiting() == old(self).waiting(),
            old(self).handed().contains_key(wb) ==> msg is Some && msg->0@ == old(self).handed()[wb]
                && final(self).handed() == old(self).handed().remove(wb),
            !old(self).handed().contains_key(wb) ==> msg is None && final(self).handed() == old(self).handed(),
    {
        let msg = self.pool.take_handed(wb);
        proof {
            assert(self.free() == old(self).free());
            assert(forall|j: int| 0 <= j < self.free().len() ==> #[trigger] self.free()[j] < self.fresh_start());
        }
        msg
    }

    /// The payload of message `id`.
    pub fn payload(&self, id: usize) -> (r: &T)
        requires
            id < self.capacity(),
        ensures
            *r == self.messages()[id as int].payload,
    {
        &self.storage[id].payload
    }

    /// Replaces the payload of message `id`.
    pub fn set_payload(&mut self, id: usize, data: T)
        requires
            old(self).wf(),
            id < old(self).capacity(),
        ensures
            final(self).wf(),
            final(self).messages() == old(self).messages().update(
                id as int,
                Message { parent: old(self).messages()[id as int].parent, payload: data },
            ),
            final(self).capacity() == old(self).capacity(),
            final(self).fresh_start() == old(self).fresh_start(),
            final(self).free() == old(self).free(),
            final(self).waiting() == old(self).waiting(),
            final(self).handed() == old(self).handed(),
    {
        self.storage[id].payload = data;
        proof {
            assert(self.storage@.len() == old(self).storage@.len());
            assert(self.fresh_start() == old(self).fresh_start());
            assert(self.pool == old(self).pool);
            assert(self.free() == old(self).free());
            assert(forall|j: int| 0 <= j < self.free().len() ==> #[trigger] self.free()[j] < self.fresh_start());
        }
    }
}

} // verus!
