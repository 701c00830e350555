//! The executor: per CPU, one FIFO run queue per priority. Activating an
//! actor queues it at its priority and yields the interrupt to request for
//! it (its CPU and vector), which the caller raises; the interrupt handler
//! then runs the actors of its priority in order.
use vstd::prelude::*;
use core::marker::PhantomData;
use crate::actor::Actor;
use crate::list::QueueRef;
use crate::utils::{cpu_this, SmpProtection};

verus! {

/// The interrupt controller, as the application provides it. The priority
/// of each vector is configured before the executor runs and stays fixed
/// while it runs: `prio_of` names it.
pub trait Pic {
    /// The priority that the controller gives interrupt `vector`. Outside
    /// verified code it is an ordinary function that computes the same
    /// value as `interrupt_prio`.
    spec fn prio_of(vector: u16) -> u8;

    /// Raises interrupt `vector` on CPU `cpu`.
    fn interrupt_request(cpu: u8, vector: u16);

    /// Priority of interrupt `vector`.
    fn interrupt_prio(vector: u16) -> (p: u8)
        ensures
            p == Self::prio_of(vector),
    ;
}

/// Why an actor could not be started.
pub enum SpawnError {
    /// The interrupt controller gives its vector another priority.
    PriorityMismatch,
    /// The actor belongs to another CPU.
    WrongCpu,
    /// Its priority has no run queue.
    PriorityOutOfRange,
}

/// Run queues of one CPU, one per priority.
pub struct PerCpuContainer<const NPRIO: usize> {
    runq: Vec<QueueRef>,
    protect: SmpProtection,
}

impl<const NPRIO: usize> PerCpuContainer<NPRIO> {
    /// The run queue of priority `prio`.
    pub closed spec fn queue(&self, prio: int) -> Seq<usize> {
        self.runq@[prio]@
    }

    pub closed spec fn wf(&self) -> bool {
        &&& self.runq@.len() == NPRIO
        &&& forall|p: int| 0 <= p < NPRIO ==> (#[trigger] self.runq@[p]).wf()
    }

    pub fn new() -> (c: Self)
        ensures
            c.wf(),
            forall|p: int| 0 <= p < NPRIO ==> #[trigger] c.queue(p) == Seq::<usize>::empty(),
    {
        let mut runq: Vec<QueueRef> = Vec::new();
        let mut i: usize = 0;
        while i < NPRIO
            invariant
                i <= NPRIO,
                runq@.len() == i,
                forall|p: int| 0 <= p < i ==> (#[trigger] runq@[p]).wf() && runq@[p]@ == Seq::<usize>::empty(),
            decreases NPRIO - i,
        {
            runq.push(QueueRef::new());
            i = i + 1;
        }
        PerCpuContainer { runq, protect: SmpProtection::new() }
    }

    /// Empties every run queue.
    pub fn init(&mut self)
        requires
            old(self).wf(),
        ensures
            final(self).wf(),
            forall|p: int| 0 <= p < NPRIO ==> #[trigger] final(self).queue(p) == Seq::<usize>::empty(),
    {
        let mut i: usize = 0;
        while i < NPRIO
            invariant
                i <= NPRIO,
                self.runq@.len() == NPRIO,
                forall|p: int| 0 <= p < NPRIO ==> (#[trigger] self.runq@[p]).wf(),
                forall|p: int| 0 <= p < i ==> #[trigger] self.runq@[p]@ == Seq::<usize>::empty(),
            decreases NPRIO - i,
        {
            self.runq[i].init();
            i = i + 1;
        }
    }

    /// Takes the first actor of priority `prio`.
    pub fn extract(&mut self, prio: u8) -> (actor: Option<usize>)
        requires
            old(self).wf(),
            (prio as int) < NPRIO,
        ensures
            final(self).wf(),
            forall|p: int| 0 <= p < NPRIO && p != prio ==> #[trigger] final(self).queue(p) == old(self).queue(p),
            old(self).queue(prio as int).len() == 0 ==> actor is None && final(self).queue(prio as int) == old(self).queue(prio as int),
            old(self).queue(prio as int).len() > 0 ==> actor == Some(old(self).queue(prio as int)[0]) && final(self).queue(prio as int) == old(self).queue(prio as int).drop_first(),
    {
        let r = self.runq[prio as usize].dequeue();
        proof {
            assert forall|p: int| 0 <= p < NPRIO implies (#[trigger] self.runq@[p]).wf() by {
                if p != prio {
                    assert(self.runq@[p] == old(self).runq@[p]);
                }
            }
        }
        r
    }

    /// Queues `item` at the tail of priority `prio`.
    pub fn insert(&mut self, item: usize, prio: usize)
        requires
            old(self).wf(),
            prio < NPRIO,
            !old(self).queue(prio as int).contains(item),
            item < usize::MAX - 1,
        ensures
            final(self).wf(),
            forall|p: int| 0 <= p < NPRIO && p != prio ==> #[trigger] final(self).queue(p) == old(self).queue(p),
            final(self).queue(prio as int) == old(self).queue(prio as int).push(item),
    {
        self.runq[prio].enqueue(&item);
        proof {
            assert forall|p: int| 0 <= p < NPRIO implies (#[trigger] self.runq@[p]).wf() by {
                if p != prio {
                    assert(self.runq@[p] == old(self).runq@[p]);
                }
            }
        }
    }
}

/// What starting actor `a` on CPU `this_cpu` gives, when the interrupt
/// controller gives its vector priority `prio`: `None` for success, else the
/// error.
pub open spec fn spawn_outcome(a: Actor, this_cpu: u8, prio: u8, nprio: int, ncpus: int) -> Option<SpawnError> {
    if prio != a.prio {
        Some(SpawnError::PriorityMismatch)
    } else if this_cpu != a.cpu {
        Some(SpawnError::WrongCpu)
    } else if (a.prio as int) >= nprio || (a.cpu as int) >= ncpus {
        Some(SpawnError::PriorityOutOfRange)
    } else {
        None
    }
}

/// `actor` names an actor owned by the executor, of CPU `cpu` and priority
/// `prio`.
pub open spec fn queued_ok(actors: Seq<Actor>, actor: usize, cpu: int, prio: int) -> bool {
    &&& actor < actors.len()
    &&& actors[actor as int].has_parent()
    &&& actors[actor as int].cpu == cpu
    &&& actors[actor as int].prio == prio
}

/// Indices, counted from `base`, of those of the first `k` actors of
/// `actors` whose priority is `prio`, in order.
pub open spec fn started_at(actors: Seq<Actor>, base: int, prio: int, k: int) -> Seq<usize>
    decreases k,
{
    if k <= 0 {
        Seq::empty()
    } else if actors[k - 1].prio == prio {
        started_at(actors, base, prio, k - 1).push((base + k - 1) as usize)
    } else {
        started_at(actors, base, prio, k - 1)
    }
}

/// `after` is the run queue `before` followed by exactly the indices,
/// counted from `base`, of those of the first `n` actors of `actors` whose
/// priority is `prio`, each once and in the order of the actors.
pub open spec fn grown_in_order(
    before: Seq<usize>,
    after: Seq<usize>,
    actors: Seq<Actor>,
    base: int,
    prio: int,
    n: int,
) -> bool {
    &&& before.len() <= after.len()
    &&& forall|j: int| 0 <= j < before.len() ==> #[trigger] after[j] == before[j]
    &&& forall|m: int| 0 <= m < n && (#[trigger] actors[m]).prio == prio ==> after.contains((base + m) as usize)
    &&& forall|j: int|
        before.len() <= j < after.len() ==> base <= #[trigger] after[j] < base + n && actors[after[j] - base].prio == prio
    &&& forall|i: int, j: int| before.len() <= i < j < after.len() ==> #[trigger] after[i] < #[trigger] after[j]
}

/// `started_at` lists, in increasing order, the index of every one of the
/// first `k` actors whose priority is `prio`, and nothing else.
pub proof fn law_started_at(actors: Seq<Actor>, base: int, prio: int, k: int)
    requires
        0 <= k <= actors.len(),
        0 <= base,
        base + k <= usize::MAX,
    ensures
        grown_in_order(Seq::empty(), started_at(actors, base, prio, k), actors, base, prio, k),
    decreases k,
{
    if k > 0 {
        law_started_at(actors, base, prio, k - 1);
        let s0 = started_at(actors, base, prio, k - 1);
        let s = started_at(actors, base, prio, k);
        if actors[k - 1].prio == prio {
            let x = (base + k - 1) as usize;
            assert(s == s0.push(x));
            assert forall|m: int| 0 <= m < k && (#[trigger] actors[m]).prio == prio implies s.contains((base + m) as usize) by {
                if m < k - 1 {
                    assert(s0.contains((base + m) as usize));
                    let j = choose|j: int| 0 <= j < s0.len() && s0[j] == (base + m) as usize;
                    assert(s[j] == s0[j]);
                } else {
                    assert(s[s0.len() as int] == x);
                }
            }
            assert forall|j: int| 0 <= j < s.len() implies base <= #[trigger] s[j] < base + k && actors[s[j] - base].prio == prio by {
                if j < s0.len() {
                    assert(s[j] == s0[j]);
                }
            }
            assert forall|i: int, j: int| 0 <= i < j < s.len() implies #[trigger] s[i] < #[trigger] s[j] by {
                if j < s0.len() {
                    assert(s[i] == s0[i] && s[j] == s0[j]);
                } else {
                    assert(s[i] == s0[i]);
                }
            }
        } else {
            assert(s == s0);
            assert forall|m: int| 0 <= m < k && (#[trigger] actors[m]).prio == prio implies s.contains((base + m) as usize) by {
            }
        }
    }
}

/// Putting a run queue `before` in front of such a list of indices keeps
/// `before` and adds exactly those indices in order.
proof fn lemma_grown_concat(before: Seq<usize>, t: Seq<usize>, actors: Seq<Actor>, base: int, prio: int, n: int)
    requires
        grown_in_order(Seq::empty(), t, actors, base, prio, n),
    ensures
        grown_in_order(before, before + t, actors, base, prio, n),
{
    let a = before + t;
    let b = before.len() as int;
    assert forall|m: int| 0 <= m < n && (#[trigger] actors[m]).prio == prio implies a.contains((base + m) as usize) by {
        assert(t.contains((base + m) as usize));
        let j = choose|j: int| 0 <= j < t.len() && t[j] == (base + m) as usize;
        assert(a[b + j] == t[j]);
    }
    assert forall|j: int| b <= j < a.len() implies base <= #[trigger] a[j] < base + n && actors[a[j] - base].prio == prio by {
        assert(a[j] == t[j - b]);
    }
    assert forall|i: int, j: int| b <= i < j < a.len() implies #[trigger] a[i] < #[trigger] a[j] by {
        assert(a[i] == t[i - b] && a[j] == t[j - b]);
    }
}

/// The executor of `NCPUS` CPUs with `NPRIO` priorities; `IC` is the
/// interrupt controller. It owns the actors it runs, named by their index.
pub struct Executor<IC: Pic, const NPRIO: usize, const NCPUS: usize> {
    per_cpu_data: Vec<PerCpuContainer<NPRIO>>,
    actors: Vec<Actor>,
    _pic: PhantomData<IC>,
}

impl<IC: Pic, const NPRIO: usize, const NCPUS: usize> Executor<IC, NPRIO, NCPUS> {
    /// The run queue of priority `prio` on CPU `cpu`.
    pub closed spec fn queue(&self, cpu: int, prio: int) -> Seq<usize> {
        self.per_cpu_data@[cpu].queue(prio)
    }

    /// The actors, by index.
    pub closed spec fn actors(&self) -> Seq<Actor> {
        self.actors@
    }

    pub closed spec fn wf(&self) -> bool {
        &&& self.per_cpu_data@.len() == NCPUS
        &&& forall|c: int| 0 <= c < NCPUS ==> (#[trigger] self.per_cpu_data@[c]).wf()
        &&& self.actors@.len() < usize::MAX - 1
        &&& forall|c: int, p: int, j: int|
            0 <= c < NCPUS && 0 <= p < NPRIO && 0 <= j < self.queue(c, p).len() ==> queued_ok(
                self.actors@,
                #[trigger] self.queue(c, p)[j],
                c,
                p,
            )
    }

    /// Every queued actor is owned by the executor and waits in the queue
    /// of its own CPU and priority.
    pub proof fn law_queued_owned(&self)
        requires
            self.wf(),
        ensures
            forall|c: int, p: int, j: int|
                0 <= c < NCPUS && 0 <= p < NPRIO && 0 <= j < self.queue(c, p).len() ==> queued_ok(
                    self.actors(),
                    #[trigger] self.queue(c, p)[j],
                    c,
                    p,
                ),
    {
    }

    pub fn new() -> (e: Self)
        ensures
            e.wf(),
            e.actors() == Seq::<Actor>::empty(),
            forall|c: int, p: int| 0 <= c < NCPUS && 0 <= p < NPRIO ==> #[trigger] e.queue(c, p) == Seq::<usize>::empty(),
    {
        let mut per_cpu_data: Vec<PerCpuContainer<NPRIO>> = Vec::new();
        let mut i: usize = 0;
        while i < NCPUS
            invariant
                i <= NCPUS,
                per_cpu_data@.len() == i,
                forall|c: int| 0 <= c < i ==> (#[trigger] per_cpu_data@[c]).wf(),
                forall|c: int, p: int| 0 <= c < i && 0 <= p < NPRIO ==> #[trigger] per_cpu_data@[c].queue(p) == Seq::<usize>::empty(),
            decreases NCPUS - i,
        {
            per_cpu_data.push(PerCpuContainer::new());
            i = i + 1;
        }
        Executor { per_cpu_data, actors: Vec::new(), _pic: PhantomData }
    }

    /// Empties every run queue of every CPU.
    pub fn init(&mut self)
        requires
            old(self).wf(),
        ensures
            final(self).wf(),
            final(self).actors() == old(self).actors(),
            forall|c: int, p: int| 0 <= c < NCPUS && 0 <= p < NPRIO ==> #[trigger] final(self).queue(c, p) == Seq::<usize>::empty(),
    {
        let mut cpu: usize = 0;
        while cpu < NCPUS
            invariant
                cpu <= NCPUS,
                self.per_cpu_data@.len() == NCPUS,
                self.actors == old(self).actors,
                forall|c: int| 0 <= c < NCPUS ==> (#[trigger] self.per_cpu_data@[c]).wf(),
                forall|c: int, p: int| 0 <= c < cpu && 0 <= p < NPRIO ==> #[trigger] self.per_cpu_data@[c].queue(p) == Seq::<usize>::empty(),
            decreases NCPUS - cpu,
        {
            self.per_cpu_data[cpu].init();
            cpu = cpu + 1;
        }
    }

    /// Queues actor `actor` at its priority on its CPU, and returns the
    /// interrupt to request for it: its CPU and its vector.
    pub fn activate(&mut self, actor: usize) -> (req: (u8, u16))
        requires
            old(self).wf(),
            actor < old(self).actors().len(),
            old(self).actors()[actor as int].has_parent(),
            (old(self).actors()[actor as int].cpu as int) < NCPUS,
            (old(self).actors()[actor as int].prio as int) < NPRIO,
            !old(self).queue(
                old(self).actors()[actor as int].cpu as int,
                old(self).actors()[actor as int].prio as int,
            ).contains(actor),
        ensures
            final(self).wf(),
            final(self).actors() == old(self).actors(),
            req == (old(self).actors()[actor as int].cpu, old(self).actors()[actor as int].vect),
            ({
                let a = old(self).actors()[actor as int];
                &&& final(self).queue(a.cpu as int, a.prio as int) == old(self).queue(a.cpu as int, a.prio as int).push(actor)
                &&& forall|c: int, p: int|
                    0 <= c < NCPUS && 0 <= p < NPRIO && (c != a.cpu || p != a.prio) ==> #[trigger] final(self).queue(c, p)
                        == old(self).queue(c, p)
            }),
    {
        let cpu = self.actors[actor].cpu;
        let prio = self.actors[actor].prio;
        let vect = self.actors[actor].vect;
        self.per_cpu_data[cpu as usize].insert(actor, prio as usize);
        proof {
            assert forall|c: int| 0 <= c < NCPUS implies (#[trigger] self.per_cpu_data@[c]).wf() by {
                if c != cpu {
                    assert(self.per_cpu_data@[c] == old(self).per_cpu_data@[c]);
                }
            }
            assert forall|c: int, p: int|
                0 <= c < NCPUS && 0 <= p < NPRIO && (c != cpu || p != prio) implies #[trigger] self.queue(c, p) == old(self).queue(c, p) by {
                if c != cpu {
                    assert(self.per_cpu_data@[c] == old(self).per_cpu_data@[c]);
                }
            }
            assert forall|c: int, p: int, j: int|
                0 <= c < NCPUS && 0 <= p < NPRIO && 0 <= j < self.queue(c, p).len() implies queued_ok(
                self.actors@,
                #[trigger] self.queue(c, p)[j],
                c,
                p,
            ) by {
                if c == cpu && p == prio && j == old(self).queue(c, p).len() {
                } else if c == cpu && p == prio {
                    assert(self.queue(c, p)[j] == old(self).queue(c, p)[j]);
                } else {
                    assert(self.queue(c, p) == old(self).queue(c, p));
                }
            }
        }
        (cpu, vect)
    }

    /// Takes over actor `actor` and queues it, given `prio`, the priority
    /// that the interrupt controller gives the actor's vector. It succeeds
    /// exactly when `prio` is the actor's priority, the actor belongs to CPU
    /// `this_cpu`, and both have a run queue; otherwise nothing changes. On
    /// success it returns the interrupt to request for the actor.
    pub fn spawn_checked(&mut self, this_cpu: u8, actor: usize, prio: u8) -> (r: Result<(u8, u16), SpawnError>)
        requires
            old(self).wf(),
            actor < old(self).actors().len(),
            !old(self).actors()[actor as int].has_parent(),
        ensures
            final(self).wf(),
            ({
                let a = old(self).actors()[actor as int];
                &&& prio != a.prio ==> r == Err::<(u8, u16), SpawnError>(SpawnError::PriorityMismatch)
                &&& prio == a.prio && this_cpu != a.cpu ==> r == Err::<(u8, u16), SpawnError>(SpawnError::WrongCpu)
                &&& prio == a.prio && this_cpu == a.cpu && ((a.prio as int) >= NPRIO || (a.cpu as int) >= NCPUS)
                    ==> r == Err::<(u8, u16), SpawnError>(SpawnError::PriorityOutOfRange)
                &&& r is Ok <==> spawn_outcome(a, this_cpu, prio, NPRIO as int, NCPUS as int) is None
                &&& r is Err ==> *final(self) == *old(self)
                &&& r is Ok ==> {
                    &&& r->Ok_0 == (a.cpu, a.vect)
                    &&& prio == a.prio
                    &&& this_cpu == a.cpu
                    &&& (a.prio as int) < NPRIO
                    &&& (a.cpu as int) < NCPUS
                    &&& final(self).actors() == old(self).actors().update(actor as int, Actor { parent: true, ..a })
                    &&& final(self).queue(a.cpu as int, a.prio as int) == old(self).queue(a.cpu as int, a.prio as int).push(actor)
                    &&& forall|c: int, p: int|
                        0 <= c < NCPUS && 0 <= p < NPRIO && (c != a.cpu || p != a.prio) ==> #[trigger] final(self).queue(c, p)
                            == old(self).queue(c, p)
                }
            }),
    {
        if prio != self.actors[actor].prio {
            return Err(SpawnError::PriorityMismatch);
        }
        if this_cpu != self.actors[actor].cpu {
            return Err(SpawnError::WrongCpu);
        }
        if prio as usize >= NPRIO || this_cpu as usize >= NCPUS {
            return Err(SpawnError::PriorityOutOfRange);
        }
        proof {
            assert forall|c: int, p: int, j: int|
                0 <= c < NCPUS && 0 <= p < NPRIO && 0 <= j < self.queue(c, p).len() implies #[trigger] self.queue(c, p)[j] != actor by {
                assert(queued_ok(self.actors@, self.queue(c, p)[j], c, p));
            }
        }
        let ghost q0 = self.per_cpu_data@;
        self.actors[actor].set_parent();
        proof {
            assert(self.per_cpu_data@ == q0);
            assert forall|c: int, p: int, j: int|
                0 <= c < NCPUS && 0 <= p < NPRIO && 0 <= j < self.queue(c, p).len() implies queued_ok(
                self.actors@,
                #[trigger] self.queue(c, p)[j],
                c,
                p,
            ) by {
                assert(self.queue(c, p) == old(self).queue(c, p));
                assert(queued_ok(old(self).actors@, old(self).queue(c, p)[j], c, p));
            }
            assert(!self.queue(this_cpu as int, prio as int).contains(actor)) by {
                if self.queue(this_cpu as int, prio as int).contains(actor) {
                    let j = choose|j: int| 0 <= j < self.queue(this_cpu as int, prio as int).len() && #[trigger] self.queue(this_cpu as int, prio as int)[j] == actor;
                    assert(self.queue(this_cpu as int, prio as int) == old(self).queue(this_cpu as int, prio as int));
                    assert(queued_ok(old(self).actors@, old(self).queue(this_cpu as int, prio as int)[j], this_cpu as int, prio as int));
                }
            }
        }
        let req = self.activate(actor);
        Ok(req)
    }

    /// Takes over actor `actor`, of CPU `this_cpu`, whose vector has the
    /// actor's priority at the interrupt controller, and queues it; returns
    /// the interrupt to request for it.
    pub fn spawn(&mut self, this_cpu: u8, actor: usize) -> (req: (u8, u16))
        requires
            old(self).wf(),
            actor < old(self).actors().len(),
            !old(self).actors()[actor as int].has_parent(),
            IC::prio_of(old(self).actors()[actor as int].vect) == old(self).actors()[actor as int].prio,
            this_cpu == old(self).actors()[actor as int].cpu,
            (old(self).actors()[actor as int].prio as int) < NPRIO,
            (old(self).actors()[actor as int].cpu as int) < NCPUS,
        ensures
            final(self).wf(),
            ({
                let a = old(self).actors()[actor as int];
                &&& req == (a.cpu, a.vect)
                &&& final(self).actors() == old(self).actors().update(actor as int, Actor { parent: true, ..a })
                &&& final(self).queue(a.cpu as int, a.prio as int) == old(self).queue(a.cpu as int, a.prio as int).push(actor)
                &&& forall|c: int, p: int|
                    0 <= c < NCPUS && 0 <= p < NPRIO && (c != a.cpu || p != a.prio) ==> #[trigger] final(self).queue(c, p)
                        == old(self).queue(c, p)
            }),
    {
        let vect = self.actors[actor].vect;
        let prio = IC::interrupt_prio(vect);
        match self.spawn_checked(this_cpu, actor, prio) {
            Ok(req) => req,
            Err(_) => {
                proof {
                    assert(false);
                }
                (this_cpu, vect)
            },
        }
    }

    /// Queues grown by `started_at` hold every started actor at its own
    /// priority, after what they held before, in order.
    proof fn lemma_queues_grown(s: Self, old: Self, actors: Seq<Actor>, base: int, n: int)
        requires
            0 <= base,
            0 <= n <= actors.len(),
            base + n <= usize::MAX,
            forall|p: int| 0 <= p < NPRIO ==> #[trigger] s.queue(0, p) == old.queue(0, p) + started_at(actors, base, p, n),
            forall|m: int| 0 <= m < n ==> ((#[trigger] actors[m]).prio as int) < NPRIO,
        ensures
            forall|p: int|
                0 <= p < NPRIO ==> #[trigger] grown_in_order(old.queue(0, p), s.queue(0, p), actors, base, p, n),
            forall|k: int| 0 <= k < n ==> s.queue(0, (#[trigger] actors[k]).prio as int).contains((base + k) as usize),
    {
        assert forall|p: int| 0 <= p < NPRIO implies #[trigger] grown_in_order(old.queue(0, p), s.queue(0, p), actors, base, p, n) by {
            law_started_at(actors, base, p, n);
            lemma_grown_concat(old.queue(0, p), started_at(actors, base, p, n), actors, base, p, n);
        }
        assert forall|k: int| 0 <= k < n implies s.queue(0, (#[trigger] actors[k]).prio as int).contains((base + k) as usize) by {
            let p = actors[k].prio as int;
            assert(grown_in_order(old.queue(0, p), s.queue(0, p), actors, base, p, n));
        }
    }

    /// Takes over the actors `actors`, which get the next indices, and
    /// starts each on the calling CPU in turn, `prios[k]` being the priority
    /// that the interrupt controller gives the vector of `actors[k]`. It
    /// stops at the first actor that cannot be started (see
    /// `spawn_outcome`), which stays registered but not started. It returns
    /// the interrupts to request for the actors started, in order, and the
    /// error of the actor that could not be started, if any.
    pub fn run_checked(&mut self, actors: Vec<Actor>, prios: Vec<u8>) -> (r: (Vec<(u8, u16)>, Result<(), SpawnError>))
        requires
            old(self).wf(),
            prios@.len() == actors@.len(),
            forall|k: int| 0 <= k < actors@.len() ==> !(#[trigger] actors@[k]).has_parent(),
            old(self).actors().len() + actors@.len() < usize::MAX - 1,
        ensures
            final(self).wf(),
            ({
                let base = old(self).actors().len() as int;
                let n = r.0@.len() as int;
                &&& n <= actors@.len()
                &&& r.1 is Ok <==> n == actors@.len()
                &&& r.1 is Ok <==> forall|k: int|
                    0 <= k < actors@.len() ==> spawn_outcome(#[trigger] actors@[k], 0, prios@[k], NPRIO as int, NCPUS as int) is None
                &&& (exists|k: int| 0 <= k < actors@.len() && (#[trigger] actors@[k]).cpu != 0) ==> r.1 is Err
                &&& forall|k: int|
                    #![trigger actors@[k]]
                    0 <= k < n ==> {
                        &&& spawn_outcome(actors@[k], 0, prios@[k], NPRIO as int, NCPUS as int) is None
                        &&& r.0@[k] == (actors@[k].cpu, actors@[k].vect)
                        &&& final(self).actors()[base + k] == Actor { parent: true, ..actors@[k] }
                    }
                &&& r.1 is Err ==> {
                    &&& spawn_outcome(actors@[n], 0, prios@[n], NPRIO as int, NCPUS as int) == Some(r.1->Err_0)
                    &&& final(self).actors().len() == base + n + 1
                    &&& final(self).actors()[base + n] == actors@[n]
                }
                &&& r.1 is Ok ==> final(self).actors().len() == base + n
                &&& forall|i: int| 0 <= i < base ==> #[trigger] final(self).actors()[i] == old(self).actors()[i]
                &&& forall|p: int|
                    0 <= p < NPRIO ==> #[trigger] final(self).queue(0, p) == old(self).queue(0, p) + started_at(actors@, base, p, n)
                &&& forall|k: int|
                    0 <= k < n ==> final(self).queue(0, (#[trigger] actors@[k]).prio as int).contains((base + k) as usize)
                &&& forall|p: int|
                    0 <= p < NPRIO ==> #[trigger] grown_in_order(old(self).queue(0, p), final(self).queue(0, p), actors@, base, p, n)
                &&& forall|c: int, p: int|
                    0 < c < NCPUS && 0 <= p < NPRIO ==> #[trigger] final(self).queue(c, p) == old(self).queue(c, p)
            }),
    {
        let cpu = cpu_this();
        let ghost base = self.actors@.len() as int;
        let mut reqs: Vec<(u8, u16)> = Vec::new();
        let mut k: usize = 0;
        while k < actors.len()
            invariant
                self.wf(),
                cpu == 0,
                base == old(self).actors().len(),
                base + actors@.len() < usize::MAX - 1,
                k <= actors@.len(),
                reqs@.len() == k,
                self.actors@.len() == base + k,
                forall|i: int| 0 <= i < base ==> #[trigger] self.actors@[i] == old(self).actors()[i],
                forall|m: int| 0 <= m < actors@.len() ==> !(#[trigger] actors@[m]).has_parent(),
                prios@.len() == actors@.len(),
                forall|m: int|
                    #![trigger actors@[m]]
                    0 <= m < k ==> {
                        &&& spawn_outcome(actors@[m], 0, prios@[m], NPRIO as int, NCPUS as int) is None
                        &&& reqs@[m] == (actors@[m].cpu, actors@[m].vect)
                        &&& self.actors@[base + m] == Actor { parent: true, ..actors@[m] }
                    },
                forall|p: int|
                    0 <= p < NPRIO ==> #[trigger] self.queue(0, p) == old(self).queue(0, p) + started_at(actors@, base, p, k as int),
                forall|c: int, p: int|
                    0 < c < NCPUS && 0 <= p < NPRIO ==> #[trigger] self.queue(c, p) == old(self).queue(c, p),
            decreases actors@.len() - k,
        {
            let id = self.actors.len();
            let ghost e0 = *self;
            self.actors.push(actors[k]);
            proof {
                assert forall|c: int, p: int, j: int|
                    0 <= c < NCPUS && 0 <= p < NPRIO && 0 <= j < self.queue(c, p).len() implies queued_ok(
                    self.actors@,
                    #[trigger] self.queue(c, p)[j],
                    c,
                    p,
                ) by {
                    assert(self.queue(c, p) == e0.queue(c, p));
                    assert(queued_ok(e0.actors@, e0.queue(c, p)[j], c, p));
                }
            }
            let ghost e1 = *self;
            match self.spawn_checked(cpu, id, prios[k]) {
                Err(e) => {
                    proof {
                        assert(e1.actors@[id as int] == actors@[k as int]);
                        assert(self.actors@ == e1.actors@);
                        assert(spawn_outcome(actors@[k as int], 0, prios@[k as int], NPRIO as int, NCPUS as int) == Some(e));
                        assert(!(forall|m: int|
                            0 <= m < actors@.len() ==> spawn_outcome(#[trigger] actors@[m], 0, prios@[m], NPRIO as int, NCPUS as int) is None));
                        assert forall|p: int| 0 <= p < NPRIO implies #[trigger] self.queue(0, p) == old(self).queue(0, p) + started_at(actors@, base, p, k as int) by {
                            assert(self.queue(0, p) == e0.queue(0, p));
                        }
                        assert forall|c: int, p: int| 0 < c < NCPUS && 0 <= p < NPRIO implies #[trigger] self.queue(c, p) == old(self).queue(c, p) by {
                            assert(self.queue(c, p) == e0.queue(c, p));
                        }
                    }
                    proof {
                        assert forall|m: int| 0 <= m < k implies ((#[trigger] actors@[m]).prio as int) < NPRIO by {
                            assert(spawn_outcome(actors@[m], 0, prios@[m], NPRIO as int, NCPUS as int) is None);
                        }
                        Self::lemma_queues_grown(*self, *old(self), actors@, base, k as int);
                    }
                    return (reqs, Err(e));
                },
                Ok(req) => {
                    reqs.push(req);
                },
            }
            proof {
                let a = actors@[k as int];
                assert forall|p: int| 0 <= p < NPRIO implies #[trigger] self.queue(0, p) == old(self).queue(0, p) + started_at(actors@, base, p, k + 1) by {
                    assert(e1.queue(0, p) == e0.queue(0, p));
                    if p == a.prio {
                        assert(started_at(actors@, base, p, k + 1) == started_at(actors@, base, p, k as int).push(id));
                        assert(self.queue(0, p) =~= old(self).queue(0, p) + started_at(actors@, base, p, k + 1));
                    } else {
                        assert(started_at(actors@, base, p, k + 1) == started_at(actors@, base, p, k as int));
                    }
                }
                assert forall|c: int, p: int| 0 < c < NCPUS && 0 <= p < NPRIO implies #[trigger] self.queue(c, p) == old(self).queue(c, p) by {
                    assert(e1.queue(c, p) == e0.queue(c, p));
                }
            }
            k = k + 1;
        }
        proof {
            assert forall|m: int| 0 <= m < k implies ((#[trigger] actors@[m]).prio as int) < NPRIO by {
                assert(spawn_outcome(actors@[m], 0, prios@[m], NPRIO as int, NCPUS as int) is None);
            }
            Self::lemma_queues_grown(*self, *old(self), actors@, base, k as int);
        }
        (reqs, Ok(()))
    }

    /// Takes over the actors `actors`, which get the next indices, and
    /// starts each on the calling CPU in turn; each belongs to that CPU and
    /// its vector has its priority at the interrupt controller. Returns the
    /// interrupts to request for the actors, in order.
    pub fn run(&mut self, actors: Vec<Actor>) -> (reqs: Vec<(u8, u16)>)
        requires
            old(self).wf(),
            NCPUS >= 1,
            old(self).actors().len() + actors@.len() < usize::MAX - 1,
            forall|k: int|
                #![trigger actors@[k]]
                0 <= k < actors@.len() ==> {
                    &&& !actors@[k].has_parent()
                    &&& actors@[k].cpu == 0
                    &&& IC::prio_of(actors@[k].vect) == actors@[k].prio
                    &&& (actors@[k].prio as int) < NPRIO
                },
        ensures
            final(self).wf(),
            ({
                let base = old(self).actors().len() as int;
                &&& reqs@.len() == actors@.len()
                &&& final(self).actors().len() == base + actors@.len()
                &&& forall|i: int| 0 <= i < base ==> #[trigger] final(self).actors()[i] == old(self).actors()[i]
                &&& forall|k: int|
                    #![trigger actors@[k]]
                    0 <= k < actors@.len() ==> {
                        &&& reqs@[k] == (actors@[k].cpu, actors@[k].vect)
                        &&& final(self).actors()[base + k] == Actor { parent: true, ..actors@[k] }
                    }
                &&& forall|p: int|
                    0 <= p < NPRIO ==> #[trigger] final(self).queue(0, p) == old(self).queue(0, p) + started_at(
                        actors@,
                        base,
                        p,
                        actors@.len() as int,
                    )
                &&& forall|k: int|
                    0 <= k < actors@.len() ==> final(self).queue(0, (#[trigger] actors@[k]).prio as int).contains(
                        (base + k) as usize,
                    )
                &&& forall|p: int|
                    0 <= p < NPRIO ==> #[trigger] grown_in_order(
                        old(self).queue(0, p),
                        final(self).queue(0, p),
                        actors@,
                        base,
                        p,
                        actors@.len() as int,
                    )
                &&& forall|c: int, p: int|
                    0 < c < NCPUS && 0 <= p < NPRIO ==> #[trigger] final(self).queue(c, p) == old(self).queue(c, p)
            }),
    {
        let mut prios: Vec<u8> = Vec::new();
        let mut k: usize = 0;
        while k < actors.len()
            invariant
                k <= actors@.len(),
                prios@.len() == k,
                forall|m: int| 0 <= m < k ==> prios@[m] == IC::prio_of((#[trigger] actors@[m]).vect),
            decreases actors@.len() - k,
        {
            let p = IC::interrupt_prio(actors[k].vect);
            prios.push(p);
            k = k + 1;
        }
        let ghost all = actors@;
        proof {
            assert forall|m: int| 0 <= m < all.len() implies spawn_outcome(#[trigger] all[m], 0, prios@[m], NPRIO as int, NCPUS as int) is None by {
                assert(prios@[m] == IC::prio_of(all[m].vect));
            }
        }
        let (reqs, _) = self.run_checked(actors, prios);
        reqs
    }

    /// Takes the next actor of priority `prio` on the calling CPU.
    pub fn next_actor(&mut self, prio: u8) -> (actor: Option<usize>)
        requires
            old(self).wf(),
            NCPUS >= 1,
            (prio as int) < NPRIO,
        ensures
            final(self).wf(),
            final(self).actors() == old(self).actors(),
            forall|c: int, p: int|
                0 <= c < NCPUS && 0 <= p < NPRIO && (c != 0 || p != prio) ==> #[trigger] final(self).queue(c, p)
                    == old(self).queue(c, p),
            old(self).queue(0, prio as int).len() == 0 ==> actor is None && final(self).queue(0, prio as int) == old(self).queue(0, prio as int),
            old(self).queue(0, prio as int).len() > 0 ==> actor == Some(old(self).queue(0, prio as int)[0]) && final(self).queue(0, prio as int) == old(self).queue(0, prio as int).drop_first(),
    {
        let cpu = cpu_this() as usize;
        let r = self.per_cpu_data[cpu].extract(prio);
        proof {
            assert forall|c: int| 0 <= c < NCPUS implies (#[trigger] self.per_cpu_data@[c]).wf() by {
                if c != cpu {
                    assert(self.per_cpu_data@[c] == old(self).per_cpu_data@[c]);
                }
            }
            assert forall|c: int, p: int|
                0 <= c < NCPUS && 0 <= p < NPRIO && (c != 0 || p != prio) implies #[trigger] self.queue(c, p) == old(self).queue(c, p) by {
                if c != cpu {
                    assert(self.per_cpu_data@[c] == old(self).per_cpu_data@[c]);
                }
            }
            assert forall|c: int, p: int, j: int|
                0 <= c < NCPUS && 0 <= p < NPRIO && 0 <= j < self.queue(c, p).len() implies queued_ok(
                self.actors@,
                #[trigger] self.queue(c, p)[j],
                c,
                p,
            ) by {
                if c == 0 && p == prio {
                    assert(self.queue(c, p)[j] == old(self).queue(c, p)[j + 1]);
                } else {
                    assert(self.queue(c, p) == old(self).queue(c, p));
                }
            }
        }
        r
    }
}

} // verus!
