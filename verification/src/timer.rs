//! Hierarchical software timers.
//!
//! A waiter whose deadline is `d` while the tick count is `now` sits in the
//! queue of level `level(now, d)`: the most significant bit in which `now`
//! and `d` differ, capped at the number of levels minus one. A tick that
//! carries into bit `k` processes only the queue of level `k`; waiters found
//! there either expire or move to a lower level.
//!
//! The tick count is a `u32` that never wraps around: the last tick brings
//! it to `u32::MAX` (at 1000 ticks a second, some 49 days after start), and
//! no deadline may lie beyond that. `tick` and `subscribe` require as much.
use vstd::prelude::*;
use crate::bits::{level, lemma_leading_zeros_msb, lemma_tick_level};
use crate::list::QueueRef;
use crate::utils::cpu_this;

verus! {

/// Per-waiter record of the timer: the tick count at which it expires.
pub struct TWaitBlock {
    pub timeout: u32,
}

/// `w` is pending with a deadline ahead of `now` at level `r`.
pub open spec fn placed(pending: Map<usize, u32>, now: u32, w: usize, r: int, levels: int) -> bool {
    &&& pending.contains_key(w)
    &&& pending[w] > now
    &&& level(now, pending[w], levels) == r
}

/// The waiters due at tick count `now`.
pub open spec fn due(pending: Map<usize, u32>, now: u32) -> Set<usize> {
    Set::new(|w: usize| pending.contains_key(w) && pending[w] == now)
}

/// The waiters left once those due at `now` have fired.
pub open spec fn after_tick(pending: Map<usize, u32>, now: u32) -> Map<usize, u32> {
    Map::new(|w: usize| pending.contains_key(w) && pending[w] != now, |w: usize| pending[w])
}

/// The waiters left after `k` ticks from tick count `t`.
pub open spec fn elapse(pending: Map<usize, u32>, t: int, k: nat) -> Map<usize, u32>
    decreases k,
{
    if k == 0 {
        pending
    } else {
        after_tick(elapse(pending, t, (k - 1) as nat), (t + k) as u32)
    }
}

/// A sequence without repetitions drawn from a finite set is not longer
/// than the set.
proof fn lemma_card(s: Seq<usize>, dom: Set<usize>)
    requires
        s.no_duplicates(),
        dom.finite(),
        forall|j: int| 0 <= j < s.len() ==> dom.contains(#[trigger] s[j]),
    ensures
        s.len() <= dom.len(),
{
    assert forall|w: usize| s.to_set().contains(w) implies dom.contains(w) by {
        let j = choose|j: int| 0 <= j < s.len() && #[trigger] s[j] == w;
    }
    s.unique_seq_to_set();
    vstd::set_lib::lemma_len_subset(s.to_set(), dom);
}

/// Loop invariant of `tick`: the waiters `p` of the processed level `q`
/// (taken from the state before the tick from `t` to `t + 1`) are handled in
/// order; the first `i` of them have expired or moved, the others wait at
/// the head of queue `q`.
spec fn tick_inv<const N: usize>(
    s: PerCpuTimer<N>,
    blocks0: Seq<TWaitBlock>,
    pending0: Map<usize, u32>,
    p: Seq<usize>,
    fired: Seq<usize>,
    i: int,
    q: int,
    t: u32,
) -> bool {
    let qs = s.timers@;
    let lens = s.len@;
    let pending = s.pending@;
    let u = (t + 1) as u32;
    let cnt = p.len() as int;
    let n = N as int;
    &&& N >= 1
    &&& t < u32::MAX
    &&& s.ticks == u
    &&& 0 <= q < N
    &&& q == level(t, u, n)
    &&& 0 <= i <= cnt
    &&& s.blocks@ == blocks0
    &&& qs.len() == N
    &&& lens.len() == N
    &&& forall|r: int| 0 <= r < N ==> (#[trigger] qs[r]).wf()
    &&& forall|r: int| 0 <= r < N && r != q ==> #[trigger] lens[r] == qs[r]@.len()
    &&& qs[q]@.len() == (cnt - i) + lens[q]
    &&& forall|j: int| 0 <= j < cnt - i ==> #[trigger] qs[q]@[j] == p[i + j]
    &&& forall|r: int, j: int|
        0 <= r < N && 0 <= j < qs[r]@.len() && (r != q || j >= cnt - i) ==> placed(
            pending,
            u,
            #[trigger] qs[r]@[j],
            r,
            n,
        ) && !p.subrange(i, cnt).contains(qs[r]@[j])
    &&& p.no_duplicates()
    &&& forall|j: int| 0 <= j < cnt ==> placed(pending0, t, #[trigger] p[j], q, n)
    &&& forall|w: usize| #[trigger] pending.contains_key(w) ==> pending0.contains_key(w) && pending[w] == pending0[w]
    &&& forall|w: usize| #[trigger] fired.contains(w) <==> pending0.contains_key(w) && !pending.contains_key(w)
    &&& forall|w: usize| #[trigger] fired.contains(w) ==> pending0[w] == u && p.subrange(0, i).contains(w)
    &&& fired.no_duplicates()
    &&& forall|w: usize|
        #[trigger] pending.contains_key(w) ==> p.subrange(i, cnt).contains(w) || (pending[w] > u
            && qs[level(u, pending[w], n)]@.contains(w))
    &&& pending.dom().finite()
    &&& pending.dom().len() < u32::MAX
    &&& forall|w: usize|
        #[trigger] pending0.contains_key(w) ==> w < blocks0.len() && blocks0[w as int].timeout == pending0[w]
            && w < usize::MAX - 1
}

/// The waiters, among those with deadlines `pending`, that expire at tick
/// count `u`.
pub open spec fn fires_at(pending: Map<usize, u32>, u: u32) -> spec_fn(usize) -> bool {
    |w: usize| pending[w] == u
}

/// The waiters, among those with deadlines `pending`, that still wait at
/// tick count `u` and then belong to level `r` of `levels`.
pub open spec fn moves_to(pending: Map<usize, u32>, u: u32, r: int, levels: int) -> spec_fn(usize) -> bool {
    |w: usize| pending[w] != u && level(u, pending[w], levels) == r
}

/// `after` is `before` with waiter `w` queued at the tail of the level of
/// deadline `d`, every other level unchanged.
pub open spec fn appended<const N: usize>(before: PerCpuTimer<N>, after: PerCpuTimer<N>, d: u32, w: usize) -> bool {
    let q = level(before.now(), d, N as int);
    &&& after.level_queue(q) == before.level_queue(q).push(w)
    &&& forall|r: int| 0 <= r < N && r != q ==> #[trigger] after.level_queue(r) == before.level_queue(r)
}

/// The order of one tick from `before` to `after`: of the level `q` that
/// the tick processes, the waiters that expire are `fired`, in queue order;
/// each of the others goes, in queue order, to the tail of its level seen
/// from the new tick count, and no waiter is left in level `q` but those.
pub open spec fn ticked<const N: usize>(before: PerCpuTimer<N>, after: PerCpuTimer<N>, fired: Seq<usize>) -> bool {
    let u = after.now();
    let q = level(before.now(), u, N as int);
    &&& fired == before.level_queue(q).filter(fires_at(before.pending(), u))
    &&& forall|r: int|
        0 <= r < N ==> #[trigger] after.level_queue(r) == (if r == q {
            Seq::<usize>::empty()
        } else {
            before.level_queue(r)
        }) + before.level_queue(q).filter(moves_to(before.pending(), u, r, N as int))
}

/// Keeping the first `i + 1` elements of `p` that satisfy `f` keeps those
/// of the first `i`, then `p[i]` if it satisfies `f`.
proof fn lemma_filter_step(p: Seq<usize>, i: int, f: spec_fn(usize) -> bool)
    requires
        0 <= i < p.len(),
    ensures
        p.subrange(0, i + 1).filter(f) == (if f(p[i]) {
            p.subrange(0, i).filter(f).push(p[i])
        } else {
            p.subrange(0, i).filter(f)
        }),
{
    reveal(Seq::filter);
    assert(p.subrange(0, i + 1).drop_last() =~= p.subrange(0, i));
}

/// Order part of the loop invariant of `tick`: of the waiters `p` of the
/// processed level `q` of `old`, the first `i` have been handled in order,
/// those that expired appended to `fired`, the others to the tail of their
/// new level; the rest still wait at the head of level `q`.
spec fn order_inv<const N: usize>(
    s: PerCpuTimer<N>,
    old: PerCpuTimer<N>,
    p: Seq<usize>,
    fired: Seq<usize>,
    i: int,
    q: int,
    u: u32,
) -> bool {
    let pending0 = old.pending@;
    let n = N as int;
    &&& s.timers@.len() == N
    &&& fired == p.subrange(0, i).filter(fires_at(pending0, u))
    &&& s.timers@[q]@ == p.subrange(i, p.len() as int) + p.subrange(0, i).filter(moves_to(pending0, u, q, n))
    &&& forall|r: int|
        0 <= r < N && r != q ==> #[trigger] s.timers@[r]@ == old.timers@[r]@ + p.subrange(0, i).filter(
            moves_to(pending0, u, r, n),
        )
}

/// The order invariant holds before the first waiter is handled.
proof fn lemma_order_start<const N: usize>(s: PerCpuTimer<N>, old: PerCpuTimer<N>, q: int, u: u32)
    requires
        s.timers == old.timers,
        old.timers@.len() == N,
        0 <= q < N,
    ensures
        order_inv(s, old, old.timers@[q]@, Seq::empty(), 0, q, u),
{
    reveal(Seq::filter);
    let p = old.timers@[q]@;
    let e = p.subrange(0, 0);
    assert(e =~= Seq::<usize>::empty());
    assert(e.filter(fires_at(old.pending@, u)) =~= Seq::<usize>::empty());
    assert forall|r: int| 0 <= r < N implies #[trigger] e.filter(moves_to(old.pending@, u, r, N as int)) =~= Seq::<usize>::empty() by {
    }
    assert(s.timers@[q]@ =~= p.subrange(0, p.len() as int) + e.filter(moves_to(old.pending@, u, q, N as int)));
    assert forall|r: int| 0 <= r < N && r != q implies #[trigger] s.timers@[r]@ == old.timers@[r]@ + e.filter(
        moves_to(old.pending@, u, r, N as int),
    ) by {
        assert(old.timers@[r]@ + e.filter(moves_to(old.pending@, u, r, N as int)) =~= old.timers@[r]@);
    }
}

/// Handling an expired waiter keeps the order invariant.
proof fn lemma_order_fire<const N: usize>(
    s0: PerCpuTimer<N>,
    s1: PerCpuTimer<N>,
    old: PerCpuTimer<N>,
    p: Seq<usize>,
    fired0: Seq<usize>,
    fired1: Seq<usize>,
    i: int,
    q: int,
    u: u32,
)
    requires
        order_inv(s0, old, p, fired0, i, q, u),
        0 <= i < p.len(),
        0 <= q < N,
        old.pending@[p[i]] == u,
        s1.timers@.len() == s0.timers@.len(),
        s1.timers@[q]@ == s0.timers@[q]@.drop_first(),
        forall|r: int| 0 <= r < N && r != q ==> s1.timers@[r] == s0.timers@[r],
        fired1 == fired0.push(p[i]),
    ensures
        order_inv(s1, old, p, fired1, i + 1, q, u),
{
    let pending0 = old.pending@;
    let n = N as int;
    let cnt = p.len() as int;
    lemma_filter_step(p, i, fires_at(pending0, u));
    assert forall|r: int| 0 <= r < N implies #[trigger] p.subrange(0, i + 1).filter(moves_to(pending0, u, r, n)) == p.subrange(0, i).filter(moves_to(pending0, u, r, n)) by {
        lemma_filter_step(p, i, moves_to(pending0, u, r, n));
    }
    let fq = p.subrange(0, i).filter(moves_to(pending0, u, q, n));
    assert(s1.timers@[q]@ =~= p.subrange(i + 1, cnt) + fq);
    assert forall|r: int| 0 <= r < N && r != q implies #[trigger] s1.timers@[r]@ == old.timers@[r]@ + p.subrange(0, i + 1).filter(
        moves_to(pending0, u, r, n),
    ) by {
        assert(s1.timers@[r] == s0.timers@[r]);
    }
}

/// Moving a waiter that still waits to the tail of its new level `qnext`
/// keeps the order invariant.
proof fn lemma_order_move<const N: usize>(
    s0: PerCpuTimer<N>,
    s1: PerCpuTimer<N>,
    mid: Seq<QueueRef>,
    old: PerCpuTimer<N>,
    p: Seq<usize>,
    fired: Seq<usize>,
    i: int,
    q: int,
    u: u32,
    qnext: int,
)
    requires
        order_inv(s0, old, p, fired, i, q, u),
        0 <= i < p.len(),
        0 <= q < N,
        0 <= qnext < N,
        old.pending@[p[i]] != u,
        qnext == level(u, old.pending@[p[i]], N as int),
        mid.len() == s0.timers@.len(),
        mid[q]@ == s0.timers@[q]@.drop_first(),
        forall|r: int| 0 <= r < N && r != q ==> mid[r] == s0.timers@[r],
        s1.timers@.len() == mid.len(),
        s1.timers@[qnext]@ == mid[qnext]@.push(p[i]),
        forall|r: int| 0 <= r < N && r != qnext ==> s1.timers@[r] == mid[r],
    ensures
        order_inv(s1, old, p, fired, i + 1, q, u),
{
    let pending0 = old.pending@;
    let n = N as int;
    let cnt = p.len() as int;
    lemma_filter_step(p, i, fires_at(pending0, u));
    assert forall|r: int| 0 <= r < N implies #[trigger] p.subrange(0, i + 1).filter(moves_to(pending0, u, r, n)) == (if r == qnext {
        p.subrange(0, i).filter(moves_to(pending0, u, r, n)).push(p[i])
    } else {
        p.subrange(0, i).filter(moves_to(pending0, u, r, n))
    }) by {
        lemma_filter_step(p, i, moves_to(pending0, u, r, n));
    }
    let fq = p.subrange(0, i).filter(moves_to(pending0, u, q, n));
    if qnext == q {
        assert(s1.timers@[q]@ =~= p.subrange(i + 1, cnt) + fq.push(p[i]));
    } else {
        assert(s1.timers@[q]@ =~= p.subrange(i + 1, cnt) + fq);
    }
    assert forall|r: int| 0 <= r < N && r != q implies #[trigger] s1.timers@[r]@ == old.timers@[r]@ + p.subrange(0, i + 1).filter(
        moves_to(pending0, u, r, n),
    ) by {
        let fr = p.subrange(0, i).filter(moves_to(pending0, u, r, n));
        assert(mid[r] == s0.timers@[r]);
        if r == qnext {
            assert(s1.timers@[r]@ =~= old.timers@[r]@ + fr.push(p[i]));
        } else {
            assert(s1.timers@[r] == mid[r]);
        }
    }
}

/// Timer state of one CPU: `N` queues, one per level, their lengths, the
/// tick count, and the timeout of every waiter.
pub struct PerCpuTimer<const N: usize> {
    timers: Vec<QueueRef>,
    len: Vec<u32>,
    ticks: u32,
    blocks: Vec<TWaitBlock>,
    pending: Ghost<Map<usize, u32>>,
}

impl<const N: usize> PerCpuTimer<N> {
    /// The tick count.
    pub closed spec fn now(&self) -> u32 {
        self.ticks
    }

    /// The waiters and their deadlines.
    pub closed spec fn pending(&self) -> Map<usize, u32> {
        self.pending@
    }

    /// The waiters queued at level `r`, first to be processed first.
    pub closed spec fn level_queue(&self, r: int) -> Seq<usize> {
        self.timers@[r]@
    }

    pub closed spec fn wf(&self) -> bool {
        let qs = self.timers@;
        let pending = self.pending@;
        &&& N >= 1
        &&& qs.len() == N
        &&& self.len@.len() == N
        &&& forall|r: int| 0 <= r < N ==> (#[trigger] qs[r]).wf() && self.len@[r] == qs[r]@.len()
        &&& pending.dom().finite()
        &&& pending.dom().len() < u32::MAX
        &&& forall|r: int, j: int|
            0 <= r < N && 0 <= j < qs[r]@.len() ==> placed(pending, self.ticks, #[trigger] qs[r]@[j], r, N as int)
        &&& forall|w: usize|
            #[trigger] pending.contains_key(w) ==> {
                &&& w < self.blocks@.len()
                &&& self.blocks@[w as int].timeout == pending[w]
                &&& pending[w] > self.ticks
                &&& qs[level(self.ticks, pending[w], N as int)]@.contains(w)
                &&& w < usize::MAX - 1
            }
    }

    /// The tick count.
    pub fn ticks(&self) -> (t: u32)
        ensures
            t == self.now(),
    {
        self.ticks
    }

    /// A timer with no waiters at tick 0.
    pub fn new() -> (timer: Self)
        requires
            N >= 1,
        ensures
            timer.wf(),
            timer.now() == 0,
            timer.pending() == Map::<usize, u32>::empty(),
            forall|r: int| 0 <= r < N ==> #[trigger] timer.level_queue(r) == Seq::<usize>::empty(),
    {
        let mut timers: Vec<QueueRef> = Vec::new();
        let mut len: Vec<u32> = Vec::new();
        let mut i: usize = 0;
        while i < N
            invariant
                i <= N,
                timers@.len() == i,
                len@.len() == i,
                forall|r: int| 0 <= r < i ==> (#[trigger] timers@[r]).wf() && timers@[r]@ == Seq::<usize>::empty(),
                forall|r: int| 0 <= r < i ==> #[trigger] len@[r] == 0,
            decreases N - i,
        {
            timers.push(QueueRef::new());
            len.push(0);
            i = i + 1;
        }
        PerCpuTimer { timers, len, ticks: 0, blocks: Vec::new(), pending: Ghost(Map::empty()) }
    }

    /// Empties every level and resets its length, dropping the waiters;
    /// the tick count is kept.
    pub fn init(&mut self)
        requires
            old(self).wf(),
        ensures
            final(self).wf(),
            final(self).now() == old(self).now(),
            final(self).pending() == Map::<usize, u32>::empty(),
            forall|r: int| 0 <= r < N ==> #[trigger] final(self).level_queue(r) == Seq::<usize>::empty(),
    {
        let mut i: usize = 0;
        while i < N
            invariant
                i <= N,
                N >= 1,
                self.timers@.len() == N,
                self.len@.len() == N,
                self.ticks == old(self).ticks,
                forall|r: int| 0 <= r < i ==> (#[trigger] self.timers@[r]).wf() && self.timers@[r]@ == Seq::<usize>::empty(),
                forall|r: int| 0 <= r < i ==> #[trigger] self.len@[r] == 0,
            decreases N - i,
        {
            self.timers[i].init();
            self.len.set(i, 0);
            i = i + 1;
        }
        self.pending = Ghost(Map::empty());
    }

    /// Registers waiter `subs` to expire `delay` ticks from now.
    #[verifier::spinoff_prover]
    #[verifier::rlimit(40)]
    pub fn subscribe(&mut self, delay: u32, subs: usize)
        requires
            old(self).wf(),
            delay > 0,
            old(self).now() + delay <= u32::MAX,
            !old(self).pending().contains_key(subs),
            subs < usize::MAX - 1,
            old(self).pending().dom().len() + 1 < u32::MAX,
        ensures
            final(self).wf(),
            final(self).now() == old(self).now(),
            final(self).pending() == old(self).pending().insert(subs, (old(self).now() + delay) as u32),
            appended(*old(self), *final(self), (old(self).now() + delay) as u32, subs),
    {
        let ticks = self.ticks;
        let timeout = ticks + delay;
        let q = Self::diff_msb(ticks, timeout);
        while self.blocks.len() <= subs
            invariant
                self.wf(),
                self.timers == old(self).timers,
                self.len == old(self).len,
                self.ticks == old(self).ticks,
                self.pending == old(self).pending,
                subs < usize::MAX - 1,
            decreases subs + 1 - self.blocks@.len(),
        {
            self.blocks.push(TWaitBlock { timeout: 0 });
        }
        self.blocks.set(subs, TWaitBlock { timeout });
        let ghost qs0 = self.timers@;
        proof {
            let pending = self.pending@;
            qs0[q as int].lemma_unique();
            assert forall|w: usize| qs0[q as int]@.to_set().contains(w) implies pending.dom().contains(w) by {
                let j = choose|j: int| 0 <= j < qs0[q as int]@.len() && #[trigger] qs0[q as int]@[j] == w;
                assert(placed(pending, ticks, qs0[q as int]@[j], q as int, N as int));
            }
            qs0[q as int]@.unique_seq_to_set();
            vstd::set_lib::lemma_len_subset(qs0[q as int]@.to_set(), pending.dom());
            assert(!qs0[q as int]@.contains(subs)) by {
                if qs0[q as int]@.contains(subs) {
                    let j = choose|j: int| 0 <= j < qs0[q as int]@.len() && #[trigger] qs0[q as int]@[j] == subs;
                    assert(placed(pending, ticks, qs0[q as int]@[j], q as int, N as int));
                }
            }
        }
        self.timers[q].enqueue(&subs);
        let l = self.len[q];
        self.len.set(q, l + 1);
        proof {
            let p0 = self.pending@;
            let p1 = p0.insert(subs, timeout);
            self.pending@ = p1;
            let qs = self.timers@;
            assert(forall|r: int| 0 <= r < N && r != q ==> qs[r] == qs0[r]);
            assert forall|r: int, j: int|
                0 <= r < N && 0 <= j < qs[r]@.len() implies placed(p1, ticks, #[trigger] qs[r]@[j], r, N as int) by {
                if r == q && j == qs0[r]@.len() {
                    assert(qs[r]@[j] == subs);
                } else {
                    if r == q {
                        assert(qs[r]@[j] == qs0[r]@[j]);
                    }
                    assert(placed(p0, ticks, qs0[r]@[j], r, N as int));
                }
            }
            assert forall|w: usize| #[trigger] p1.contains_key(w) implies {
                &&& w < self.blocks@.len()
                &&& self.blocks@[w as int].timeout == p1[w]
                &&& p1[w] > self.ticks
                &&& qs[level(self.ticks, p1[w], N as int)]@.contains(w)
                &&& w < usize::MAX - 1
            } by {
                if w == subs {
                    assert(qs[q as int]@[qs0[q as int]@.len() as int] == subs);
                } else {
                    assert(p0.contains_key(w));
                    let r = level(ticks, p0[w], N as int);
                    assert(qs0[r]@.contains(w));
                    if r == q {
                        let j = choose|j: int| 0 <= j < qs0[r]@.len() && #[trigger] qs0[r]@[j] == w;
                        assert(qs[r]@[j] == w);
                    }
                }
            }
        }
    }

    /// One tick: the tick count advances by one and every waiter whose
    /// deadline is the new count is returned, each once; the other waiters
    /// keep waiting.
    #[verifier::spinoff_prover]
    #[verifier::rlimit(40)]
    pub fn tick(&mut self) -> (fired: Vec<usize>)
        requires
            old(self).wf(),
            old(self).now() < u32::MAX,
        ensures
            final(self).wf(),
            final(self).now() == old(self).now() + 1,
            fired@.no_duplicates(),
            forall|w: usize|
                #[trigger] fired@.contains(w) <==> old(self).pending().contains_key(w) && old(self).pending()[w]
                    == final(self).now(),
            forall|w: usize|
                #[trigger] final(self).pending().contains_key(w) <==> old(self).pending().contains_key(w)
                    && old(self).pending()[w] != final(self).now(),
            forall|w: usize|
                #[trigger] final(self).pending().contains_key(w) ==> final(self).pending()[w] == old(self).pending()[w],
            fired@.to_set() == due(old(self).pending(), final(self).now()),
            final(self).pending() == after_tick(old(self).pending(), final(self).now()),
            ticked(*old(self), *final(self), fired@),
    {
        let ghost before = *self;
        let old_ticks = self.ticks;
        let new_ticks = old_ticks + 1;
        let q = Self::diff_msb(old_ticks, new_ticks);
        let len = self.len[q];
        let ghost p = self.timers@[q as int]@;
        let ghost pending0 = self.pending@;
        let ghost blocks0 = self.blocks@;
        self.len.set(q, 0);
        self.ticks = new_ticks;
        let mut fired: Vec<usize> = Vec::new();
        proof {
            Self::lemma_tick_start(*self, *old(self), q as int);
            lemma_order_start(*self, before, q as int, new_ticks);
        }
        let mut i: u32 = 0;
        while i < len
            invariant
                tick_inv(*self, blocks0, pending0, p, fired@, i as int, q as int, old_ticks),
                order_inv(*self, before, p, fired@, i as int, q as int, new_ticks),
                before == *old(self),
                pending0 == before.pending@,
                p == before.timers@[q as int]@,
                len == p.len(),
                new_ticks == old_ticks + 1,
            decreases len - i,
        {
            let ghost s0 = *self;
            let ghost fired0 = fired@;
            let wait_blk = self.timers[q].dequeue().unwrap();
            proof {
                assert(s0.timers@[q as int]@[0] == p[i as int]);
                assert(placed(pending0, old_ticks, p[i as int], q as int, N as int));
            }
            let tout = self.blocks[wait_blk].timeout;
            proof {
                lemma_tick_level(old_ticks, tout, N as int);
            }
            if tout == new_ticks {
                fired.push(wait_blk);
                proof {
                    self.pending@ = self.pending@.remove(wait_blk);
                    Self::lemma_tick_fire(s0, *self, blocks0, pending0, p, fired0, fired@, i as int, q as int, old_ticks);
                    lemma_order_fire(s0, *self, before, p, fired0, fired@, i as int, q as int, new_ticks);
                }
            } else {
                let qnext = Self::diff_msb(tout, new_ticks);
                let ghost mid = self.timers@;
                proof {
                    Self::lemma_tick_room(s0, mid, blocks0, pending0, p, fired@, i as int, q as int, old_ticks, qnext as int);
                }
                self.timers[qnext].enqueue(&wait_blk);
                let l = self.len[qnext];
                self.len.set(qnext, l + 1);
                proof {
                    Self::lemma_tick_move(s0, *self, mid, blocks0, pending0, p, fired@, i as int, q as int, old_ticks, qnext as int);
                    lemma_order_move(s0, *self, mid, before, p, fired@, i as int, q as int, new_ticks, qnext as int);
                }
            }
            i = i + 1;
        }
        proof {
            Self::lemma_tick_finish(*self, *old(self), blocks0, pending0, p, fired@, q as int, old_ticks);
            assert(fired@.to_set() =~= due(pending0, new_ticks));
            assert(self.pending@ =~= after_tick(pending0, new_ticks));
            assert(p.subrange(0, p.len() as int) =~= p);
            assert(p.subrange(p.len() as int, p.len() as int) =~= Seq::<usize>::empty());
            assert forall|r: int| 0 <= r < N implies #[trigger] self.level_queue(r) == (if r == q {
                Seq::<usize>::empty()
            } else {
                before.level_queue(r)
            }) + p.filter(moves_to(pending0, new_ticks, r, N as int)) by {
                if r == q {
                    assert(self.level_queue(r) =~= Seq::<usize>::empty() + p.filter(moves_to(pending0, new_ticks, r, N as int)));
                }
            }
        }
        fired
    }

    /// The loop invariant of `tick` holds once the tick count has advanced
    /// and the length of the processed level has been reset.
    #[verifier::spinoff_prover]
    #[verifier::rlimit(40)]
    proof fn lemma_tick_start(s: Self, old: Self, q: int)
        requires
            old.wf(),
            old.ticks < u32::MAX,
            q == level(old.ticks, (old.ticks + 1) as u32, N as int),
            s.ticks == old.ticks + 1,
            s.timers == old.timers,
            s.len@ == old.len@.update(q, 0),
            s.blocks == old.blocks,
            s.pending == old.pending,
        ensures
            tick_inv(s, old.blocks@, old.pending@, old.timers@[q]@, Seq::empty(), 0, q, old.ticks),
    {
        let t = old.ticks;
        let u = (t + 1) as u32;
        let qs = s.timers@;
        let p = qs[q]@;
        let n = N as int;
        let pending0 = old.pending@;
        assert(0 <= q < N) by {
            assert(t ^ u != 0) by (bit_vector)
                requires
                    u == t + 1,
            ;
        }
        qs[q].lemma_unique();
        assert(p.subrange(0, p.len() as int) =~= p);
        assert forall|r: int, j: int|
            0 <= r < N && 0 <= j < qs[r]@.len() && (r != q || j >= p.len()) implies placed(
            pending0,
            u,
            #[trigger] qs[r]@[j],
            r,
            n,
        ) && !p.subrange(0, p.len() as int).contains(qs[r]@[j]) by {
            let w = qs[r]@[j];
            assert(placed(pending0, t, w, r, n));
            lemma_tick_level(t, pending0[w], n);
            if p.contains(w) {
                let k = choose|k: int| 0 <= k < p.len() && #[trigger] p[k] == w;
                assert(placed(pending0, t, p[k], q, n));
            }
        }
        assert forall|w: usize| #[trigger] pending0.contains_key(w) implies p.subrange(0, p.len() as int).contains(w)
            || (pending0[w] > u && qs[level(u, pending0[w], n)]@.contains(w)) by {
            let r = level(t, pending0[w], n);
            lemma_tick_level(t, pending0[w], n);
            if r != q {
                assert(qs[r]@.contains(w));
            }
        }
        assert forall|j: int| 0 <= j < p.len() implies placed(pending0, t, #[trigger] p[j], q, n) by {
        }
    }

    /// Handling an expired waiter keeps the loop invariant of `tick`.
    #[verifier::spinoff_prover]
    #[verifier::rlimit(40)]
    proof fn lemma_tick_fire(
        s0: Self,
        s1: Self,
        blocks0: Seq<TWaitBlock>,
        pending0: Map<usize, u32>,
        p: Seq<usize>,
        fired0: Seq<usize>,
        fired1: Seq<usize>,
        i: int,
        q: int,
        t: u32,
    )
        requires
            tick_inv(s0, blocks0, pending0, p, fired0, i, q, t),
            i < p.len(),
            s1.timers@.len() == s0.timers@.len(),
            s1.timers@[q].wf(),
            s1.timers@[q]@ == s0.timers@[q]@.drop_first(),
            forall|r: int| 0 <= r < N && r != q ==> s1.timers@[r] == s0.timers@[r],
            s1.len == s0.len,
            s1.ticks == s0.ticks,
            s1.blocks == s0.blocks,
            pending0[p[i]] == t + 1,
            s1.pending@ == s0.pending@.remove(p[i]),
            fired1 == fired0.push(p[i]),
        ensures
            tick_inv(s1, blocks0, pending0, p, fired1, i + 1, q, t),
    {
        let u = (t + 1) as u32;
        let n = N as int;
        let cnt = p.len() as int;
        let w = p[i];
        let qs0 = s0.timers@;
        let qs = s1.timers@;
        let pend0 = s0.pending@;
        let pend = s1.pending@;
        assert(qs0[q]@[0] == p[i]);
        assert(p.subrange(i, cnt).contains(w)) by {
            assert(p.subrange(i, cnt)[0] == w);
        }
        assert(!fired0.contains(w)) by {
            if fired0.contains(w) {
                let k = choose|k: int| 0 <= k < i && #[trigger] p.subrange(0, i)[k] == w;
                assert(p[k] == w);
            }
        }
        assert(pend0.contains_key(w)) by {
            assert(placed(pending0, t, p[i], q, n));
        }
        assert forall|r: int| 0 <= r < N implies (#[trigger] qs[r]).wf() by {
            if r != q {
                assert(qs[r] == qs0[r]);
            }
        }
        assert forall|j: int| 0 <= j < cnt - (i + 1) implies #[trigger] qs[q]@[j] == p[(i + 1) + j] by {
            assert(qs[q]@[j] == qs0[q]@[j + 1]);
        }
        assert forall|r: int, j: int|
            0 <= r < N && 0 <= j < qs[r]@.len() && (r != q || j >= cnt - (i + 1)) implies placed(
            pend,
            u,
            #[trigger] qs[r]@[j],
            r,
            n,
        ) && !p.subrange(i + 1, cnt).contains(qs[r]@[j]) by {
            let (r0, j0) = if r == q {
                (r, j + 1)
            } else {
                (r, j)
            };
            assert(qs[r]@[j] == qs0[r0]@[j0]);
            assert(placed(pend0, u, qs0[r0]@[j0], r0, n) && !p.subrange(i, cnt).contains(qs0[r0]@[j0]));
            assert(qs[r]@[j] != w);
            if p.subrange(i + 1, cnt).contains(qs[r]@[j]) {
                let k = choose|k: int| 0 <= k < cnt - (i + 1) && #[trigger] p.subrange(i + 1, cnt)[k] == qs[r]@[j];
                assert(p.subrange(i, cnt)[k + 1] == qs[r]@[j]);
            }
        }
        assert forall|x: usize| #[trigger] fired1.contains(x) <==> pending0.contains_key(x) && !pend.contains_key(x) by {
            if x == w {
                assert(fired1[fired0.len() as int] == w);
            } else {
                if fired1.contains(x) {
                    let k = choose|k: int| 0 <= k < fired1.len() && #[trigger] fired1[k] == x;
                    assert(fired0[k] == x);
                }
                if fired0.contains(x) {
                    let k = choose|k: int| 0 <= k < fired0.len() && #[trigger] fired0[k] == x;
                    assert(fired1[k] == x);
                }
            }
        }
        assert forall|x: usize| #[trigger] fired1.contains(x) implies pending0[x] == u && p.subrange(0, i + 1).contains(x) by {
            if x == w {
                assert(p.subrange(0, i + 1)[i] == w);
            } else {
                let k = choose|k: int| 0 <= k < fired1.len() && #[trigger] fired1[k] == x;
                assert(fired0[k] == x);
                assert(fired0.contains(x));
                let m = choose|m: int| 0 <= m < i && #[trigger] p.subrange(0, i)[m] == x;
                assert(p.subrange(0, i + 1)[m] == x);
            }
        }
        assert forall|a: int, b: int| 0 <= a < fired1.len() && 0 <= b < fired1.len() && a != b implies fired1[a]
            != fired1[b] by {
            if a == fired0.len() {
                assert(fired0.contains(fired1[b]));
            } else if b == fired0.len() {
                assert(fired0.contains(fired1[a]));
            }
        }
        assert forall|x: usize| #[trigger] pend.contains_key(x) implies p.subrange(i + 1, cnt).contains(x) || (pend[x]
            > u && qs[level(u, pend[x], n)]@.contains(x)) by {
            assert(pend0.contains_key(x));
            if p.subrange(i, cnt).contains(x) {
                let k = choose|k: int| 0 <= k < cnt - i && #[trigger] p.subrange(i, cnt)[k] == x;
                assert(k != 0);
                assert(p.subrange(i + 1, cnt)[k - 1] == x);
            } else {
                let r = level(u, pend[x], n);
                assert(qs0[r]@.contains(x));
                let j = choose|j: int| 0 <= j < qs0[r]@.len() && #[trigger] qs0[r]@[j] == x;
                if r == q {
                    if j < cnt - i {
                        assert(qs0[q]@[j] == p[i + j]);
                        assert(p.subrange(i, cnt)[j] == x);
                    }
                    assert(qs[q]@[j - 1] == x);
                } else {
                    assert(qs[r] == qs0[r]);
                }
            }
        }
        assert(pend.dom() =~= pend0.dom().remove(w));
    }

    /// Before a waiter that has not expired moves to its new level: it is not
    /// in that queue yet, and the queue's length can grow by one.
    #[verifier::spinoff_prover]
    #[verifier::rlimit(40)]
    proof fn lemma_tick_room(
        s0: Self,
        mid: Seq<QueueRef>,
        blocks0: Seq<TWaitBlock>,
        pending0: Map<usize, u32>,
        p: Seq<usize>,
        fired: Seq<usize>,
        i: int,
        q: int,
        t: u32,
        qnext: int,
    )
        requires
            tick_inv(s0, blocks0, pending0, p, fired, i, q, t),
            i < p.len(),
            mid.len() == s0.timers@.len(),
            mid[q].wf(),
            mid[q]@ == s0.timers@[q]@.drop_first(),
            forall|r: int| 0 <= r < N && r != q ==> mid[r] == s0.timers@[r],
            pending0[p[i]] > t + 1,
            qnext == level(pending0[p[i]], (t + 1) as u32, N as int),
        ensures
            0 <= qnext < N,
            qnext == level((t + 1) as u32, pending0[p[i]], N as int),
            !mid[qnext]@.contains(p[i]),
            s0.len@[qnext] < u32::MAX,
            p[i] < usize::MAX - 1,
    {
        let u = (t + 1) as u32;
        let n = N as int;
        let cnt = p.len() as int;
        let w = p[i];
        let qs0 = s0.timers@;
        let pend0 = s0.pending@;
        let d = pending0[w];
        assert(d ^ u == u ^ d) by (bit_vector);
        assert(qs0[q]@[0] == w);
        assert(p.subrange(i, cnt)[0] == w);
        assert(!fired.contains(w)) by {
            if fired.contains(w) {
                let k = choose|k: int| 0 <= k < i && #[trigger] p.subrange(0, i)[k] == w;
                assert(p[k] == w);
            }
        }
        assert(placed(pending0, t, p[i], q, n));
        assert(pend0.contains_key(w));
        assert(0 <= qnext < N);
        let dom = pend0.dom().remove(w);
        let new_part = if qnext == q {
            qs0[q]@.subrange(cnt - i, qs0[q]@.len() as int)
        } else {
            qs0[qnext]@
        };
        qs0[qnext].lemma_unique();
        assert forall|j: int| 0 <= j < new_part.len() implies dom.contains(#[trigger] new_part[j]) by {
            let jj = if qnext == q {
                j + cnt - i
            } else {
                j
            };
            assert(new_part[j] == qs0[qnext]@[jj]);
            assert(placed(pend0, u, qs0[qnext]@[jj], qnext, n) && !p.subrange(i, cnt).contains(qs0[qnext]@[jj]));
        }
        assert(new_part.no_duplicates());
        lemma_card(new_part, dom);
        assert(!mid[qnext]@.contains(w)) by {
            if mid[qnext]@.contains(w) {
                let j = choose|j: int| 0 <= j < mid[qnext]@.len() && #[trigger] mid[qnext]@[j] == w;
                if qnext == q {
                    assert(qs0[q]@[j + 1] == w);
                    if j + 1 < cnt - i {
                        assert(qs0[q]@[j + 1] == p[i + j + 1]);
                    } else {
                        assert(!p.subrange(i, cnt).contains(qs0[q]@[j + 1]));
                    }
                } else {
                    assert(qs0[qnext]@[j] == w);
                    assert(!p.subrange(i, cnt).contains(qs0[qnext]@[j]));
                }
            }
        }
    }

    /// Moving a waiter that has not expired to its new level keeps the loop
    /// invariant of `tick`.
    #[verifier::spinoff_prover]
    #[verifier::rlimit(40)]
    proof fn lemma_tick_move(
        s0: Self,
        s1: Self,
        mid: Seq<QueueRef>,
        blocks0: Seq<TWaitBlock>,
        pending0: Map<usize, u32>,
        p: Seq<usize>,
        fired: Seq<usize>,
        i: int,
        q: int,
        t: u32,
        qnext: int,
    )
        requires
            tick_inv(s0, blocks0, pending0, p, fired, i, q, t),
            i < p.len(),
            mid.len() == s0.timers@.len(),
            mid[q].wf(),
            mid[q]@ == s0.timers@[q]@.drop_first(),
            forall|r: int| 0 <= r < N && r != q ==> mid[r] == s0.timers@[r],
            pending0[p[i]] > t + 1,
            0 <= qnext < N,
            qnext == level((t + 1) as u32, pending0[p[i]], N as int),
            s1.timers@.len() == mid.len(),
            s1.timers@[qnext].wf(),
            s1.timers@[qnext]@ == mid[qnext]@.push(p[i]),
            forall|r: int| 0 <= r < N && r != qnext ==> s1.timers@[r] == mid[r],
            s0.len@[qnext] < u32::MAX,
            s1.len@ == s0.len@.update(qnext, (s0.len@[qnext] + 1) as u32),
            s1.ticks == s0.ticks,
            s1.blocks == s0.blocks,
            s1.pending == s0.pending,
        ensures
            tick_inv(s1, blocks0, pending0, p, fired, i + 1, q, t),
    {
        let u = (t + 1) as u32;
        let n = N as int;
        let cnt = p.len() as int;
        let w = p[i];
        let qs0 = s0.timers@;
        let qs = s1.timers@;
        let pend = s0.pending@;
        assert(qs0[q]@[0] == w);
        assert(p.subrange(i, cnt)[0] == w);
        assert(!fired.contains(w)) by {
            if fired.contains(w) {
                let k = choose|k: int| 0 <= k < i && #[trigger] p.subrange(0, i)[k] == w;
                assert(p[k] == w);
            }
        }
        assert(placed(pending0, t, p[i], q, n));
        assert(pend.contains_key(w) && pend[w] == pending0[w]);
        assert forall|r: int| 0 <= r < N implies (#[trigger] qs[r]).wf() by {
            if r != qnext {
                assert(qs[r] == mid[r]);
                if r != q {
                    assert(mid[r] == qs0[r]);
                }
            }
        }
        assert forall|r: int| 0 <= r < N && r != q implies #[trigger] s1.len@[r] == qs[r]@.len() by {
            assert(mid[r] == qs0[r]);
            if r != qnext {
                assert(qs[r] == mid[r]);
            }
        }
        assert forall|j: int| 0 <= j < cnt - (i + 1) implies #[trigger] qs[q]@[j] == p[(i + 1) + j] by {
            assert(qs[q]@[j] == qs0[q]@[j + 1]);
        }
        assert forall|r: int, j: int|
            0 <= r < N && 0 <= j < qs[r]@.len() && (r != q || j >= cnt - (i + 1)) implies placed(
            pend,
            u,
            #[trigger] qs[r]@[j],
            r,
            n,
        ) && !p.subrange(i + 1, cnt).contains(qs[r]@[j]) by {
            if r == qnext && j == mid[qnext]@.len() {
                assert(qs[r]@[j] == w);
                if p.subrange(i + 1, cnt).contains(w) {
                    let k = choose|k: int| 0 <= k < cnt - (i + 1) && #[trigger] p.subrange(i + 1, cnt)[k] == w;
                    assert(p[i + 1 + k] == w);
                }
            } else {
                let j0 = if r == q {
                    j + 1
                } else {
                    j
                };
                if r != qnext {
                    assert(qs[r] == mid[r]);
                }
                assert(qs[r]@[j] == mid[r]@[j]);
                if r != q {
                    assert(mid[r] == qs0[r]);
                }
                assert(mid[r]@[j] == qs0[r]@[j0]);
                assert(placed(pend, u, qs0[r]@[j0], r, n) && !p.subrange(i, cnt).contains(qs0[r]@[j0]));
                if p.subrange(i + 1, cnt).contains(qs[r]@[j]) {
                    let k = choose|k: int| 0 <= k < cnt - (i + 1) && #[trigger] p.subrange(i + 1, cnt)[k] == qs[r]@[j];
                    assert(p.subrange(i, cnt)[k + 1] == qs[r]@[j]);
                }
            }
        }
        assert forall|x: usize| #[trigger] fired.contains(x) implies pending0[x] == u && p.subrange(0, i + 1).contains(x) by {
            let m = choose|m: int| 0 <= m < i && #[trigger] p.subrange(0, i)[m] == x;
            assert(p.subrange(0, i + 1)[m] == x);
        }
        assert forall|x: usize| #[trigger] pend.contains_key(x) implies p.subrange(i + 1, cnt).contains(x) || (pend[x]
            > u && qs[level(u, pend[x], n)]@.contains(x)) by {
            if x == w {
                assert(qs[qnext]@[mid[qnext]@.len() as int] == w);
            } else if p.subrange(i, cnt).contains(x) {
                let k = choose|k: int| 0 <= k < cnt - i && #[trigger] p.subrange(i, cnt)[k] == x;
                assert(k != 0);
                assert(p.subrange(i + 1, cnt)[k - 1] == x);
            } else {
                let r = level(u, pend[x], n);
                assert(qs0[r]@.contains(x));
                let j = choose|j: int| 0 <= j < qs0[r]@.len() && #[trigger] qs0[r]@[j] == x;
                let j1 = if r == q {
                    if j < cnt - i {
                        assert(qs0[q]@[j] == p[i + j]);
                        assert(p.subrange(i, cnt)[j] == x);
                    }
                    j - 1
                } else {
                    j
                };
                assert(mid[r]@[j1] == x);
                assert(qs[r]@[j1] == x);
            }
        }
    }

    /// Once every waiter of the processed level has been handled, the timer
    /// is consistent again and exactly the waiters due now have fired.
    #[verifier::spinoff_prover]
    #[verifier::rlimit(40)]
    proof fn lemma_tick_finish(
        s: Self,
        old: Self,
        blocks0: Seq<TWaitBlock>,
        pending0: Map<usize, u32>,
        p: Seq<usize>,
        fired: Seq<usize>,
        q: int,
        t: u32,
    )
        requires
            old.wf(),
            t == old.ticks,
            q == level(t, (t + 1) as u32, N as int),
            p == old.timers@[q]@,
            pending0 == old.pending@,
            blocks0 == old.blocks@,
            tick_inv(s, blocks0, pending0, p, fired, p.len() as int, q, t),
        ensures
            s.wf(),
            s.ticks == t + 1,
            fired.no_duplicates(),
            forall|w: usize| #[trigger] fired.contains(w) <==> pending0.contains_key(w) && pending0[w] == t + 1,
            forall|w: usize| #[trigger] s.pending@.contains_key(w) <==> pending0.contains_key(w) && pending0[w] != t + 1,
            forall|w: usize| #[trigger] s.pending@.contains_key(w) ==> s.pending@[w] == pending0[w],
    {
        let u = (t + 1) as u32;
        let n = N as int;
        let cnt = p.len() as int;
        let qs = s.timers@;
        let pend = s.pending@;
        assert(p.subrange(cnt, cnt) =~= Seq::<usize>::empty());
        assert forall|r: int| 0 <= r < N implies (#[trigger] qs[r]).wf() && s.len@[r] == qs[r]@.len() by {
        }
        assert forall|w: usize| #[trigger] pend.contains_key(w) implies {
            &&& w < s.blocks@.len()
            &&& s.blocks@[w as int].timeout == pend[w]
            &&& pend[w] > s.ticks
            &&& qs[level(s.ticks, pend[w], n)]@.contains(w)
            &&& w < usize::MAX - 1
        } by {
            assert(pending0.contains_key(w));
        }
        assert forall|w: usize| #[trigger] fired.contains(w) <==> pending0.contains_key(w) && pending0[w] == u by {
            if pending0.contains_key(w) && pending0[w] == u {
                lemma_tick_level(t, pending0[w], n);
                assert(old.timers@[level(t, pending0[w], n)]@.contains(w));
                if pend.contains_key(w) {
                    assert(pend[w] > u);
                }
            }
        }
        assert forall|w: usize| #[trigger] pend.contains_key(w) <==> pending0.contains_key(w) && pending0[w] != u by {
            if pend.contains_key(w) {
                assert(pend[w] > u);
            }
            if pending0.contains_key(w) && !pend.contains_key(w) {
                assert(fired.contains(w));
            }
        }
    }

    /// Level of `y` seen from `x`: the top bit in which they differ, capped
    /// at `N - 1`.
    pub fn diff_msb(x: u32, y: u32) -> (r: usize)
        requires
            x != y,
            N >= 1,
        ensures
            r == level(x, y, N as int),
            r < N,
    {
        let v = x ^ y;
        assert(v != 0) by (bit_vector)
            requires
                x != y,
                v == x ^ y,
        ;
        proof {
            lemma_leading_zeros_msb(v);
        }
        let msb = 31 - v.leading_zeros();
        if (msb as usize) < N - 1 {
            msb as usize
        } else {
            N - 1
        }
    }
}

} // verus!

verus! {

/// The tick sources of all CPUs; each CPU ticks its own timer.
pub struct Timer<const N: usize, const NCPUS: usize> {
    per_cpu_data: Vec<PerCpuTimer<N>>,
}

impl<const N: usize, const NCPUS: usize> Timer<N, NCPUS> {
    /// The timer of CPU `cpu`.
    pub closed spec fn cpu_timer(&self, cpu: int) -> PerCpuTimer<N> {
        self.per_cpu_data@[cpu]
    }

    pub closed spec fn wf(&self) -> bool {
        &&& NCPUS >= 1
        &&& self.per_cpu_data@.len() == NCPUS
        &&& forall|c: int| 0 <= c < NCPUS ==> (#[trigger] self.per_cpu_data@[c]).wf()
    }

    pub fn new() -> (timer: Self)
        requires
            N >= 1,
            NCPUS >= 1,
        ensures
            timer.wf(),
            forall|c: int|
                0 <= c < NCPUS ==> (#[trigger] timer.cpu_timer(c)).now() == 0 && timer.cpu_timer(c).pending()
                    == Map::<usize, u32>::empty(),
            forall|c: int, r: int|
                0 <= c < NCPUS && 0 <= r < N ==> #[trigger] timer.cpu_timer(c).level_queue(r) == Seq::<usize>::empty(),
    {
        let mut per_cpu_data: Vec<PerCpuTimer<N>> = Vec::new();
        let mut i: usize = 0;
        while i < NCPUS
            invariant
                i <= NCPUS,
                N >= 1,
                per_cpu_data@.len() == i,
                forall|c: int|
                    0 <= c < i ==> (#[trigger] per_cpu_data@[c]).wf() && per_cpu_data@[c].now() == 0
                        && per_cpu_data@[c].pending() == Map::<usize, u32>::empty(),
                forall|c: int, r: int|
                    0 <= c < i && 0 <= r < N ==> #[trigger] per_cpu_data@[c].level_queue(r) == Seq::<usize>::empty(),
            decreases NCPUS - i,
        {
            per_cpu_data.push(PerCpuTimer::new());
            i = i + 1;
        }
        Timer { per_cpu_data }
    }

    /// The timer of every CPU is well formed, so the laws of `PerCpuTimer`
    /// apply to each.
    pub proof fn law_cpu_timers(&self)
        requires
            self.wf(),
        ensures
            forall|c: int| 0 <= c < NCPUS ==> (#[trigger] self.cpu_timer(c)).wf(),
    {
    }

    /// The tick count of CPU `cpu`.
    pub fn ticks_of(&self, cpu: usize) -> (t: u32)
        requires
            self.wf(),
            cpu < NCPUS,
        ensures
            t == self.cpu_timer(cpu as int).now(),
    {
        self.per_cpu_data[cpu].ticks()
    }

    /// Empties the timers of every CPU, dropping their waiters.
    pub fn init(&mut self)
        requires
            old(self).wf(),
        ensures
            final(self).wf(),
            forall|c: int|
                0 <= c < NCPUS ==> (#[trigger] final(self).cpu_timer(c)).now() == old(self).cpu_timer(c).now()
                    && final(self).cpu_timer(c).pending() == Map::<usize, u32>::empty(),
            forall|c: int, r: int|
                0 <= c < NCPUS && 0 <= r < N ==> #[trigger] final(self).cpu_timer(c).level_queue(r) == Seq::<usize>::empty(),
    {
        let mut cpu: usize = 0;
        while cpu < NCPUS
            invariant
                cpu <= NCPUS,
                NCPUS >= 1,
                self.per_cpu_data@.len() == NCPUS,
                forall|c: int| 0 <= c < NCPUS ==> (#[trigger] self.per_cpu_data@[c]).wf(),
                forall|c: int|
                    0 <= c < NCPUS ==> (#[trigger] self.per_cpu_data@[c]).now() == old(self).per_cpu_data@[c].now(),
                forall|c: int|
                    0 <= c < cpu ==> (#[trigger] self.per_cpu_data@[c]).pending() == Map::<usize, u32>::empty(),
                forall|c: int, r: int|
                    0 <= c < cpu && 0 <= r < N ==> #[trigger] self.per_cpu_data@[c].level_queue(r) == Seq::<usize>::empty(),
            decreases NCPUS - cpu,
        {
            self.per_cpu_data[cpu].init();
            cpu = cpu + 1;
        }
    }

    /// One tick of the calling CPU's timer; returns the waiters that expire.
    pub fn tick(&mut self) -> (fired: Vec<usize>)
        requires
            old(self).wf(),
            old(self).cpu_timer(0).now() < u32::MAX,
        ensures
            final(self).wf(),
            final(self).cpu_timer(0).now() == old(self).cpu_timer(0).now() + 1,
            forall|c: int| 0 < c < NCPUS ==> #[trigger] final(self).cpu_timer(c) == old(self).cpu_timer(c),
            fired@.no_duplicates(),
            fired@.to_set() == due(old(self).cpu_timer(0).pending(), final(self).cpu_timer(0).now()),
            final(self).cpu_timer(0).pending() == after_tick(old(self).cpu_timer(0).pending(), final(self).cpu_timer(0).now()),
            ticked(old(self).cpu_timer(0), final(self).cpu_timer(0), fired@),
    {
        let this_cpu = cpu_this();
        self.per_cpu_data[this_cpu as usize].tick()
    }
}

/// What a poll of a sleeping task decides.
pub enum TimeoutPoll {
    /// The sleep is over.
    Ready,
    /// The task waits for its timer to expire.
    Pending,
    /// The task waits, and its waker must be called at once (zero delay).
    WakeNow,
}

/// The sleep of one task: the waiter that stands for it, the CPU whose timer
/// it uses, and the delay still to be registered (taken by the first poll).
pub struct TimeoutFuture {
    pub wb: usize,
    pub cpu: usize,
    pub delay: Option<u32>,
}

impl TimeoutFuture {
    /// A sleep of `t` ticks on the calling CPU for waiter `wb`.
    pub fn new(wb: usize, t: u32) -> (f: TimeoutFuture)
        ensures
            f.wb == wb,
            f.cpu == 0,
            f.delay == Some(t),
    {
        TimeoutFuture { wb, cpu: cpu_this() as usize, delay: Some(t) }
    }

    /// First poll: a nonzero delay registers the waiter and waits, a zero
    /// delay asks for an immediate wake-up; any later poll finds the sleep
    /// over.
    pub fn poll<const N: usize, const NCPUS: usize>(&mut self, timer: &mut Timer<N, NCPUS>) -> (r: TimeoutPoll)
        requires
            old(timer).wf(),
            old(self).cpu < NCPUS,
            old(self).delay is Some && old(self).delay->0 != 0 ==> {
                let t = old(timer).cpu_timer(old(self).cpu as int);
                &&& t.now() + old(self).delay->0 <= u32::MAX
                &&& !t.pending().contains_key(old(self).wb)
                &&& old(self).wb < usize::MAX - 1
                &&& t.pending().dom().len() + 1 < u32::MAX
            },
        ensures
            final(timer).wf(),
            final(self).wb == old(self).wb,
            final(self).cpu == old(self).cpu,
            final(self).delay is None,
            old(self).delay is None ==> r is Ready && *final(timer) == *old(timer),
            old(self).delay == Some(0u32) ==> r is WakeNow && *final(timer) == *old(timer),
            old(self).delay is Some && old(self).delay->0 != 0 ==> {
                let c = old(self).cpu as int;
                let d = old(self).delay->0;
                &&& r is Pending
                &&& final(timer).cpu_timer(c).now() == old(timer).cpu_timer(c).now()
                &&& final(timer).cpu_timer(c).pending() == old(timer).cpu_timer(c).pending().insert(
                    old(self).wb,
                    (old(timer).cpu_timer(c).now() + d) as u32,
                )
                &&& appended(old(timer).cpu_timer(c), final(timer).cpu_timer(c), (old(timer).cpu_timer(c).now() + d) as u32, old(self).wb)
                &&& forall|o: int| 0 <= o < NCPUS && o != c ==> #[trigger] final(timer).cpu_timer(o) == old(timer).cpu_timer(o)
            },
    {
        match self.delay.take() {
            Some(delay) => {
                if delay != 0 {
                    timer.subscribe_on(self.cpu, delay, self.wb);
                    TimeoutPoll::Pending
                } else {
                    TimeoutPoll::WakeNow
                }
            },
            None => TimeoutPoll::Ready,
        }
    }
}

impl<const N: usize, const NCPUS: usize> Timer<N, NCPUS> {
    /// The sleep of `t` ticks of the task whose waiter is `wb`, on the timer
    /// of the calling CPU; the first poll registers it.
    pub fn sleep_for(&self, wb: usize, t: u32) -> (f: TimeoutFuture)
        ensures
            f.wb == wb,
            f.cpu == 0,
            f.delay == Some(t),
    {
        TimeoutFuture::new(wb, t)
    }

    /// Registers waiter `subs` on the timer of CPU `cpu`, `delay` ticks ahead.
    pub fn subscribe_on(&mut self, cpu: usize, delay: u32, subs: usize)
        requires
            old(self).wf(),
            cpu < NCPUS,
            delay > 0,
            old(self).cpu_timer(cpu as int).now() + delay <= u32::MAX,
            !old(self).cpu_timer(cpu as int).pending().contains_key(subs),
            subs < usize::MAX - 1,
            old(self).cpu_timer(cpu as int).pending().dom().len() + 1 < u32::MAX,
        ensures
            final(self).wf(),
            final(self).cpu_timer(cpu as int).now() == old(self).cpu_timer(cpu as int).now(),
            final(self).cpu_timer(cpu as int).pending() == old(self).cpu_timer(cpu as int).pending().insert(
                subs,
                (old(self).cpu_timer(cpu as int).now() + delay) as u32,
            ),
            appended(
                old(self).cpu_timer(cpu as int),
                final(self).cpu_timer(cpu as int),
                (old(self).cpu_timer(cpu as int).now() + delay) as u32,
                subs,
            ),
            forall|o: int| 0 <= o < NCPUS && o != cpu ==> #[trigger] final(self).cpu_timer(o) == old(self).cpu_timer(o),
    {
        self.per_cpu_data[cpu].subscribe(delay, subs);
    }
}

} // verus!

verus! {

/// Sleeping `d` ticks: a waiter registered at tick count `t` to expire at
/// `t + d` is still pending, with the same deadline, before each of the
/// ticks `t + 1 ..= t + d`; the tick to `t + k` returns it exactly when
/// `k == d`, and afterwards it is no longer pending.
pub proof fn law_sleep_for(pending: Map<usize, u32>, t: u32, w: usize, d: u32, k: nat)
    requires
        pending.contains_key(w),
        pending[w] == t + d,
        1 <= k <= d,
    ensures
        elapse(pending, t as int, (k - 1) as nat).contains_key(w),
        elapse(pending, t as int, (k - 1) as nat)[w] == pending[w],
        due(elapse(pending, t as int, (k - 1) as nat), (t + k) as u32).contains(w) <==> k == d,
        k == d ==> !elapse(pending, t as int, k).contains_key(w),
    decreases k,
{
    if k > 1 {
        law_sleep_for(pending, t, w, d, (k - 1) as nat);
    }
}

impl<const N: usize> PerCpuTimer<N> {
    /// No waiter is overdue: every pending deadline lies after the current
    /// tick count.
    pub proof fn law_deadlines_ahead(&self)
        requires
            self.wf(),
        ensures
            forall|w: usize| #[trigger] self.pending().contains_key(w) ==> self.pending()[w] > self.now(),
    {
    }

    /// Every waiter sits in exactly the level of the highest bit in which
    /// its deadline differs from the tick count (capped at the last level),
    /// once: the levels hold the pending waiters and nothing else.
    pub proof fn law_levels(&self)
        requires
            self.wf(),
        ensures
            forall|r: int, j: int|
                0 <= r < N && 0 <= j < self.level_queue(r).len() ==> placed(
                    self.pending(),
                    self.now(),
                    #[trigger] self.level_queue(r)[j],
                    r,
                    N as int,
                ),
            forall|r: int| 0 <= r < N ==> (#[trigger] self.level_queue(r)).no_duplicates(),
            forall|w: usize|
                #[trigger] self.pending().contains_key(w) ==> self.level_queue(level(self.now(), self.pending()[w], N as int)).contains(w),
    {
        assert forall|r: int| 0 <= r < N implies (#[trigger] self.level_queue(r)).no_duplicates() by {
            self.timers@[r].lemma_unique();
        }
    }
}

} // verus!
