//! Doubly-linked circular FIFO queues.
//!
//! Every queue keeps a table of link records. Slot 0 is the root (the
//! sentinel of the circular list); the object with identifier `x` owns slot
//! `x + 1`. A linked slot knows its predecessor and its successor and which
//! object it holds, exactly as the link record embedded in a queued object.
use vstd::prelude::*;

verus! {

/// Link record: the previous and the next slot of the circular list, and the
/// object that the record holds while it is linked.
pub struct Node {
    links: (usize, usize),
    payload: Option<usize>,
}

impl View for Node {
    type V = (usize, usize, Option<usize>);

    closed spec fn view(&self) -> (usize, usize, Option<usize>) {
        (self.links.0, self.links.1, self.payload)
    }
}

impl Node {
    /// An unlinked record.
    pub fn new() -> (node: Node)
        ensures
            node@ == (0usize, 0usize, None::<usize>),
    {
        Node { links: (0, 0), payload: None }
    }

    /// Replaces the successor, keeping the predecessor and the payload.
    fn set_next(&mut self, new_next: usize)
        ensures
            final(self).links == (old(self).links.0, new_next),
            final(self).payload == old(self).payload,
    {
        let (prev, _) = self.links;
        self.links = (prev, new_next);
    }

    /// Replaces the predecessor, keeping the successor and the payload.
    fn set_prev(&mut self, new_prev: usize)
        ensures
            final(self).links == (new_prev, old(self).links.1),
            final(self).payload == old(self).payload,
    {
        let (_, next) = self.links;
        self.links = (new_prev, next);
    }
}

/// Slot of the element at position `k` of `s`; the root (0) before the first
/// and after the last element.
pub open spec fn slot(s: Seq<usize>, k: int) -> int {
    if 0 <= k < s.len() {
        s[k] + 1
    } else {
        0
    }
}

/// The link records `n` describe the circular list of the objects `s`.
pub closed spec fn links_ok(n: Seq<Node>, s: Seq<usize>) -> bool {
    &&& 1 <= n.len() <= usize::MAX
    &&& n[0].links == (slot(s, s.len() - 1) as usize, slot(s, 0) as usize)
    &&& n[0].payload is None
    &&& forall|k: int| 0 <= k < s.len() ==> #[trigger] s[k] + 1 < n.len()
    &&& forall|k: int|
        0 <= k < s.len() ==> n[#[trigger] s[k] + 1].links == (
            slot(s, k - 1) as usize,
            slot(s, k + 1) as usize,
        ) && n[s[k] + 1].payload == Some(s[k])
    &&& forall|i: int, j: int| 0 <= i < j < s.len() ==> s[i] != s[j]
    &&& forall|x: usize| x + 1 < n.len() && (#[trigger] n[x + 1]).payload is Some ==> s.contains(x)
}

/// An unlinked record added at the end of the table changes nothing.
proof fn lemma_grow(n: Seq<Node>, s: Seq<usize>, fresh: Node)
    requires
        links_ok(n, s),
        fresh.payload is None,
        n.len() < usize::MAX,
    ensures
        links_ok(n.push(fresh), s),
{
    let nd = n.push(fresh);
    assert forall|k: int| 0 <= k < s.len() implies nd[#[trigger] s[k] + 1].links == (
        slot(s, k - 1) as usize,
        slot(s, k + 1) as usize,
    ) && nd[s[k] + 1].payload == Some(s[k]) by {
        assert(s[k] + 1 < n.len());
    }
    assert forall|y: usize| y + 1 < nd.len() && (#[trigger] nd[y + 1]).payload is Some implies s.contains(y) by {
        if y + 1 < n.len() {
            assert(nd[y + 1] == n[y + 1]);
        }
    }
}

/// The records `n2` after `x` was linked behind the tail of `s`: its record
/// points back to the old tail and forward to the root, the root points back
/// to `x`, the old tail (the root itself for an empty list) points forward to
/// `x`; every other record is unchanged.
spec fn append_shape(n: Seq<Node>, s: Seq<usize>, x: usize, n2: Seq<Node>) -> bool {
    let xs = x + 1;
    let prev = slot(s, s.len() - 1);
    &&& n2.len() == n.len()
    &&& n2[xs] == Node { links: (prev as usize, 0usize), payload: Some(x) }
    &&& prev == 0 ==> n2[0] == Node { links: (xs as usize, xs as usize), payload: None }
    &&& prev != 0 ==> n2[0] == Node { links: (xs as usize, n[0].links.1), payload: None }
    &&& prev != 0 ==> n2[prev] == Node { links: (n[prev].links.0, xs as usize), payload: n[prev].payload }
    &&& forall|i: int| 0 <= i < n.len() && i != 0 && i != xs && i != prev ==> #[trigger] n2[i] == n[i]
}

/// The record of the element at position `j` after `x` was appended.
#[verifier::spinoff_prover]
#[verifier::rlimit(40)]
proof fn lemma_append_element(n: Seq<Node>, s: Seq<usize>, x: usize, n2: Seq<Node>, j: int)
    requires
        links_ok(n, s),
        !s.contains(x),
        x + 1 < n.len(),
        append_shape(n, s, x, n2),
        0 <= j < s.len() + 1,
    ensures
        s.push(x)[j] + 1 < n2.len(),
        n2[s.push(x)[j] + 1].links == (slot(s.push(x), j - 1) as usize, slot(s.push(x), j + 1) as usize),
        n2[s.push(x)[j] + 1].payload == Some(s.push(x)[j]),
{
    let len = s.len();
    let s2 = s.push(x);
    let prev = slot(s, len - 1);
    if len > 0 {
        assert(s[len - 1] + 1 < n.len());
    }
    if j < len {
        assert(s2[j] == s[j]);
        assert(s[j] + 1 < n.len());
        assert(s[j] != x);
        assert(slot(s2, j) == slot(s, j));
        if j > 0 {
            assert(slot(s2, j - 1) == slot(s, j - 1));
        }
        if j == len - 1 {
            assert(s[j] + 1 == prev);
            assert(slot(s2, j + 1) == x + 1);
        } else {
            assert(s[j] != s[len - 1]);
            assert(slot(s2, j + 1) == slot(s, j + 1));
            assert(n2[s[j] + 1] == n[s[j] + 1]);
        }
    } else {
        assert(s2[j] == x);
        if len > 0 {
            assert(slot(s2, j - 1) == slot(s, len - 1));
        }
    }
}

/// Linking `x` behind the tail keeps the records consistent.
#[verifier::spinoff_prover]
#[verifier::rlimit(40)]
proof fn lemma_append(n: Seq<Node>, s: Seq<usize>, x: usize, n2: Seq<Node>)
    requires
        links_ok(n, s),
        !s.contains(x),
        x + 1 < n.len(),
        append_shape(n, s, x, n2),
    ensures
        links_ok(n2, s.push(x)),
{
    let len = s.len();
    let s2 = s.push(x);
    let prev = slot(s, len - 1);
    if len > 0 {
        assert(s[len - 1] + 1 < n.len());
        assert(s[0] + 1 < n.len());
        assert(s[len - 1] != x);
        assert(slot(s2, len - 1) == slot(s, len - 1));
        assert(slot(s2, 0) == slot(s, 0));
    }
    assert(slot(s2, len as int) == x + 1);
    assert forall|j: int| 0 <= j < s2.len() implies #[trigger] s2[j] + 1 < n2.len() by {
        lemma_append_element(n, s, x, n2, j);
    }
    assert forall|j: int| 0 <= j < s2.len() implies n2[#[trigger] s2[j] + 1].links == (
        slot(s2, j - 1) as usize,
        slot(s2, j + 1) as usize,
    ) && n2[s2[j] + 1].payload == Some(s2[j]) by {
        lemma_append_element(n, s, x, n2, j);
    }
    assert forall|i: int, j: int| 0 <= i < j < s2.len() implies s2[i] != s2[j] by {
        if j == len {
            assert(s2[i] == s[i]);
            assert(s.contains(s[i]));
        } else {
            assert(s2[i] == s[i] && s2[j] == s[j]);
        }
    }
    assert forall|y: usize| y + 1 < n2.len() && (#[trigger] n2[y + 1]).payload is Some implies s2.contains(y) by {
        if y == x {
            assert(s2[len as int] == x);
        } else {
            if y + 1 != prev {
                assert(n2[y + 1] == n[y + 1]);
            }
            assert(n[y + 1].payload is Some);
            assert(s.contains(y));
            let k = choose|k: int| 0 <= k < s.len() && s[k] == y;
            assert(s2[k] == y);
        }
    }
}

/// The record of `x` after it was removed from the list.
spec fn unlinked_node() -> Node {
    Node { links: (0usize, 0usize), payload: None }
}

/// The records `n2` after the element at position `k` of `s` was taken out
/// of the records `n`: its own record cleared, its neighbours linked to each
/// other, every other record unchanged.
spec fn unlink_shape(n: Seq<Node>, s: Seq<usize>, k: int, n2: Seq<Node>) -> bool {
    let xs = s[k] + 1;
    let prev = slot(s, k - 1);
    let next = slot(s, k + 1);
    &&& n2.len() == n.len()
    &&& n2[xs] == unlinked_node()
    &&& prev == next ==> n2[0] == unlinked_node()
    &&& prev != next ==> n2[prev] == Node {
        links: (n[prev].links.0, next as usize),
        payload: n[prev].payload,
    }
    &&& prev != next ==> n2[next] == Node {
        links: (prev as usize, n[next].links.1),
        payload: n[next].payload,
    }
    &&& forall|i: int| 0 <= i < n.len() && i != xs && i != prev && i != next ==> #[trigger] n2[i] == n[i]
}

/// Facts on the positions around `k`.
proof fn lemma_unlink_positions(n: Seq<Node>, s: Seq<usize>, k: int)
    requires
        links_ok(n, s),
        0 <= k < s.len(),
    ensures
        slot(s, k - 1) < n.len(),
        slot(s, k + 1) < n.len(),
        slot(s, k - 1) != s[k] + 1,
        slot(s, k + 1) != s[k] + 1,
        s[k] + 1 < n.len(),
        slot(s, k - 1) == slot(s, k + 1) ==> slot(s, k - 1) == 0 && s.len() == 1,
        n[s[k] + 1].links == (slot(s, k - 1) as usize, slot(s, k + 1) as usize),
        s.len() > 0 ==> s[s.len() - 1] + 1 < n.len() && s[0] + 1 < n.len(),
{
    let len = s.len();
    assert(s[k] + 1 < n.len());
    if k > 0 {
        assert(s[k - 1] + 1 < n.len());
        assert(s[k - 1] != s[k]);
    }
    if k + 1 < len {
        assert(s[k + 1] + 1 < n.len());
        assert(s[k] != s[k + 1]);
    }
    if k > 0 && k + 1 < len {
        assert(s[k - 1] != s[k + 1]);
    }
    assert(s[len - 1] + 1 < n.len());
    assert(s[0] + 1 < n.len());
}

/// `s2` is `s` without its element at position `k`.
spec fn removed_at(s: Seq<usize>, k: int, s2: Seq<usize>) -> bool {
    &&& s2.len() == s.len() - 1
    &&& forall|j: int| 0 <= j < k ==> #[trigger] s2[j] == s[j]
    &&& forall|j: int| k <= j < s2.len() ==> #[trigger] s2[j] == s[j + 1]
}

/// The root of the shortened list.
#[verifier::spinoff_prover]
#[verifier::rlimit(40)]
proof fn lemma_unlink_root(n: Seq<Node>, s: Seq<usize>, k: int, n2: Seq<Node>, s2: Seq<usize>)
    requires
        links_ok(n, s),
        0 <= k < s.len(),
        unlink_shape(n, s, k, n2),
        removed_at(s, k, s2),
    ensures
        n2[0].links == (slot(s2, s2.len() - 1) as usize, slot(s2, 0) as usize),
        n2[0].payload is None,
{
    lemma_unlink_positions(n, s, k);
    let len = s.len();
    if len == 1 {
    } else if k == 0 {
        assert(slot(s2, s2.len() - 1) == slot(s, len - 1));
        assert(slot(s2, 0) == slot(s, 1));
    } else if k == len - 1 {
        assert(slot(s2, s2.len() - 1) == slot(s, len - 2));
        assert(slot(s2, 0) == slot(s, 0));
    } else {
        assert(slot(s2, s2.len() - 1) == slot(s, len - 1));
        assert(slot(s2, 0) == slot(s, 0));
        assert(n2[0] == n[0]);
    }
}

/// The record of the element at position `j` of the shortened list.
#[verifier::spinoff_prover]
#[verifier::rlimit(40)]
proof fn lemma_unlink_element(n: Seq<Node>, s: Seq<usize>, k: int, n2: Seq<Node>, s2: Seq<usize>, j: int)
    requires
        links_ok(n, s),
        0 <= k < s.len(),
        unlink_shape(n, s, k, n2),
        removed_at(s, k, s2),
        0 <= j < s2.len(),
    ensures
        s2[j] + 1 < n2.len(),
        n2[s2[j] + 1].links == (slot(s2, j - 1) as usize, slot(s2, j + 1) as usize),
        n2[s2[j] + 1].payload == Some(s2[j]),
{
    lemma_unlink_positions(n, s, k);
    let len = s.len();
    let prev = slot(s, k - 1);
    let next = slot(s, k + 1);
    if j < k {
        assert(s2[j] == s[j]);
        assert(s[j] + 1 < n.len());
        assert(s[j] != s[k]);
        assert(slot(s2, j) == slot(s, j));
        if j == k - 1 {
            assert(s[j] + 1 == prev);
            assert(slot(s2, j + 1) == slot(s, k + 1));
            if j > 0 {
                assert(slot(s2, j - 1) == slot(s, j - 1));
            }
        } else {
            assert(s[j] != s[k - 1]);
            if k + 1 < len {
                assert(s[j] != s[k + 1]);
            }
            assert(slot(s2, j + 1) == slot(s, j + 1));
            if j > 0 {
                assert(slot(s2, j - 1) == slot(s, j - 1));
            }
            assert(n2[s[j] + 1] == n[s[j] + 1]);
        }
    } else {
        assert(s2[j] == s[j + 1]);
        assert(s[j + 1] + 1 < n.len());
        assert(s[j + 1] != s[k]);
        if j + 1 < s2.len() {
            assert(slot(s2, j + 1) == slot(s, j + 2));
        }
        if j == k {
            assert(s[j + 1] + 1 == next);
            if j > 0 {
                assert(slot(s2, j - 1) == slot(s, k - 1));
            }
        } else {
            assert(s[j + 1] != s[k + 1]);
            if k > 0 {
                assert(s[j + 1] != s[k - 1]);
            }
            assert(slot(s2, j - 1) == slot(s, j));
            assert(n2[s[j + 1] + 1] == n[s[j + 1] + 1]);
        }
    }
}

/// The records of the elements of the shortened list.
proof fn lemma_unlink_elements(n: Seq<Node>, s: Seq<usize>, k: int, n2: Seq<Node>, s2: Seq<usize>)
    requires
        links_ok(n, s),
        0 <= k < s.len(),
        unlink_shape(n, s, k, n2),
        removed_at(s, k, s2),
    ensures
        forall|j: int| 0 <= j < s2.len() ==> #[trigger] s2[j] + 1 < n2.len(),
        forall|j: int|
            0 <= j < s2.len() ==> n2[#[trigger] s2[j] + 1].links == (
                slot(s2, j - 1) as usize,
                slot(s2, j + 1) as usize,
            ) && n2[s2[j] + 1].payload == Some(s2[j]),
{
    assert forall|j: int| 0 <= j < s2.len() implies #[trigger] s2[j] + 1 < n2.len() by {
        lemma_unlink_element(n, s, k, n2, s2, j);
    }
    assert forall|j: int| 0 <= j < s2.len() implies n2[#[trigger] s2[j] + 1].links == (
        slot(s2, j - 1) as usize,
        slot(s2, j + 1) as usize,
    ) && n2[s2[j] + 1].payload == Some(s2[j]) by {
        lemma_unlink_element(n, s, k, n2, s2, j);
    }
}

/// Membership facts of the shortened list.
#[verifier::spinoff_prover]
#[verifier::rlimit(40)]
proof fn lemma_unlink_members(n: Seq<Node>, s: Seq<usize>, k: int, n2: Seq<Node>, s2: Seq<usize>)
    requires
        links_ok(n, s),
        0 <= k < s.len(),
        unlink_shape(n, s, k, n2),
        removed_at(s, k, s2),
    ensures
        forall|a: int, b: int| 0 <= a < b < s2.len() ==> s2[a] != s2[b],
        forall|y: usize| y + 1 < n2.len() && (#[trigger] n2[y + 1]).payload is Some ==> s2.contains(y),
{
    lemma_unlink_positions(n, s, k);
    let xs = s[k] + 1;
    let prev = slot(s, k - 1);
    let next = slot(s, k + 1);
    assert forall|a: int, b: int| 0 <= a < b < s2.len() implies s2[a] != s2[b] by {
        if b < k {
            assert(s2[a] == s[a] && s2[b] == s[b]);
        } else if a < k {
            assert(s2[a] == s[a] && s2[b] == s[b + 1]);
        } else {
            assert(s2[a] == s[a + 1] && s2[b] == s[b + 1]);
        }
    }
    assert forall|y: usize| y + 1 < n2.len() && (#[trigger] n2[y + 1]).payload is Some implies s2.contains(y) by {
        assert(y + 1 != xs);
        if y + 1 == prev || y + 1 == next {
        } else {
            assert(n2[y + 1] == n[y + 1]);
        }
        assert(n[y + 1].payload is Some);
        assert(s.contains(y));
        let i = choose|i: int| 0 <= i < s.len() && s[i] == y;
        assert(i != k);
        if i < k {
            assert(s2[i] == y);
        } else {
            assert(s2[i - 1] == y);
        }
    }
}

/// Removing the element at position `k` keeps the records consistent.
proof fn lemma_unlink(n: Seq<Node>, s: Seq<usize>, k: int, n2: Seq<Node>)
    requires
        links_ok(n, s),
        0 <= k < s.len(),
        unlink_shape(n, s, k, n2),
    ensures
        links_ok(n2, s.remove(k)),
{
    let s2 = s.remove(k);
    s.remove_ensures(k);
    assert(removed_at(s, k, s2));
    lemma_unlink_root(n, s, k, n2, s2);
    lemma_unlink_elements(n, s, k, n2, s2);
    lemma_unlink_members(n, s, k, n2, s2);
    lemma_unlink_positions(n, s, k);
}

/// Objects that can stand in a queue are named by an identifier, which
/// selects their link record.
pub trait Linkable {
    /// Identifier of the object's link record.
    spec fn link_id(&self) -> usize;

    /// Returns the identifier of the object's link record.
    fn to_links(&self) -> (id: usize)
        ensures
            id == self.link_id(),
    ;
}

/// The circular list itself: a root record and the records of the objects.
pub struct GenericList {
    nodes: Vec<Node>,
    items: Ghost<Seq<usize>>,
}

impl GenericList {
    /// The objects in the list, from head to tail.
    pub closed spec fn view(&self) -> Seq<usize> {
        self.items@
    }

    /// The links of the table describe exactly the sequence of objects.
    pub closed spec fn wf(&self) -> bool {
        links_ok(self.nodes@, self.items@)
    }

    pub fn new() -> (list: GenericList)
        ensures
            list.wf(),
            list@ == Seq::<usize>::empty(),
    {
        let mut nodes: Vec<Node> = Vec::new();
        nodes.push(Node::new());
        GenericList { nodes, items: Ghost(Seq::empty()) }
    }

    /// Makes the root point to itself: the list is empty afterwards.
    pub fn init(&mut self)
        ensures
            final(self).wf(),
            final(self)@ == Seq::<usize>::empty(),
    {
        let mut nodes: Vec<Node> = Vec::new();
        nodes.push(Node::new());
        self.nodes = nodes;
        self.items = Ghost(Seq::empty());
    }

    /// Links the object `x` at the tail.
    #[verifier::spinoff_prover]
    #[verifier::rlimit(40)]
    pub fn append(&mut self, x: usize)
        requires
            old(self).wf(),
            !old(self)@.contains(x),
            x < usize::MAX - 1,
        ensures
            final(self).wf(),
            final(self)@ == old(self)@.push(x),
    {
        let n = x + 1;
        while self.nodes.len() <= n
            invariant
                self.wf(),
                self.items@ == old(self).items@,
                n == x + 1,
                n < usize::MAX,
            decreases n + 1 - self.nodes@.len(),
        {
            proof {
                lemma_grow(self.nodes@, self.items@, Node { links: (0, 0), payload: None });
            }
            self.nodes.push(Node::new());
        }
        let ghost n0 = self.nodes@;
        let (prev, next) = self.nodes[0].links;
        proof {
            let s = self.items@;
            if s.len() > 0 {
                assert(s[s.len() - 1] + 1 < n0.len());
            }
        }
        self.nodes.set(n, Node { links: (prev, 0), payload: Some(x) });
        self.nodes.set(0, Node { links: (n, next), payload: None });
        self.nodes[prev].set_next(n);
        proof {
            let n2 = self.nodes@;
            assert(forall|i: int| 0 <= i < n0.len() && i != 0 && i != n && i != prev ==> #[trigger] n2[i] == n0[i]);
            assert(append_shape(n0, self.items@, x, n2));
            lemma_append(n0, self.items@, x, n2);
            self.items@ = self.items@.push(x);
        }
    }

    /// Takes the object `x` out of the list, if it is linked; returns it.
    #[verifier::spinoff_prover]
    #[verifier::rlimit(40)]
    pub fn unlink(&mut self, x: usize) -> (r: Option<usize>)
        requires
            old(self).wf(),
        ensures
            final(self).wf(),
            old(self)@.contains(x) ==> r == Some(x) && final(self)@ == old(self)@.remove(
                old(self)@.index_of(x),
            ),
            !old(self)@.contains(x) ==> r is None && final(self)@ == old(self)@,
    {
        if x >= self.nodes.len() - 1 {
            proof {
                if self@.contains(x) {
                    let k = choose|k: int| 0 <= k < self.items@.len() && self.items@[k] == x;
                    assert(self.items@[k] + 1 < self.nodes@.len());
                }
            }
            return None;
        }
        let n = x + 1;
        if self.nodes[n].payload.is_none() {
            proof {
                if self@.contains(x) {
                    let k = choose|k: int| 0 <= k < self.items@.len() && self.items@[k] == x;
                    assert(self.nodes@[self.items@[k] + 1].payload == Some(x));
                }
            }
            return None;
        }
        let ghost s = self.items@;
        let ghost k = s.index_of(x);
        let ghost n0 = self.nodes@;
        proof {
            assert(s.contains(x));
            assert(s[k] == x);
        }
        let (prev, next) = self.nodes[n].links;
        proof {
            lemma_unlink_positions(n0, s, k);
        }
        self.nodes.set(n, Node::new());
        self.nodes[prev].set_next(next);
        self.nodes[next].set_prev(prev);
        proof {
            let n2 = self.nodes@;
            assert(n2.len() == n0.len());
            assert(forall|i: int| 0 <= i < n0.len() && i != n && i != prev && i != next ==> #[trigger] n2[i] == n0[i]);
            assert(unlink_shape(n0, s, k, n2));
            lemma_unlink(n0, s, k, n2);
            self.items@ = s.remove(k);
        }
        Some(x)
    }

    /// The objects of a consistent list are pairwise distinct and below
    /// `usize::MAX - 1`.
    pub proof fn lemma_distinct(list: GenericList, i: int, j: int)
        requires
            list.wf(),
            0 <= i < list@.len(),
            0 <= j < list@.len(),
        ensures
            i != j ==> list@[i] != list@[j],
            list@[i] < usize::MAX - 1,
    {
        assert(list.items@[i] + 1 < list.nodes@.len());
    }

    /// Whether object `x` is linked in the list: its record holds it.
    pub fn contains(&self, x: usize) -> (b: bool)
        requires
            self.wf(),
        ensures
            b == self@.contains(x),
    {
        proof {
            if self@.contains(x) {
                let k = choose|k: int| 0 <= k < self.items@.len() && self.items@[k] == x;
                assert(self.items@[k] + 1 < self.nodes@.len());
                assert(self.nodes@[self.items@[k] + 1].payload == Some(x));
            }
        }
        x < self.nodes.len() - 1 && self.nodes[x + 1].payload.is_some()
    }

    /// The object at the head, if any.
    pub fn peek_head(&self) -> (head: Option<usize>)
        requires
            self.wf(),
        ensures
            self@.len() == 0 ==> head is None,
            self@.len() > 0 ==> head == Some(self@[0]),
    {
        let (_, next) = self.nodes[0].links;
        proof {
            if self@.len() > 0 {
                assert(self.items@[0] + 1 < self.nodes@.len());
            }
        }
        if next != 0 {
            Some(next - 1)
        } else {
            None
        }
    }
}

} // verus!

verus! {

/// An identifier names its own link record.
impl Linkable for usize {
    open spec fn link_id(&self) -> usize {
        *self
    }

    fn to_links(&self) -> (id: usize) {
        *self
    }
}

/// A claim on the object with a given identifier, moved from owner to
/// owner; it cannot be copied. Nothing stops `new` from making a second
/// claim on the same identifier: exclusivity rests on the caller. The
/// queues guard only their own part of it: `QueueMut::enqueue` requires
/// that the object is not already queued there.
pub struct Mut {
    id: usize,
}

impl View for Mut {
    type V = usize;

    closed spec fn view(&self) -> usize {
        self.id
    }
}

impl Mut {
    /// A claim on object `id`; the caller is responsible for holding no
    /// other claim on it.
    pub fn new(id: usize) -> (m: Mut)
        ensures
            m@ == id,
    {
        Mut { id }
    }

    /// Identifier of the object.
    pub fn to_id(&self) -> (id: usize)
        ensures
            id == self@,
    {
        self.id
    }

    /// Gives up the wrapper and returns the identifier of the object.
    pub fn release(self) -> (id: usize)
        ensures
            id == self@,
    {
        self.id
    }
}

impl Linkable for Mut {
    open spec fn link_id(&self) -> usize {
        self@
    }

    fn to_links(&self) -> (id: usize) {
        self.id
    }
}

/// FIFO queue of shared objects, named by their identifiers.
pub struct QueueRef {
    list: GenericList,
}

impl QueueRef {
    /// The queued objects from head to tail.
    pub closed spec fn view(&self) -> Seq<usize> {
        self.list@
    }

    pub closed spec fn wf(&self) -> bool {
        self.list.wf()
    }

    /// A queue never holds an object twice, and its identifiers are below
    /// `usize::MAX - 1`.
    pub proof fn lemma_unique(&self)
        requires
            self.wf(),
        ensures
            self@.no_duplicates(),
            forall|j: int| 0 <= j < self@.len() ==> #[trigger] self@[j] < usize::MAX - 1,
    {
        assert forall|i: int, j: int| 0 <= i < self@.len() && 0 <= j < self@.len() && i != j implies self@[i]
            != self@[j] by {
            GenericList::lemma_distinct(self.list, i, j);
        }
        assert forall|j: int| 0 <= j < self@.len() implies #[trigger] self@[j] < usize::MAX - 1 by {
            GenericList::lemma_distinct(self.list, j, j);
        }
    }

    pub fn new() -> (q: QueueRef)
        ensures
            q.wf(),
            q@ == Seq::<usize>::empty(),
    {
        QueueRef { list: GenericList::new() }
    }

    pub fn init(&mut self)
        ensures
            final(self).wf(),
            final(self)@ == Seq::<usize>::empty(),
    {
        self.list.init();
    }

    /// Puts `object` at the tail; returns the identifier of its link record.
    pub fn enqueue<T: Linkable>(&mut self, object: &T) -> (node: usize)
        requires
            old(self).wf(),
            !old(self)@.contains(object.link_id()),
            object.link_id() < usize::MAX - 1,
        ensures
            final(self).wf(),
            final(self)@ == old(self)@.push(object.link_id()),
            node == object.link_id(),
    {
        let node = object.to_links();
        self.list.append(node);
        node
    }

    /// Takes the object at the head, if any.
    pub fn dequeue(&mut self) -> (r: Option<usize>)
        requires
            old(self).wf(),
        ensures
            final(self).wf(),
            old(self)@.len() == 0 ==> r is None && final(self)@ == old(self)@,
            old(self)@.len() > 0 ==> r == Some(old(self)@[0]) && final(self)@ == old(self)@.drop_first(),
    {
        match self.list.peek_head() {
            None => None,
            Some(head) => {
                let ghost s = self.list@;
                proof {
                    assert(s[0] == head);
                    assert(s.contains(head));
                    assert(s.index_of(head) == 0) by {
                        let k = s.index_of(head);
                        assert(s[k] == head);
                        if k != 0 {
                            GenericList::lemma_distinct(self.list, 0, k);
                        }
                    }
                    assert(s.remove(0) =~= s.drop_first());
                }
                self.list.unlink(head)
            },
        }
    }
}

/// FIFO queue of exclusively owned objects: the queue holds the only access.
pub struct QueueMut {
    list: GenericList,
}

impl QueueMut {
    /// The queued objects from head to tail.
    pub closed spec fn view(&self) -> Seq<usize> {
        self.list@
    }

    pub closed spec fn wf(&self) -> bool {
        self.list.wf()
    }

    /// A queue never holds an object twice, and its identifiers are below
    /// `usize::MAX - 1`.
    pub proof fn lemma_unique(&self)
        requires
            self.wf(),
        ensures
            self@.no_duplicates(),
            forall|j: int| 0 <= j < self@.len() ==> #[trigger] self@[j] < usize::MAX - 1,
    {
        assert forall|i: int, j: int| 0 <= i < self@.len() && 0 <= j < self@.len() && i != j implies self@[i]
            != self@[j] by {
            GenericList::lemma_distinct(self.list, i, j);
        }
        assert forall|j: int| 0 <= j < self@.len() implies #[trigger] self@[j] < usize::MAX - 1 by {
            GenericList::lemma_distinct(self.list, j, j);
        }
    }

    pub fn new() -> (q: QueueMut)
        ensures
            q.wf(),
            q@ == Seq::<usize>::empty(),
    {
        QueueMut { list: GenericList::new() }
    }

    pub fn init(&mut self)
        ensures
            final(self).wf(),
            final(self)@ == Seq::<usize>::empty(),
    {
        self.list.init();
    }

    /// Whether object `x` is queued.
    pub fn contains(&self, x: usize) -> (b: bool)
        requires
            self.wf(),
        ensures
            b == self@.contains(x),
    {
        self.list.contains(x)
    }

    /// Puts the object at the tail; the queue takes over the access.
    pub fn enqueue(&mut self, wrapper: Mut) -> (node: usize)
        requires
            old(self).wf(),
            !old(self)@.contains(wrapper@),
            wrapper@ < usize::MAX - 1,
        ensures
            final(self).wf(),
            final(self)@ == old(self)@.push(wrapper@),
            node == wrapper@,
    {
        let object = wrapper.release();
        self.list.append(object);
        object
    }

    /// Takes the object at the head, if any, handing out the access to it.
    pub fn dequeue(&mut self) -> (r: Option<Mut>)
        requires
            old(self).wf(),
        ensures
            final(self).wf(),
            old(self)@.len() == 0 ==> r is None && final(self)@ == old(self)@,
            old(self)@.len() > 0 ==> r is Some && r->0@ == old(self)@[0] && final(self)@
                == old(self)@.drop_first(),
    {
        match self.list.peek_head() {
            None => None,
            Some(head) => {
                let ghost s = self.list@;
                proof {
                    assert(s[0] == head);
                    assert(s.contains(head));
                    assert(s.index_of(head) == 0) by {
                        let k = s.index_of(head);
                        assert(s[k] == head);
                        if k != 0 {
                            GenericList::lemma_distinct(self.list, 0, k);
                        }
                    }
                    assert(s.remove(0) =~= s.drop_first());
                }
                self.list.unlink(head);
                Some(Mut::new(head))
            },
        }
    }
}

} // verus!

verus! {

/// The queue `s` after `n` dequeues (an empty queue stays empty).
pub open spec fn drain(s: Seq<usize>, n: nat) -> Seq<usize>
    decreases n,
{
    if n == 0 || s.len() == 0 {
        s
    } else {
        drain(s.drop_first(), (n - 1) as nat)
    }
}

/// First in, first out: an object enqueued behind the objects `s` comes out
/// after exactly those objects, in their order.
pub proof fn law_fifo(s: Seq<usize>, x: usize, k: nat)
    requires
        k <= s.len(),
    ensures
        drain(s.push(x), k) == drain(s, k).push(x),
        k < s.len() ==> drain(s.push(x), k)[0] == s[k as int],
        drain(s.push(x), s.len())[0] == x,
{
    lemma_drain_index(s, k);
    lemma_drain_index(s.push(x), k);
    lemma_drain_index(s.push(x), s.len());
    assert(s.push(x).subrange(k as int, s.len() + 1int) =~= s.subrange(k as int, s.len() as int).push(x));
}

/// After `k` dequeues the head is the object at position `k`.
proof fn lemma_drain_index(s: Seq<usize>, k: nat)
    requires
        k <= s.len(),
    ensures
        drain(s, k) =~= s.subrange(k as int, s.len() as int),
    decreases k,
{
    if k > 0 {
        lemma_drain_index(s.drop_first(), (k - 1) as nat);
    }
}

} // verus!
