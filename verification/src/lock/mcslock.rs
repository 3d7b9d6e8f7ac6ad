//! MCS queue lock.
//!
//! Each acquirer appends a node of its own to a queue whose `tail` the lock holds, links it
//! behind its predecessor's node, and waits until the predecessor clears its `locked` flag.
//! The holder is the node at the front of the queue; on release it hands the lock to the next
//! node, or empties the queue when nobody waits. Nodes live in an arena and are named by their
//! position in it.

use vstd::prelude::*;

use super::api::RawLock;

verus! {

/// A node of the queue.
#[derive(Debug)]
struct Node {
    locked: bool,
    next: Option<usize>,
}

/// The token of an acquirer: its node.
#[derive(Debug)]
pub struct Token(usize);

impl Token {
    /// The acquirer's node.
    pub closed spec fn node(&self) -> usize {
        self.0
    }
}

/// MCS lock.
pub struct McsLock {
    nodes: Vec<Node>,
    tail: Option<usize>,
    /// The nodes of the holder and the waiters, in arrival order.
    queue: Ghost<Seq<usize>>,
}

impl McsLock {
    /// The nodes of the holder and the waiters, in arrival order.
    pub closed spec fn queue(&self) -> Seq<usize> {
        self.queue@
    }

    /// Whether node `n` still has to wait: its `locked` flag.
    pub closed spec fn locked(&self, n: usize) -> bool {
        self.nodes@[n as int].locked
    }

    /// The queue is the chain of `next` links from its front to `tail`; its nodes are distinct;
    /// every waiter behind the front still has its `locked` flag set.
    pub closed spec fn wf(&self) -> bool {
        let q = self.queue@;
        let n = self.nodes@;
        &&& forall|i: int| 0 <= i < q.len() ==> #[trigger] q[i] < n.len()
        &&& forall|i: int, j: int| 0 <= i < j < q.len() ==> q[i] != q[j]
        &&& self.tail == if q.len() == 0 {
            None
        } else {
            Some(q.last())
        }
        &&& forall|i: int| 0 <= i < q.len() - 1 ==> #[trigger] n[q[i] as int].next == Some(q[i + 1])
        &&& q.len() > 0 ==> n[q.last() as int].next is None
        &&& forall|i: int| 1 <= i < q.len() ==> #[trigger] n[q[i] as int].locked
    }

    /// Creates an unlocked lock.
    pub fn new() -> (r: Self)
        ensures
            r.wf(),
            r.queue() == Seq::<usize>::empty(),
    {
        McsLock { nodes: Vec::new(), tail: None, queue: Ghost(Seq::empty()) }
    }

    /// The first step of acquiring: appends a fresh node to the queue, behind the old tail.
    /// Returns the token and whether the lock was free, in which case it is acquired at once;
    /// otherwise the caller waits until `is_waiting` turns false.
    pub fn lock_start(&mut self) -> (r: (Token, bool))
        requires
            old(self).wf(),
        ensures
            final(self).wf(),
            !old(self).queue().contains(r.0.node()),
            final(self).queue() == old(self).queue().push(r.0.node()),
            r.1 == (old(self).queue().len() == 0),
    {
        let node = self.nodes.len();
        self.nodes.push(Node { locked: true, next: None });
        let prev = self.tail;
        self.tail = Some(node);
        let ghost q = self.queue@;
        proof {
            if q.contains(node) {
                let i = choose|i: int| 0 <= i < q.len() && q[i] == node;
                assert(q[i] < old(self).nodes@.len());
            }
        }
        match prev {
            None => {
                self.queue = Ghost(Seq::empty().push(node));
                (Token(node), true)
            },
            Some(p) => {
                self.nodes[p].next = Some(node);
                self.queue = Ghost(q.push(node));
                proof {
                    let nq = self.queue@;
                    let ns = self.nodes@;
                    assert forall|i: int| 0 <= i < nq.len() - 1 implies #[trigger] ns[nq[i] as int].next
                        == Some(nq[i + 1]) by {
                        if i < q.len() - 1 {
                            assert(nq[i] != p);
                        }
                    }
                    assert forall|i: int| 1 <= i < nq.len() implies #[trigger] ns[nq[i] as int].locked by {
                        if i < q.len() {
                            assert(ns[nq[i] as int].locked == old(self).nodes@[q[i] as int].locked);
                        }
                    }
                }
                (Token(node), false)
            },
        }
    }

    /// Whether the acquirer of `token` still has to wait: its node's `locked` flag. A waiter
    /// stops waiting only at the front of the queue, where it holds the lock.
    pub fn is_waiting(&self, token: &Token) -> (r: bool)
        requires
            self.wf(),
            self.queue().contains(token.node()),
        ensures
            r == self.locked(token.node()),
            !r ==> self.queue()[0] == token.node(),
    {
        proof {
            let q = self.queue@;
            let i = choose|i: int| 0 <= i < q.len() && q[i] == token.node();
            assert(q[i] < self.nodes@.len());
        }
        self.nodes[token.0].locked
    }

    /// Releases the lock held by `token`: hands it to the next node in the queue, clearing that
    /// node's flag, or empties the queue when nobody waits.
    pub fn unlock(&mut self, token: Token)
        requires
            old(self).wf(),
            old(self).queue().len() > 0,
            old(self).queue()[0] == token.node(),
        ensures
            final(self).wf(),
            final(self).queue() == old(self).queue().drop_first(),
            final(self).queue().len() > 0 ==> !final(self).locked(final(self).queue()[0]),
    {
        let ghost q = self.queue@;
        let node = token.0;
        match self.nodes[node].next {
            None => {
                proof {
                    if q.len() > 1 {
                        assert(self.nodes@[q[0] as int].next == Some(q[1]));
                    }
                }
                self.tail = None;
            },
            Some(next) => {
                proof {
                    if q.len() == 1 {
                        assert(self.nodes@[q.last() as int].next is None);
                    }
                    assert(self.nodes@[q[0] as int].next == Some(q[1]));
                }
                self.nodes[next].locked = false;
                proof {
                    let ns = self.nodes@;
                    assert forall|i: int| 0 <= i < q.len() implies #[trigger] ns[q[i] as int].next
                        == old(self).nodes@[q[i] as int].next by {
                        if q[i] != next {
                            assert(ns[q[i] as int] == old(self).nodes@[q[i] as int]);
                        }
                    }
                    assert forall|i: int| 2 <= i < q.len() implies #[trigger] ns[q[i] as int].locked by {
                        assert(q[i] != q[1]);
                    }
                }
            },
        }
        self.queue = Ghost(q.drop_first());
        proof {
            let nq = self.queue@;
            let ns = self.nodes@;
            assert forall|i: int| 0 <= i < nq.len() - 1 implies #[trigger] ns[nq[i] as int].next == Some(
                nq[i + 1],
            ) by {
                assert(nq[i] == q[i + 1]);
            }
            assert forall|i: int| 1 <= i < nq.len() implies #[trigger] ns[nq[i] as int].locked by {
                assert(nq[i] == q[i + 1]);
            }
        }
    }
}

impl RawLock for McsLock {
    type Token = Token;

    open spec fn inv(&self) -> bool {
        self.wf()
    }

    open spec fn held(&self) -> bool {
        self.queue().len() > 0
    }

    open spec fn contended(&self) -> bool {
        self.queue().len() > 1
    }

    open spec fn holds(&self, token: Token) -> bool {
        self.queue().len() > 0 && self.queue()[0] == token.node()
    }

    fn init() -> (r: Self) {
        Self::new()
    }

    fn lock(&mut self) -> (token: Token) {
        let (token, _) = self.lock_start();
        token
    }

    fn unlock(&mut self, token: Token) {
        McsLock::unlock(self, token);
    }
}

impl Default for McsLock {
    fn default() -> (r: Self)
        ensures
            r.wf(),
            r.queue() == Seq::<usize>::empty(),
    {
        Self::new()
    }
}

} // verus!
