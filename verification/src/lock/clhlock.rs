//! CLH queue lock.
//!
//! Each acquirer swaps a fresh node, with its `locked` flag set, into the lock's `tail`, and
//! waits until the flag of the node it replaced (its predecessor's) clears. Releasing clears the
//! holder's own flag. So the acquirers form an implicit queue: each one waits on the node of the
//! one before it, and the front one on a released node. Nodes live in an arena and are named by
//! their position in it.

use vstd::prelude::*;

use super::api::RawLock;

verus! {

/// The token of a holder: its node.
#[derive(Debug)]
pub struct Token(usize);

impl Token {
    /// The holder's node.
    pub closed spec fn node(&self) -> usize {
        self.0
    }
}

/// An acquirer that waits: its node and its predecessor's node, whose flag it watches.
#[derive(Debug)]
pub struct Waiter {
    node: usize,
    prev: usize,
}

impl Waiter {
    /// The acquirer's node.
    pub closed spec fn node(&self) -> usize {
        self.node
    }

    /// The node the acquirer waits on.
    pub closed spec fn prev(&self) -> usize {
        self.prev
    }
}

/// CLH lock.
pub struct ClhLock {
    /// The `locked` flag of each node.
    nodes: Vec<bool>,
    tail: usize,
    /// The nodes of the holder and the waiters, in arrival order.
    queue: Ghost<Seq<usize>>,
    /// The released node that the front of the queue waits on.
    front_prev: Ghost<usize>,
}

impl ClhLock {
    /// The nodes of the holder and the waiters, in arrival order.
    pub closed spec fn queue(&self) -> Seq<usize> {
        self.queue@
    }

    /// The node that the acquirer at position `i` of the queue waits on.
    pub closed spec fn pred(&self, i: int) -> usize {
        if i == 0 {
            self.front_prev@
        } else {
            self.queue@[i - 1]
        }
    }

    /// Whether node `n`'s flag is set.
    pub closed spec fn locked(&self, n: usize) -> bool {
        self.nodes@[n as int]
    }

    /// `w` is the acquirer at some position of the queue, waiting on the node before it.
    pub open spec fn waits(&self, w: &Waiter) -> bool {
        exists|i: int| 0 <= i < self.queue().len() && self.queue()[i] == w.node() && w.prev() == self.pred(i)
    }

    /// The tail is the last node of the queue (the released node when the queue is empty); the
    /// nodes of the queue are distinct and keep their flags set; the node the front waits on is
    /// released and outside the queue.
    pub closed spec fn wf(&self) -> bool {
        let q = self.queue@;
        let n = self.nodes@;
        let f = self.front_prev@;
        &&& forall|i: int| 0 <= i < q.len() ==> #[trigger] q[i] < n.len()
        &&& forall|i: int, j: int| 0 <= i < j < q.len() ==> q[i] != q[j]
        &&& f < n.len()
        &&& !n[f as int]
        &&& forall|i: int| 0 <= i < q.len() ==> #[trigger] q[i] != f
        &&& self.tail == if q.len() == 0 {
            f
        } else {
            q.last()
        }
        &&& forall|i: int| 0 <= i < q.len() ==> #[trigger] n[q[i] as int]
    }

    /// Creates an unlocked lock: the tail is a released node.
    pub fn new() -> (r: Self)
        ensures
            r.wf(),
            r.queue() == Seq::<usize>::empty(),
    {
        let mut nodes: Vec<bool> = Vec::new();
        nodes.push(false);
        ClhLock { nodes, tail: 0, queue: Ghost(Seq::empty()), front_prev: Ghost(0) }
    }

    /// The first step of acquiring: swaps a fresh node with its flag set into the tail. The
    /// returned waiter waits on the node it replaced.
    pub fn lock_start(&mut self) -> (r: Waiter)
        requires
            old(self).wf(),
        ensures
            final(self).wf(),
            !old(self).queue().contains(r.node()),
            final(self).queue() == old(self).queue().push(r.node()),
            r.prev() == final(self).pred(old(self).queue().len() as int),
            final(self).waits(&r),
    {
        let ghost q = self.queue@;
        let node = self.nodes.len();
        self.nodes.push(true);
        let prev = self.tail;
        self.tail = node;
        self.queue = Ghost(q.push(node));
        proof {
            if q.contains(node) {
                let i = choose|i: int| 0 <= i < q.len() && q[i] == node;
                assert(q[i] < old(self).nodes@.len());
            }
            let nq = self.queue@;
            assert(nq[q.len() as int] == node);
            assert(prev == self.pred(q.len() as int));
            assert forall|i: int| 0 <= i < nq.len() implies #[trigger] self.nodes@[nq[i] as int] by {
                if i < q.len() {
                    assert(nq[i] == q[i]);
                }
            }
        }
        let w = Waiter { node, prev };
        assert(self.queue()[q.len() as int] == w.node() && w.prev() == self.pred(q.len() as int));
        w
    }

    /// Whether the waiter still has to wait: the flag of the node it waits on. It stops
    /// waiting exactly at the front of the queue, where it holds the lock.
    pub fn is_waiting(&self, w: &Waiter) -> (r: bool)
        requires
            self.wf(),
            self.waits(w),
        ensures
            r == self.locked(w.prev()),
            !r <==> self.queue()[0] == w.node(),
    {
        proof {
            let q = self.queue@;
            let i = choose|i: int| 0 <= i < q.len() && q[i] == w.node() && w.prev() == self.pred(i);
            if i > 0 {
                assert(q[i - 1] < self.nodes@.len());
                assert(q[0] != q[i]);
            }
        }
        self.nodes[w.prev]
    }

    /// The last step of acquiring, once the waiter has stopped waiting: its token.
    pub fn finish_lock(&self, w: Waiter) -> (r: Token)
        requires
            self.wf(),
            self.waits(&w),
            !self.locked(w.prev()),
        ensures
            r.node() == w.node(),
            self.queue()[0] == r.node(),
    {
        proof {
            let q = self.queue@;
            let i = choose|i: int| 0 <= i < q.len() && q[i] == w.node() && w.prev() == self.pred(i);
            if i > 0 {
                assert(q[i - 1] < self.nodes@.len());
            }
        }
        Token(w.node)
    }

    /// Releases the lock held by `token`: clears the holder's flag, which lets the next waiter
    /// (the one waiting on it) go.
    pub fn unlock(&mut self, token: Token)
        requires
            old(self).wf(),
            old(self).queue().len() > 0,
            old(self).queue()[0] == token.node(),
        ensures
            final(self).wf(),
            final(self).queue() == old(self).queue().drop_first(),
            final(self).pred(0) == token.node(),
            !final(self).locked(token.node()),
    {
        let ghost q = self.queue@;
        proof {
            assert(q[0] < self.nodes@.len());
        }
        self.nodes[token.0] = false;
        self.queue = Ghost(q.drop_first());
        self.front_prev = Ghost(token.0);
        proof {
            let nq = self.queue@;
            assert forall|i: int| 0 <= i < nq.len() implies #[trigger] self.nodes@[nq[i] as int] by {
                assert(nq[i] == q[i + 1]);
                assert(q[i + 1] != q[0]);
            }
            assert forall|i: int| 0 <= i < nq.len() implies #[trigger] nq[i] != self.front_prev@ by {
                assert(nq[i] == q[i + 1]);
                assert(q[i + 1] != q[0]);
            }
            if q.len() == 1 {
                assert(self.tail == q[0]);
            }
        }
    }
}

impl RawLock for ClhLock {
    type Token = Token;

    open spec fn inv(&self) -> bool {
        self.wf()
    }

    open spec fn held(&self) -> bool {
        self.queue().len() > 0
    }

    open spec fn contended(&self) -> bool {
        self.queue().len() > 1
    }

    open spec fn holds(&self, token: Token) -> bool {
        self.queue().len() > 0 && self.queue()[0] == token.node()
    }

    fn init() -> (r: Self) {
        Self::new()
    }

    fn lock(&mut self) -> (token: Token) {
        let w = self.lock_start();
        proof {
            assert(self.queue()[0] == w.node());
        }
        Token(w.node)
    }

    fn unlock(&mut self, token: Token) {
        ClhLock::unlock(self, token);
    }
}

impl Default for ClhLock {
    fn default() -> (r: Self)
        ensures
            r.wf(),
            r.queue() == Seq::<usize>::empty(),
    {
        Self::new()
    }
}

} // verus!
