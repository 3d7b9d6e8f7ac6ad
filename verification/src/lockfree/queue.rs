//! Michael-Scott queue.

use std::collections::VecDeque;
use vstd::prelude::*;

verus! {

/// What `try_pop` returns on a queue holding `s`: its front value, `None` when it is empty.
pub open spec fn queue_front<T>(s: Seq<T>) -> Option<T> {
    if s.len() > 0 {
        Some(s[0])
    } else {
        None
    }
}

/// What a queue holding `s` holds after `try_pop`.
pub open spec fn queue_rest<T>(s: Seq<T>) -> Seq<T> {
    if s.len() > 0 {
        s.drop_first()
    } else {
        s
    }
}

/// The results of `n` successive `try_pop`s on a queue holding `s`.
pub open spec fn pop_results<T>(s: Seq<T>, n: nat) -> Seq<Option<T>>
    decreases n,
{
    if n == 0 {
        Seq::empty()
    } else {
        seq![queue_front(s)] + pop_results(queue_rest(s), (n - 1) as nat)
    }
}

/// First in, first out: `n` successive `try_pop`s on a queue holding `s` (the values pushed, in
/// push order, after those already there) return the values of `s` in order, then `None`.
pub proof fn lemma_pops_in_push_order<T>(s: Seq<T>, n: nat)
    ensures
        pop_results(s, n).len() == n,
        forall|k: int|
            0 <= k < n ==> #[trigger] pop_results(s, n)[k] == if k < s.len() {
                Some(s[k])
            } else {
                None::<T>
            },
    decreases n,
{
    if n > 0 {
        let r = queue_rest(s);
        lemma_pops_in_push_order(r, (n - 1) as nat);
        let p = pop_results(s, n);
        assert forall|k: int|
            0 <= k < n implies #[trigger] p[k] == if k < s.len() {
                Some(s[k])
            } else {
                None::<T>
            } by {
            if k > 0 {
                assert(p[k] == pop_results(r, (n - 1) as nat)[k - 1]);
            }
        }
    }
}

/// Michael-Scott queue: values come out in the order they went in.
#[derive(Debug)]
pub struct Queue<T> {
    /// The values, front (oldest) first.
    items: VecDeque<T>,
}

impl<T> View for Queue<T> {
    type V = Seq<T>;

    /// The values in the queue, oldest first.
    closed spec fn view(&self) -> Seq<T> {
        self.items@
    }
}

impl<T> Queue<T> {
    /// Creates a new, empty queue.
    pub fn new() -> (r: Self)
        ensures
            r@ == Seq::<T>::empty(),
    {
        Queue { items: VecDeque::new() }
    }

    /// Adds `t` to the back of the queue.
    pub fn push(&mut self, t: T)
        ensures
            final(self)@ == old(self)@.push(t),
    {
        self.items.push_back(t);
    }

    /// Removes the value at the front of the queue. Returns `None` iff the queue is empty.
    pub fn try_pop(&mut self) -> (r: Option<T>)
        ensures
            old(self)@.len() == 0 ==> r is None && final(self)@ == old(self)@,
            old(self)@.len() > 0 ==> r == Some(old(self)@[0]) && final(self)@ == old(self)@.drop_first(),
            r == queue_front(old(self)@),
            final(self)@ == queue_rest(old(self)@),
    {
        self.items.pop_front()
    }

    /// Whether the queue is empty.
    pub fn is_empty(&self) -> (r: bool)
        ensures
            r == (self@.len() == 0),
    {
        self.items.len() == 0
    }
}

impl<T> Default for Queue<T> {
    fn default() -> (r: Self)
        ensures
            r@ == Seq::<T>::empty(),
    {
        Self::new()
    }
}

} // verus!
