//! Stacks that may fail an attempt, and the elimination-backoff stack built on one.

use crate::lockfree::stack as treiber;
use super::elim::{pop_withdrawable, push_withdrawable};
use crate::test::random::random_u64;
use vstd::prelude::*;

verus! {

/// The number of elimination slots.
pub const ELIM_SIZE: usize = 16;

/// The elimination slot that the random word `word` selects.
pub fn elim_index(word: u64) -> (r: usize)
    ensures
        r == (word as usize) % ELIM_SIZE,
        r < ELIM_SIZE,
{
    (word as usize) % ELIM_SIZE
}

/// A random elimination slot: the slot that a random word from `rng` selects.
pub fn get_random_elim_index(rng: &mut rand::rngs::ThreadRng) -> (r: usize)
    ensures
        r < ELIM_SIZE,
{
    elim_index(random_u64(rng))
}

/// Stack types whose operations are attempts that may fail (under contention) and leave the
/// stack unchanged when they do.
pub trait Stack<T> {
    /// The values on the stack, bottom first.
    spec fn stack_view(&self) -> Seq<T>;

    /// Every attempt on this stack succeeds: it is never contended.
    spec fn never_fails(&self) -> bool;

    /// Tries to push a value. Returns `Ok(())` if it was pushed; `Err(req)` hands the value back
    /// when the attempt failed.
    fn try_push(&mut self, req: T) -> (r: Result<(), T>)
        ensures
            r is Ok ==> final(self).stack_view() == old(self).stack_view().push(req),
            r matches Err(v) ==> v == req && final(self).stack_view() == old(self).stack_view(),
            old(self).never_fails() ==> r is Ok,
            final(self).never_fails() == old(self).never_fails(),
    ;

    /// Tries to pop a value. Returns `Ok(Some(v))` if `v` was popped, `Ok(None)` if the stack
    /// is empty, and `Err(())` if the attempt failed.
    fn try_pop(&mut self) -> (r: Result<Option<T>, ()>)
        ensures
            r == Ok::<Option<T>, ()>(None) ==> old(self).stack_view().len() == 0 && final(self).stack_view()
                == old(self).stack_view(),
            r matches Ok(Some(v)) ==> old(self).stack_view().len() > 0 && v == old(self).stack_view().last()
                && final(self).stack_view() == old(self).stack_view().drop_last(),
            r is Err ==> final(self).stack_view() == old(self).stack_view(),
            old(self).never_fails() ==> r is Ok,
            final(self).never_fails() == old(self).never_fails(),
    ;

    /// Whether the stack is empty.
    fn is_empty(&self) -> (r: bool)
        ensures
            r == (self.stack_view().len() == 0),
    ;
}

/// Treiber's stack never fails an attempt.
impl<T> Stack<T> for treiber::Stack<T> {
    open spec fn stack_view(&self) -> Seq<T> {
        self@
    }

    open spec fn never_fails(&self) -> bool {
        true
    }

    fn try_push(&mut self, req: T) -> (r: Result<(), T>)
        ensures
            r is Ok,
    {
        self.push(req);
        Ok(())
    }

    fn try_pop(&mut self) -> (r: Result<Option<T>, ()>)
        ensures
            r is Ok,
    {
        Ok(self.pop())
    }

    fn is_empty(&self) -> (r: bool) {
        treiber::Stack::is_empty(self)
    }
}

/// The state of an elimination slot.
#[derive(Debug)]
pub enum Slot<T> {
    /// No request.
    Empty,
    /// A push offers its value.
    PushRequest(T),
    /// A pop waits for a value.
    PopRequest,
    /// A request has been paired. After a pop took a push's value it holds `None`; after a push
    /// handed its value to a waiting pop it holds that value until the pop collects it.
    Acknowledged(Option<T>),
}

/// A stack with an elimination array: a push and a pop that fail on the inner stack may meet in
/// a slot of the array and exchange the value without touching the stack.
#[derive(Debug)]
pub struct ElimStack<T, S: Stack<T>> {
    pub(crate) inner: S,
    pub(crate) slots: Vec<Slot<T>>,
}

impl<T, S: Stack<T>> ElimStack<T, S> {
    /// The values on the inner stack, bottom first.
    pub closed spec fn stack(&self) -> Seq<T> {
        self.inner.stack_view()
    }

    /// The elimination slots.
    pub closed spec fn slots(&self) -> Seq<Slot<T>> {
        self.slots@
    }

    /// Every attempt on the inner stack succeeds.
    pub closed spec fn inner_never_fails(&self) -> bool {
        self.inner.never_fails()
    }

    /// There are `ELIM_SIZE` slots.
    pub open spec fn wf(&self) -> bool {
        self.slots().len() == ELIM_SIZE
    }

    /// An elimination stack over `inner`, with every slot empty.
    pub fn new(inner: S) -> (r: Self)
        ensures
            r.wf(),
            r.stack() == inner.stack_view(),
            r.inner_never_fails() == inner.never_fails(),
            forall|i: int| 0 <= i < ELIM_SIZE ==> #[trigger] r.slots()[i] is Empty,
    {
        let mut slots: Vec<Slot<T>> = Vec::new();
        let mut i: usize = 0;
        while i < ELIM_SIZE
            invariant
                i <= ELIM_SIZE,
                slots@.len() == i,
                forall|k: int| 0 <= k < i ==> #[trigger] slots@[k] is Empty,
            decreases ELIM_SIZE - i,
        {
            slots.push(Slot::Empty);
            i = i + 1;
        }
        ElimStack { inner, slots }
    }
}

impl<T, S: Stack<T>> ElimStack<T, S> {
    /// Replaces slot `index` with `s` and returns what it held.
    pub(crate) fn swap_slot(&mut self, index: usize, s: Slot<T>) -> (r: Slot<T>)
        requires
            index < old(self).slots().len(),
        ensures
            r == old(self).slots()[index as int],
            final(self).slots() == old(self).slots().update(index as int, s),
            final(self).stack() == old(self).stack(),
            final(self).inner_never_fails() == old(self).inner_never_fails(),
    {
        let r = self.slots.remove(index);
        self.slots.insert(index, s);
        proof {
            assert(self.slots@ =~= old(self).slots().update(index as int, s));
        }
        r
    }

    /// Whether slot `index` holds what a push that published there may withdraw.
    pub fn can_withdraw_push(&self, index: usize) -> (r: bool)
        requires
            self.wf(),
            index < ELIM_SIZE,
        ensures
            r == push_withdrawable(self.slots()[index as int]),
            self.slots()[index as int] is PushRequest ==> r,
            self.slots()[index as int] == Slot::<T>::Acknowledged(None) ==> r,
            self.slots()[index as int] is Empty || self.slots()[index as int] is PopRequest ==> !r,
    {
        match &self.slots[index] {
            Slot::PushRequest(_) => true,
            Slot::Acknowledged(None) => true,
            _ => false,
        }
    }

    /// Whether slot `index` holds what a pop that published there may withdraw.
    pub fn can_withdraw_pop(&self, index: usize) -> (r: bool)
        requires
            self.wf(),
            index < ELIM_SIZE,
        ensures
            r == pop_withdrawable(self.slots()[index as int]),
            self.slots()[index as int] is PopRequest ==> r,
            self.slots()[index as int] matches Slot::Acknowledged(Some(_)) ==> r,
            self.slots()[index as int] is Empty || self.slots()[index as int] is PushRequest ==> !r,
    {
        match &self.slots[index] {
            Slot::PopRequest => true,
            Slot::Acknowledged(Some(_)) => true,
            _ => false,
        }
    }

    /// One attempt to push `req` on the inner stack.
    pub(crate) fn inner_try_push(&mut self, req: T) -> (r: Result<(), T>)
        ensures
            final(self).slots() == old(self).slots(),
            r is Ok ==> final(self).stack() == old(self).stack().push(req),
            r matches Err(v) ==> v == req && final(self).stack() == old(self).stack(),
            old(self).inner_never_fails() ==> r is Ok,
            final(self).inner_never_fails() == old(self).inner_never_fails(),
    {
        self.inner.try_push(req)
    }

    /// One attempt to pop from the inner stack.
    pub(crate) fn inner_try_pop(&mut self) -> (r: Result<Option<T>, ()>)
        ensures
            final(self).slots() == old(self).slots(),
            r == Ok::<Option<T>, ()>(None) ==> old(self).stack().len() == 0 && final(self).stack() == old(self).stack(),
            r matches Ok(Some(v)) ==> old(self).stack().len() > 0 && v == old(self).stack().last()
                && final(self).stack() == old(self).stack().drop_last(),
            r is Err ==> final(self).stack() == old(self).stack(),
            old(self).inner_never_fails() ==> r is Ok,
            final(self).inner_never_fails() == old(self).inner_never_fails(),
    {
        self.inner.try_pop()
    }

    /// Whether the inner stack is empty.
    pub(crate) fn inner_is_empty(&self) -> (r: bool)
        ensures
            r == (self.stack().len() == 0),
    {
        self.inner.is_empty()
    }
}

} // verus!
