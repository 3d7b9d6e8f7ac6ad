//! The elimination protocol.
//!
//! A push or pop that fails on the inner stack picks a random slot. If a request of the
//! opposite kind waits there, the two are paired on the spot. If the slot is empty, the request
//! is published there; its owner waits a little (outside this module) and then withdraws it:
//! either nobody came, and the attempt failed, or a partner paired with it, and the attempt
//! succeeded. A slot that holds a request of the same kind, or a pairing that its waiter has not
//! collected yet, cannot be used.

use super::base::{ElimStack, Slot, Stack, ELIM_SIZE};
use vstd::prelude::*;

verus! {

/// The outcome of a push attempt.
#[derive(Debug)]
pub enum PushAttempt<T> {
    /// The value was pushed, or handed to a waiting pop.
    Pushed,
    /// The value was published in the slot; the caller must later withdraw it.
    Published,
    /// The attempt failed; the value is handed back.
    Failed(T),
}

/// The outcome of a pop attempt.
#[derive(Debug)]
pub enum PopAttempt<T> {
    /// The value popped (from the stack or from a waiting push), or `None` for an empty stack.
    Popped(Option<T>),
    /// A pop request was published in the slot; the caller must later withdraw it.
    Published,
    /// The attempt failed.
    Failed,
}

/// A push of `v` that meets slot `s`: the new slot and the outcome.
pub open spec fn offer_push<T>(s: Slot<T>, v: T) -> (Slot<T>, PushAttempt<T>) {
    match s {
        Slot::PopRequest => (Slot::Acknowledged(Some(v)), PushAttempt::Pushed),
        Slot::Empty => (Slot::PushRequest(v), PushAttempt::Published),
        _ => (s, PushAttempt::Failed(v)),
    }
}

/// A pop that meets slot `s`: the new slot and the outcome.
pub open spec fn offer_pop<T>(s: Slot<T>) -> (Slot<T>, PopAttempt<T>) {
    match s {
        Slot::PushRequest(v) => (Slot::Acknowledged(None), PopAttempt::Popped(Some(v))),
        Slot::Empty => (Slot::PopRequest, PopAttempt::Published),
        _ => (s, PopAttempt::Failed),
    }
}

/// A slot that a push published in and that a push may withdraw from.
pub open spec fn push_withdrawable<T>(s: Slot<T>) -> bool {
    s is PushRequest || s == Slot::<T>::Acknowledged(None)
}

/// A push withdrawing from slot `s`: the new slot and the outcome.
pub open spec fn withdraw_push_step<T>(s: Slot<T>) -> (Slot<T>, Result<(), T>) {
    match s {
        Slot::PushRequest(v) => (Slot::Empty, Err(v)),
        _ => (Slot::Empty, Ok(())),
    }
}

/// A slot that a pop published in and that a pop may withdraw from.
pub open spec fn pop_withdrawable<T>(s: Slot<T>) -> bool {
    s is PopRequest || s matches Slot::Acknowledged(Some(_))
}

/// A pop withdrawing from slot `s`: the new slot and the outcome.
pub open spec fn withdraw_pop_step<T>(s: Slot<T>) -> (Slot<T>, Result<Option<T>, ()>) {
    match s {
        Slot::Acknowledged(Some(v)) => (Slot::Empty, Ok(Some(v))),
        _ => (Slot::Empty, Err(())),
    }
}

impl<T, S: Stack<T>> ElimStack<T, S> {
    /// Tries to push `req`: first on the inner stack, then, if that attempt fails, through the
    /// elimination slot `index` (see `offer_push`).
    pub fn try_push(&mut self, req: T, index: usize) -> (r: PushAttempt<T>)
        requires
            old(self).wf(),
            index < ELIM_SIZE,
        ensures
            final(self).wf(),
            final(self).inner_never_fails() == old(self).inner_never_fails(),
            old(self).inner_never_fails() ==> final(self).stack() == old(self).stack().push(req)
                && final(self).slots() == old(self).slots() && r is Pushed,
            r is Pushed ==> (final(self).stack() == old(self).stack().push(req) && final(self).slots()
                == old(self).slots()) || (old(self).slots()[index as int] is PopRequest
                && final(self).slots() == old(self).slots().update(
                index as int,
                Slot::Acknowledged(Some(req)),
            ) && final(self).stack() == old(self).stack()),
            r is Published ==> old(self).slots()[index as int] is Empty && final(self).slots()
                == old(self).slots().update(index as int, Slot::PushRequest(req))
                && final(self).stack() == old(self).stack() && push_withdrawable(
                final(self).slots()[index as int],
            ),
            r matches PushAttempt::Failed(w) ==> w == req && final(self).slots() == old(self).slots()
                && final(self).stack() == old(self).stack(),
            old(self).slots()[index as int] is PushRequest || old(self).slots()[index as int] is Acknowledged
                ==> final(self).slots() == old(self).slots() && !(r is Published),
            (final(self).stack() == old(self).stack().push(req) && final(self).slots() == old(self).slots()
                && r is Pushed) || (final(self).stack() == old(self).stack() && ({
                let (s, o) = offer_push(old(self).slots()[index as int], req);
                &&& final(self).slots() == old(self).slots().update(index as int, s)
                &&& r == o
            })),
    {
        let req = match self.inner_try_push(req) {
            Ok(()) => return PushAttempt::Pushed,
            Err(req) => req,
        };
        let slot = self.swap_slot(index, Slot::Empty);
        match slot {
            Slot::PopRequest => {
                self.swap_slot(index, Slot::Acknowledged(Some(req)));
                PushAttempt::Pushed
            },
            Slot::Empty => {
                self.swap_slot(index, Slot::PushRequest(req));
                PushAttempt::Published
            },
            other => {
                self.swap_slot(index, other);
                proof {
                    assert(self.slots() =~= old(self).slots());
                }
                PushAttempt::Failed(req)
            },
        }
    }

    /// Withdraws the push published in slot `index`: `Err(v)` hands the value back if no pop came,
    /// `Ok(())` reports that a pop took it. The slot is empty afterwards.
    pub fn withdraw_push(&mut self, index: usize) -> (r: Result<(), T>)
        requires
            old(self).wf(),
            index < ELIM_SIZE,
            push_withdrawable(old(self).slots()[index as int]),
        ensures
            final(self).wf(),
            final(self).stack() == old(self).stack(),
            final(self).inner_never_fails() == old(self).inner_never_fails(),
            ({
                let (s, o) = withdraw_push_step(old(self).slots()[index as int]);
                &&& final(self).slots() == old(self).slots().update(index as int, s)
                &&& r == o
            }),
    {
        match self.swap_slot(index, Slot::Empty) {
            Slot::PushRequest(v) => Err(v),
            _ => Ok(()),
        }
    }

    /// Tries to pop: first from the inner stack, then, if that attempt fails, through the
    /// elimination slot `index` (see `offer_pop`).
    pub fn try_pop(&mut self, index: usize) -> (r: PopAttempt<T>)
        requires
            old(self).wf(),
            index < ELIM_SIZE,
        ensures
            final(self).wf(),
            final(self).inner_never_fails() == old(self).inner_never_fails(),
            old(self).inner_never_fails() ==> final(self).slots() == old(self).slots() && (
                (r == PopAttempt::<T>::Popped(None) && old(self).stack().len() == 0 && final(self).stack() == old(self).stack())
                || (old(self).stack().len() > 0 && r == PopAttempt::Popped(Some(old(self).stack().last()))
                    && final(self).stack() == old(self).stack().drop_last())),
            r == PopAttempt::<T>::Popped(None) ==> old(self).stack().len() == 0 && final(self).stack()
                == old(self).stack() && final(self).slots() == old(self).slots(),
            r matches PopAttempt::Popped(Some(v)) ==> (old(self).stack().len() > 0 && v == old(self).stack().last() && final(self).stack() == old(self).stack().drop_last() && final(self).slots() == old(self).slots()) || (old(self).slots()[index as int] == Slot::PushRequest(v)
                && final(self).slots() == old(self).slots().update(
                index as int,
                Slot::Acknowledged(None),
            ) && final(self).stack() == old(self).stack()),
            r is Published ==> old(self).slots()[index as int] is Empty && final(self).slots()
                == old(self).slots().update(index as int, Slot::PopRequest) && final(self).stack()
                == old(self).stack() && pop_withdrawable(final(self).slots()[index as int]),
            r is Failed ==> final(self).slots() == old(self).slots() && final(self).stack() == old(self).stack(),
            old(self).slots()[index as int] is PopRequest || old(self).slots()[index as int] is Acknowledged
                ==> final(self).slots() == old(self).slots() && !(r is Published),
            (final(self).slots() == old(self).slots() && (
                (r == PopAttempt::<T>::Popped(None) && old(self).stack().len() == 0 && final(self).stack() == old(self).stack())
                || (old(self).stack().len() > 0 && r == PopAttempt::Popped(Some(old(self).stack().last()))
                    && final(self).stack() == old(self).stack().drop_last()))) || (final(self).stack()
                == old(self).stack() && ({
                let (s, o) = offer_pop(old(self).slots()[index as int]);
                &&& final(self).slots() == old(self).slots().update(index as int, s)
                &&& r == o
            })),
    {
        match self.inner_try_pop() {
            Ok(r) => return PopAttempt::Popped(r),
            Err(()) => {},
        }
        let slot = self.swap_slot(index, Slot::Empty);
        match slot {
            Slot::PushRequest(v) => {
                self.swap_slot(index, Slot::Acknowledged(None));
                PopAttempt::Popped(Some(v))
            },
            Slot::Empty => {
                self.swap_slot(index, Slot::PopRequest);
                PopAttempt::Published
            },
            other => {
                self.swap_slot(index, other);
                proof {
                    assert(self.slots() =~= old(self).slots());
                }
                PopAttempt::Failed
            },
        }
    }

    /// Withdraws the pop published in slot `index`: `Ok(Some(v))` collects the value a push
    /// handed over, `Err(())` reports that no push came. The slot is empty afterwards.
    pub fn withdraw_pop(&mut self, index: usize) -> (r: Result<Option<T>, ()>)
        requires
            old(self).wf(),
            index < ELIM_SIZE,
            pop_withdrawable(old(self).slots()[index as int]),
        ensures
            final(self).wf(),
            final(self).stack() == old(self).stack(),
            final(self).inner_never_fails() == old(self).inner_never_fails(),
            ({
                let (s, o) = withdraw_pop_step(old(self).slots()[index as int]);
                &&& final(self).slots() == old(self).slots().update(index as int, s)
                &&& r == o
            }),
    {
        match self.swap_slot(index, Slot::Empty) {
            Slot::Acknowledged(Some(v)) => Ok(Some(v)),
            _ => Err(()),
        }
    }

    /// Whether the inner stack is empty.
    pub fn is_empty(&self) -> (r: bool)
        ensures
            r == (self.stack().len() == 0),
    {
        self.inner_is_empty()
    }
}

/// A push that publishes its value and a pop that then finds it exchange exactly that value:
/// the pop gets it, the push's withdrawal reports success, and the slot is empty again.
pub proof fn lemma_push_meets_pop<T>(v: T)
    ensures
        offer_push(Slot::<T>::Empty, v) == (Slot::PushRequest(v), PushAttempt::<T>::Published),
        offer_pop(Slot::PushRequest(v)) == (Slot::<T>::Acknowledged(None), PopAttempt::Popped(Some(v))),
        push_withdrawable(Slot::<T>::Acknowledged(None)),
        withdraw_push_step(Slot::<T>::Acknowledged(None)) == (Slot::<T>::Empty, Ok::<(), T>(())),
{
}

/// A pop that publishes its request and a push that then finds it exchange exactly the pushed
/// value: the push succeeds, the pop's withdrawal collects the value, and the slot is empty
/// again.
pub proof fn lemma_pop_meets_push<T>(v: T)
    ensures
        offer_pop(Slot::<T>::Empty) == (Slot::<T>::PopRequest, PopAttempt::<T>::Published),
        offer_push(Slot::<T>::PopRequest, v) == (Slot::Acknowledged(Some(v)), PushAttempt::<T>::Pushed),
        pop_withdrawable(Slot::Acknowledged(Some(v))),
        withdraw_pop_step(Slot::Acknowledged(Some(v))) == (Slot::<T>::Empty, Ok::<Option<T>, ()>(Some(v))),
{
}

/// A published request that nobody pairs with is withdrawn unchanged: a push gets its value
/// back, a pop fails, and the slot is empty again.
pub proof fn lemma_unpaired_withdraw<T>(v: T)
    ensures
        withdraw_push_step(offer_push(Slot::<T>::Empty, v).0) == (Slot::<T>::Empty, Err::<(), T>(v)),
        withdraw_pop_step(offer_pop(Slot::<T>::Empty).0) == (Slot::<T>::Empty, Err::<Option<T>, ()>(())),
{
}

/// A push that meets a slot never loses its value: it hands it to a waiting pop (which can then
/// collect it), publishes it where the slot was empty (and can withdraw it), or fails, gets it
/// back and leaves the slot as it was. A slot that already holds a push's offer or a pairing
/// makes it fail.
pub proof fn lemma_offer_push_keeps_value<T>(s: Slot<T>, v: T)
    ensures
        offer_push(s, v).1 is Pushed ==> s is PopRequest && offer_push(s, v).0 == Slot::Acknowledged(
            Some(v),
        ) && pop_withdrawable(offer_push(s, v).0),
        offer_push(s, v).1 is Published ==> s is Empty && offer_push(s, v).0 == Slot::PushRequest(v)
            && push_withdrawable(offer_push(s, v).0),
        offer_push(s, v).1 matches PushAttempt::Failed(w) ==> w == v && offer_push(s, v).0 == s,
        s is PushRequest || s is Acknowledged ==> offer_push(s, v) == (s, PushAttempt::Failed(v)),
{
}

/// A pop that meets a slot never reports an empty stack; it takes a value only from a waiting
/// push (whose publisher then learns that it was taken), publishes where the slot was empty (and
/// can withdraw), and otherwise fails and leaves the slot as it was. A slot that holds another
/// pop's request or a pairing makes it fail.
pub proof fn lemma_offer_pop_honest<T>(s: Slot<T>)
    ensures
        offer_pop(s).1 != PopAttempt::<T>::Popped(None),
        offer_pop(s).1 matches PopAttempt::Popped(Some(v)) ==> s == Slot::PushRequest(v)
            && offer_pop(s).0 == Slot::<T>::Acknowledged(None) && push_withdrawable(offer_pop(s).0),
        offer_pop(s).1 is Published ==> s is Empty && offer_pop(s).0 is PopRequest && pop_withdrawable(
            offer_pop(s).0,
        ),
        offer_pop(s).1 is Failed ==> offer_pop(s).0 == s,
        s is PopRequest || s is Acknowledged ==> offer_pop(s) == (s, PopAttempt::<T>::Failed),
{
}

/// Withdrawing empties the slot. A push gets its own value back exactly when no pop took it; a
/// pop gets a value exactly when a push handed one over, and that value.
pub proof fn lemma_withdraw_outcomes<T>(s: Slot<T>, v: T)
    ensures
        withdraw_push_step(s).0 is Empty,
        withdraw_pop_step(s).0 is Empty,
        push_withdrawable(s) ==> (withdraw_push_step(s).1 == Err::<(), T>(v) <==> s == Slot::PushRequest(v)),
        push_withdrawable(s) ==> (withdraw_push_step(s).1 is Ok <==> s == Slot::<T>::Acknowledged(None)),
        pop_withdrawable(s) ==> (withdraw_pop_step(s).1 == Ok::<Option<T>, ()>(Some(v)) <==> s
            == Slot::Acknowledged(Some(v))),
        pop_withdrawable(s) ==> (withdraw_pop_step(s).1 is Err <==> s is PopRequest),
{
}

} // verus!
