//! Lock interfaces, and a type-safe lock over a raw lock.
//!
//! A raw lock is seen through who holds it: `held` while some token holds it, `holds(t)` for
//! the holder's token, and `contended` while someone else waits behind the holder.

use vstd::prelude::*;

verus! {

/// Raw lock interface.
///
/// Implementations must ensure that the lock is actually exclusive: a lock can't be acquired
/// while the lock is already locked.
pub trait RawLock: Sized {
    /// Raw lock's token type.
    type Token;

    /// The lock's own well-formedness invariant.
    spec fn inv(&self) -> bool;

    /// Someone holds the lock.
    spec fn held(&self) -> bool;

    /// Someone waits behind the holder.
    spec fn contended(&self) -> bool;

    /// `token` is the holder's token.
    spec fn holds(&self, token: Self::Token) -> bool;

    /// Creates an unlocked raw lock.
    fn init() -> (r: Self)
        ensures
            r.inv(),
            !r.held(),
            !r.contended(),
    ;

    /// Acquires the raw lock. A caller waits while someone else holds the lock; with nobody
    /// else to release it, the call returns only on a lock that nobody holds, which the
    /// precondition states.
    fn lock(&mut self) -> (token: Self::Token)
        requires
            old(self).inv(),
            !old(self).held(),
        ensures
            final(self).inv(),
            final(self).holds(token),
            final(self).held(),
            !final(self).contended(),
    ;

    /// Releases the raw lock: the token holds it no more. Where nobody waits, the lock is then
    /// free; where someone waits, the lock passes on and stays held.
    fn unlock(&mut self, token: Self::Token)
        requires
            old(self).inv(),
            old(self).holds(token),
        ensures
            final(self).inv(),
            !final(self).holds(token),
            !old(self).contended() ==> !final(self).held() && !final(self).contended(),
            old(self).contended() ==> final(self).held(),
    ;
}

/// Raw lock interface for the try_lock API.
///
/// `try_lock` returns a token that can be used for `RawLock::unlock`.
pub trait RawTryLock: RawLock {
    /// Tries to acquire the raw lock. It never succeeds while someone holds the lock, and a
    /// failure changes nothing of who holds the lock.
    fn try_lock(&mut self) -> (r: Result<Self::Token, ()>)
        requires
            old(self).inv(),
        ensures
            final(self).inv(),
            r matches Ok(t) ==> !old(self).held() && final(self).holds(t) && final(self).held()
                && !final(self).contended(),
            r is Err ==> final(self).held() == old(self).held() && final(self).contended() == old(self).contended(),
    ;
}

/// A type-safe lock: a raw lock and the value it protects.
#[derive(Debug)]
pub struct Lock<L: RawLock, T> {
    inner: L,
    data: T,
}

/// A guard that holds the lock: the raw lock's token.
#[derive(Debug)]
pub struct LockGuard<L: RawLock> {
    token: L::Token,
}

impl<L: RawLock> LockGuard<L> {
    /// The token the guard holds.
    pub closed spec fn token(&self) -> L::Token {
        self.token
    }
}

impl<L: RawLock, T> Lock<L, T> {
    /// The raw lock.
    pub closed spec fn raw(&self) -> L {
        self.inner
    }

    /// The protected value.
    pub closed spec fn data(&self) -> T {
        self.data
    }

    /// Creates a new lock.
    pub fn new(data: T) -> (r: Self)
        ensures
            r.raw().inv(),
            !r.raw().held(),
            !r.raw().contended(),
            r.data() == data,
    {
        Lock { inner: L::init(), data }
    }

    /// Destroys the lock and retrieves the lock-protected value.
    pub fn into_inner(self) -> (r: T)
        ensures
            r == self.data(),
    {
        self.data
    }

    /// Acquires the lock; the guard gives access to the inner value.
    pub fn lock(&mut self) -> (r: LockGuard<L>)
        requires
            old(self).raw().inv(),
            !old(self).raw().held(),
        ensures
            final(self).raw().inv(),
            final(self).raw().holds(r.token()),
            final(self).raw().held(),
            !final(self).raw().contended(),
            final(self).data() == old(self).data(),
    {
        let token = self.inner.lock();
        LockGuard { token }
    }

    /// Releases the lock held by `guard`.
    pub fn unlock(&mut self, guard: LockGuard<L>)
        requires
            old(self).raw().inv(),
            old(self).raw().holds(guard.token()),
        ensures
            final(self).raw().inv(),
            !final(self).raw().holds(guard.token()),
            !old(self).raw().contended() ==> !final(self).raw().held() && !final(self).raw().contended(),
            old(self).raw().contended() ==> final(self).raw().held(),
            final(self).data() == old(self).data(),
    {
        self.inner.unlock(guard.token);
    }

    /// The inner value, read through the guard that holds the lock.
    pub fn deref(&self, guard: &LockGuard<L>) -> (r: &T)
        requires
            self.raw().holds(guard.token()),
        ensures
            *r == self.data(),
    {
        &self.data
    }

    /// The inner value, written through the guard that holds the lock.
    pub fn deref_mut(&mut self, guard: &LockGuard<L>) -> (r: &mut T)
        requires
            old(self).raw().holds(guard.token()),
        ensures
            *r == old(self).data(),
            final(self).data() == *final(r),
            final(self).raw() == old(self).raw(),
    {
        &mut self.data
    }
}

impl<L: RawTryLock, T> Lock<L, T> {
    /// Tries to acquire the lock.
    pub fn try_lock(&mut self) -> (r: Result<LockGuard<L>, ()>)
        requires
            old(self).raw().inv(),
        ensures
            final(self).raw().inv(),
            r matches Ok(g) ==> !old(self).raw().held() && final(self).raw().holds(g.token())
                && final(self).raw().held(),
            r is Err ==> final(self).raw().held() == old(self).raw().held(),
            final(self).data() == old(self).data(),
    {
        match self.inner.try_lock() {
            Ok(token) => Ok(LockGuard { token }),
            Err(()) => Err(()),
        }
    }
}

} // verus!
