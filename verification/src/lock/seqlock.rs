//! A sequence lock.
//!
//! The sequence number is even while the lock is unlocked (or read-locked) and odd while it is
//! write-locked. Every completed write section advances it by two, so a reader that remembers the
//! number it started with can tell afterwards whether a writer ran in between.

use vstd::prelude::*;

verus! {

/// The sequence number reached by adding `k` to `s`, wrapping around at `usize::MAX`.
pub open spec fn seq_add(s: usize, k: usize) -> usize {
    vstd::wrapping::usize_specs::wrapping_add(s, k)
}

/// A sequence number that denotes an unlocked (or read-locked) sequence lock.
pub open spec fn is_unlocked_seq(s: usize) -> bool {
    s % 2 == 0
}

/// A reader that started at sequence number `s` fails validation once a writer has completed a
/// write section after it: the section moves the number from `s` to `seq_add(s, 2)`, another
/// unlocked number, which differs from `s`.
pub proof fn lemma_write_cycle_invalidates(s: usize)
    requires
        is_unlocked_seq(s),
    ensures
        seq_add(s, 2) != s,
        is_unlocked_seq(seq_add(s, 2)),
{
}

/// A write cycle from an unlocked number `s`: `write_lock` leaves `s + 1`, which is locked, so
/// that no upgrade from `s` (nor a second `write_lock`) succeeds meanwhile; `write_unlock` then
/// leaves `seq_add(s, 2)`, unlocked again and different from `s`.
pub proof fn lemma_write_lock_cycle(s: usize)
    requires
        is_unlocked_seq(s),
    ensures
        s + 1 <= usize::MAX,
        !is_unlocked_seq((s + 1) as usize),
        s + 1 != s,
        is_unlocked_seq(seq_add(s, 2)),
        seq_add(s, 2) != s,
{
    lemma_write_cycle_invalidates(s);
}

/// A raw sequence lock.
#[derive(Debug)]
pub struct RawSeqLock {
    /// Even: unlocked or read-locked. Odd: write-locked.
    seq: usize,
}

impl RawSeqLock {
    /// The current sequence number.
    pub closed spec fn seq(&self) -> usize {
        self.seq
    }

    /// Creates a new raw sequence lock.
    pub fn new() -> (r: Self)
        ensures
            r.seq() == 0,
    {
        RawSeqLock { seq: 0 }
    }

    /// Acquires a writer's lock and returns the sequence number it was acquired at.
    ///
    /// A writer spins while the lock is write-locked; with the lock held by nobody else the call
    /// only returns when the lock is unlocked, which the precondition states.
    pub fn write_lock(&mut self) -> (r: usize)
        requires
            is_unlocked_seq(old(self).seq()),
        ensures
            r == old(self).seq(),
            final(self).seq() == r + 1,
            !is_unlocked_seq(final(self).seq()),
    {
        let seq = self.seq;
        self.seq = seq + 1;
        seq
    }

    /// Releases a writer's lock acquired at sequence number `seq`.
    pub fn write_unlock(&mut self, seq: usize)
        requires
            is_unlocked_seq(seq),
            old(self).seq() == seq + 1,
        ensures
            final(self).seq() == seq_add(seq, 2),
            is_unlocked_seq(final(self).seq()),
    {
        self.seq = seq.wrapping_add(2);
    }

    /// Acquires a reader's lock and returns the sequence number to validate against.
    pub fn read_begin(&self) -> (r: usize)
        requires
            is_unlocked_seq(self.seq()),
        ensures
            r == self.seq(),
            is_unlocked_seq(r),
    {
        self.seq
    }

    /// Validates reads started at sequence number `seq`: `true` iff no writer has run since.
    pub fn read_validate(&self, seq: usize) -> (r: bool)
        ensures
            r == (seq == self.seq()),
    {
        seq == self.seq
    }

    /// Tries to turn a reader's lock started at `seq` into a writer's lock. Succeeds iff no
    /// writer has run since `seq` was read.
    pub fn upgrade(&mut self, seq: usize) -> (r: bool)
        requires
            is_unlocked_seq(seq),
        ensures
            r == (old(self).seq() == seq),
            r ==> final(self).seq() == seq + 1,
            !r ==> final(self).seq() == old(self).seq(),
    {
        if self.seq == seq {
            self.seq = seq + 1;
            true
        } else {
            false
        }
    }
}

impl Default for RawSeqLock {
    fn default() -> (r: Self)
        ensures
            r.seq() == 0,
    {
        Self::new()
    }
}

/// A sequence lock protecting a value of type `T`.
#[derive(Debug)]
pub struct SeqLock<T> {
    inner: RawSeqLock,
    data: T,
}

/// A writer's lock: the sequence number the lock was acquired at.
#[derive(Debug)]
pub struct WriteGuard {
    seq: usize,
}

/// A reader's lock: the sequence number the read section started at.
#[derive(Debug)]
pub struct ReadGuard {
    seq: usize,
}

impl WriteGuard {
    /// The sequence number the writer's lock was acquired at.
    pub closed spec fn seq(&self) -> usize {
        self.seq
    }

    /// The protected value.
    pub fn deref<'s, T>(&self, lock: &'s SeqLock<T>) -> (r: &'s T)
        ensures
            *r == lock.data(),
    {
        &lock.data
    }
}

impl ReadGuard {
    /// The sequence number the read section started at.
    pub closed spec fn seq(&self) -> usize {
        self.seq
    }

    /// Another reader's lock started at the same sequence number.
    pub fn clone(&self) -> (r: Self)
        ensures
            r.seq() == self.seq(),
    {
        ReadGuard { seq: self.seq }
    }

    /// The protected value.
    pub fn deref<'s, T>(&self, lock: &'s SeqLock<T>) -> (r: &'s T)
        ensures
            *r == lock.data(),
    {
        &lock.data
    }

    /// Validates the reads of this section: `true` iff no writer has run on `lock` since it
    /// started.
    pub fn validate<T>(&self, lock: &SeqLock<T>) -> (r: bool)
        ensures
            r == (self.seq() == lock.seq()),
    {
        lock.inner.read_validate(self.seq)
    }

    /// Restarts the read section at the current sequence number of `lock`.
    pub fn restart<T>(&mut self, lock: &SeqLock<T>)
        requires
            is_unlocked_seq(lock.seq()),
        ensures
            final(self).seq() == lock.seq(),
    {
        self.seq = lock.inner.read_begin();
    }

    /// Ends the read section and returns whether its reads were valid.
    pub fn finish<T>(self, lock: &SeqLock<T>) -> (r: bool)
        ensures
            r == (self.seq() == lock.seq()),
    {
        self.validate(lock)
    }

    /// Tries to turn this read section into a writer's lock on `lock`. Succeeds iff no writer has
    /// run since the section started.
    pub fn upgrade<T>(self, lock: &mut SeqLock<T>) -> (r: Result<WriteGuard, ()>)
        requires
            is_unlocked_seq(self.seq()),
        ensures
            r is Ok <==> old(lock).seq() == self.seq(),
            r matches Ok(g) ==> g.seq() == self.seq() && final(lock).seq() == self.seq() + 1,
            r is Err ==> final(lock).seq() == old(lock).seq(),
            final(lock).data() == old(lock).data(),
    {
        if lock.inner.upgrade(self.seq) {
            Ok(WriteGuard { seq: self.seq })
        } else {
            Err(())
        }
    }
}

impl<T> SeqLock<T> {
    /// The sequence number of the lock.
    pub closed spec fn seq(&self) -> usize {
        self.inner.seq()
    }

    /// The protected value.
    pub closed spec fn data(&self) -> T {
        self.data
    }

    /// Creates a new sequence lock holding `data`.
    pub fn new(data: T) -> (r: Self)
        ensures
            r.seq() == 0,
            r.data() == data,
    {
        SeqLock { inner: RawSeqLock::new(), data }
    }

    /// Consumes the lock, returning the protected value.
    pub fn into_inner(self) -> (r: T)
        ensures
            r == self.data(),
    {
        self.data
    }

    /// A mutable reference to the protected value.
    pub fn get_mut(&mut self) -> (r: &mut T)
        ensures
            *r == old(self).data(),
            final(self).data() == *final(r),
            final(self).seq() == old(self).seq(),
    {
        &mut self.data
    }

    /// Acquires a writer's lock.
    pub fn write_lock(&mut self) -> (r: WriteGuard)
        requires
            is_unlocked_seq(old(self).seq()),
        ensures
            r.seq() == old(self).seq(),
            final(self).seq() == old(self).seq() + 1,
            final(self).data() == old(self).data(),
    {
        let seq = self.inner.write_lock();
        WriteGuard { seq }
    }

    /// Releases the writer's lock `guard`.
    pub fn write_unlock(&mut self, guard: WriteGuard)
        requires
            is_unlocked_seq(guard.seq()),
            old(self).seq() == guard.seq() + 1,
        ensures
            final(self).seq() == seq_add(guard.seq(), 2),
            is_unlocked_seq(final(self).seq()),
            final(self).data() == old(self).data(),
    {
        self.inner.write_unlock(guard.seq);
    }

    /// Starts a read section.
    pub fn read_lock(&self) -> (r: ReadGuard)
        requires
            is_unlocked_seq(self.seq()),
        ensures
            r.seq() == self.seq(),
    {
        ReadGuard { seq: self.inner.read_begin() }
    }

    /// Runs `f` on the protected value inside a read section and returns its result if the
    /// section validates.
    pub fn read<F, R>(&self, f: F) -> (r: Option<R>)
        where
            F: FnOnce(&T) -> R,
        requires
            is_unlocked_seq(self.seq()),
            f.requires((&self.data(),)),
        ensures
            r matches Some(v) && f.ensures((&self.data(),), v),
    {
        let guard = self.read_lock();
        let result = f(guard.deref(self));
        if guard.finish(self) {
            Some(result)
        } else {
            None
        }
    }
}

} // verus!
