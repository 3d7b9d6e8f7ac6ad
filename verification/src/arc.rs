//! Reference-counting pointers.
//!
//! Every `Arc` names a shared allocation (an `ArcInner`: a reference count and the data) by its
//! position in an `ArcHeap`. Cloning an `Arc` adds a reference to the same allocation, dropping
//! one removes a reference, and the data is dropped together with the last reference.

use core::marker::PhantomData;
use vstd::prelude::*;

verus! {

/// The largest number of references an allocation may have.
pub const MAX_REFCOUNT: usize = isize::MAX as usize;

/// A shared allocation: the number of `Arc`s that point to it, and the data.
#[derive(Debug)]
pub struct ArcInner<T> {
    count: usize,
    data: T,
}

/// The allocations that `Arc`s point to.
#[derive(Debug)]
pub struct ArcHeap<T> {
    blocks: Vec<Option<ArcInner<T>>>,
}

impl<T> ArcHeap<T> {
    /// Creates a heap with no allocation.
    pub fn new() -> (r: Self)
        ensures
            r.len() == 0,
            r.wf(),
    {
        ArcHeap { blocks: Vec::new() }
    }

    /// The number of allocations ever made.
    pub closed spec fn len(&self) -> nat {
        self.blocks@.len()
    }

    /// Whether allocation `p` exists and has not been deallocated.
    pub closed spec fn live(&self, p: int) -> bool {
        0 <= p < self.blocks@.len() && self.blocks@[p] is Some
    }

    /// The number of `Arc`s pointing to allocation `p`.
    pub closed spec fn count(&self, p: int) -> nat {
        self.blocks@[p]->0.count as nat
    }

    /// The data of allocation `p`.
    pub closed spec fn data(&self, p: int) -> T {
        self.blocks@[p]->0.data
    }

    /// A live allocation lies below `len`: a fresh allocation differs from every live one.
    pub proof fn lemma_live_below_len(&self, p: int)
        ensures
            self.live(p) ==> 0 <= p < self.len(),
    {
    }

    /// Every live allocation is referenced by at least one and at most `MAX_REFCOUNT` `Arc`s.
    pub open spec fn wf(&self) -> bool {
        forall|p: int| #[trigger] self.live(p) ==> 1 <= self.count(p) <= MAX_REFCOUNT
    }

    /// `other` differs from `self` only in allocation `p`.
    pub open spec fn same_except(&self, other: &Self, p: int) -> bool {
        &&& self.len() == other.len()
        &&& forall|q: int|
            q != p ==> (#[trigger] self.live(q) <==> other.live(q)) && (self.live(q) ==> self.count(q)
                == other.count(q) && self.data(q) == other.data(q))
    }
}

/// Cloning an `Arc` and then dropping one of the two leaves the allocation as it was: the same
/// count and data, and every other allocation untouched. `mid` is the heap after the clone (as
/// `Arc::clone` leaves it) and `after` the heap after the drop (as `Arc::drop` leaves it).
pub proof fn lemma_clone_then_drop<T>(before: ArcHeap<T>, mid: ArcHeap<T>, after: ArcHeap<T>, p: int)
    requires
        before.wf(),
        before.live(p),
        mid.count(p) == before.count(p) + 1,
        mid.data(p) == before.data(p),
        mid.same_except(&before, p),
        after.live(p),
        after.count(p) == mid.count(p) - 1,
        after.data(p) == mid.data(p),
        after.same_except(&mid, p),
    ensures
        after.count(p) == before.count(p),
        after.data(p) == before.data(p),
        after.same_except(&before, p),
{
}

/// A reference-counting pointer to an allocation of an `ArcHeap`.
#[derive(Debug)]
pub struct Arc<T> {
    ptr: usize,
    phantom: PhantomData<T>,
}

impl<T> Arc<T> {
    /// The position of the allocation this `Arc` points to.
    pub closed spec fn ptr(&self) -> int {
        self.ptr as int
    }

    /// Whether this `Arc` points to a live allocation of `heap`.
    pub open spec fn valid(&self, heap: &ArcHeap<T>) -> bool {
        heap.live(self.ptr())
    }

    fn from_inner(ptr: usize) -> (r: Self)
        ensures
            r.ptr() == ptr,
    {
        Arc { ptr, phantom: PhantomData }
    }

    /// Constructs a new `Arc`: a fresh allocation of `heap` holding `data`, referenced once.
    pub fn new(heap: &mut ArcHeap<T>, data: T) -> (r: Arc<T>)
        requires
            old(heap).wf(),
            old(heap).len() < usize::MAX,
        ensures
            final(heap).wf(),
            r.ptr() == old(heap).len(),
            !old(heap).live(r.ptr()),
            final(heap).len() == old(heap).len() + 1,
            r.valid(final(heap)),
            forall|q: int| #[trigger] final(heap).live(q) ==> old(heap).live(q) || q == r.ptr(),
            final(heap).count(r.ptr()) == 1,
            final(heap).data(r.ptr()) == data,
            forall|q: int| #[trigger] old(heap).live(q) ==> final(heap).live(q) && final(heap).count(q)
                == old(heap).count(q) && final(heap).data(q) == old(heap).data(q),
    {
        let ptr = heap.blocks.len();
        heap.blocks.push(Some(ArcInner { count: 1, data }));
        proof {
            assert forall|p: int| #[trigger] heap.live(p) implies 1 <= heap.count(p) <= MAX_REFCOUNT by {
                if p != ptr {
                    assert(old(heap).live(p));
                }
            }
            assert forall|q: int| #[trigger] old(heap).live(q) implies heap.live(q) && heap.count(q)
                == old(heap).count(q) && heap.data(q) == old(heap).data(q) by {
                assert(heap.blocks@[q] == old(heap).blocks@[q]);
            }
        }
        Self::from_inner(ptr)
    }

    /// Whether `this` is the only `Arc` to its allocation.
    fn is_unique(&self, heap: &ArcHeap<T>) -> (r: bool)
        requires
            self.valid(heap),
        ensures
            r == (heap.count(self.ptr()) == 1),
    {
        match &heap.blocks[self.ptr] {
            Some(inner) => inner.count == 1,
            None => false,
        }
    }

    /// Returns a mutable reference into the allocation of `this` if there is no other `Arc` to
    /// it; otherwise returns `None`.
    pub fn get_mut<'a>(this: &Self, heap: &'a mut ArcHeap<T>) -> (r: Option<&'a mut T>)
        requires
            old(heap).wf(),
            this.valid(old(heap)),
        ensures
            r is Some <==> old(heap).count(this.ptr()) == 1,
            r matches Some(d) ==> *d == old(heap).data(this.ptr()) && final(heap).data(this.ptr())
                == *final(d),
            this.valid(final(heap)),
            final(heap).count(this.ptr()) == old(heap).count(this.ptr()),
            r is None ==> final(heap).data(this.ptr()) == old(heap).data(this.ptr()),
            final(heap).same_except(old(heap), this.ptr()),
    {
        if this.is_unique(heap) {
            let slot = &mut heap.blocks[this.ptr];
            let inner = slot.as_mut().unwrap();
            Some(&mut inner.data)
        } else {
            None
        }
    }

    /// The number of `Arc`s to the allocation of `this`.
    pub fn count(this: &Self, heap: &ArcHeap<T>) -> (r: usize)
        requires
            this.valid(heap),
        ensures
            r == heap.count(this.ptr()),
    {
        match &heap.blocks[this.ptr] {
            Some(inner) => inner.count,
            None => 0,
        }
    }

    /// The data of the allocation of `this`.
    pub fn deref<'a>(&self, heap: &'a ArcHeap<T>) -> (r: &'a T)
        requires
            self.valid(heap),
        ensures
            *r == heap.data(self.ptr()),
    {
        &heap.blocks[self.ptr].as_ref().unwrap().data
    }

    /// Whether `this` and `other` point to the same allocation.
    pub fn ptr_eq(this: &Self, other: &Self) -> (r: bool)
        ensures
            r == (this.ptr() == other.ptr()),
    {
        this.ptr == other.ptr
    }
}


impl<T> Arc<T> {
    /// Makes another `Arc` to the allocation of `self`, adding one to its reference count.
    ///
    /// The count may not exceed `MAX_REFCOUNT` (the call panics there).
    pub fn clone(&self, heap: &mut ArcHeap<T>) -> (r: Arc<T>)
        requires
            old(heap).wf(),
            self.valid(old(heap)),
            old(heap).count(self.ptr()) < MAX_REFCOUNT,
        ensures
            final(heap).wf(),
            r.ptr() == self.ptr(),
            r.valid(final(heap)),
            final(heap).count(self.ptr()) == old(heap).count(self.ptr()) + 1,
            final(heap).data(self.ptr()) == old(heap).data(self.ptr()),
            final(heap).same_except(old(heap), self.ptr()),
    {
        let inner = heap.blocks[self.ptr].as_mut().unwrap();
        inner.count = inner.count + 1;
        proof {
            ArcHeap::lemma_wf_changed_count(old(heap), heap, self.ptr());
        }
        Self::from_inner(self.ptr)
    }

    /// Drops `self`, removing one reference to its allocation. When the last reference goes,
    /// the allocation is deallocated and its data is returned to be dropped.
    pub fn drop(self, heap: &mut ArcHeap<T>) -> (r: Option<T>)
        requires
            old(heap).wf(),
            self.valid(old(heap)),
        ensures
            final(heap).wf(),
            final(heap).same_except(old(heap), self.ptr()),
            old(heap).count(self.ptr()) == 1 ==> !final(heap).live(self.ptr()) && r == Some(old(heap).data(self.ptr())),
            old(heap).count(self.ptr()) > 1 ==> {
                &&& r is None
                &&& final(heap).live(self.ptr())
                &&& final(heap).count(self.ptr()) == old(heap).count(self.ptr()) - 1
                &&& final(heap).data(self.ptr()) == old(heap).data(self.ptr())
            },
    {
        if Self::count(&self, heap) == 1 {
            let inner = heap.set_and_take(self.ptr);
            proof {
                ArcHeap::lemma_wf_changed_count(old(heap), heap, self.ptr());
            }
            Some(inner.data)
        } else {
            let inner = heap.blocks[self.ptr].as_mut().unwrap();
            inner.count = inner.count - 1;
            proof {
                ArcHeap::lemma_wf_changed_count(old(heap), heap, self.ptr());
            }
            None
        }
    }

    /// Returns the data if `this` is the only `Arc` to its allocation (which is deallocated);
    /// otherwise returns `this` back unchanged.
    pub fn try_unwrap(this: Self, heap: &mut ArcHeap<T>) -> (r: Result<T, Self>)
        requires
            old(heap).wf(),
            this.valid(old(heap)),
        ensures
            final(heap).wf(),
            final(heap).same_except(old(heap), this.ptr()),
            r is Ok <==> old(heap).count(this.ptr()) == 1,
            r matches Ok(v) ==> v == old(heap).data(this.ptr()) && !final(heap).live(this.ptr()),
            r matches Err(a) ==> a.ptr() == this.ptr() && final(heap).live(this.ptr()) && final(heap).count(this.ptr()) == old(heap).count(this.ptr()) && final(heap).data(this.ptr())
                == old(heap).data(this.ptr()),
    {
        if this.is_unique(heap) {
            let inner = heap.set_and_take(this.ptr);
            proof {
                ArcHeap::lemma_wf_changed_count(old(heap), heap, this.ptr());
            }
            Ok(inner.data)
        } else {
            Err(this)
        }
    }
}

impl<T> ArcHeap<T> {
    /// Changing (or removing) one allocation while keeping its count in range keeps the heap
    /// well formed.
    proof fn lemma_wf_changed_count(old_heap: &Self, new_heap: &Self, p: int)
        requires
            old_heap.wf(),
            new_heap.len() == old_heap.len(),
            forall|q: int| 0 <= q < old_heap.len() && q != p ==> new_heap.blocks@[q] == old_heap.blocks@[q],
            new_heap.live(p) ==> 1 <= new_heap.count(p) <= MAX_REFCOUNT,
        ensures
            new_heap.wf(),
            new_heap.same_except(old_heap, p),
    {
        assert forall|q: int| #[trigger] new_heap.live(q) implies 1 <= new_heap.count(q) <= MAX_REFCOUNT by {
            if q != p {
                assert(old_heap.live(q));
            }
        }
    }

    /// Removes allocation `p` and returns it.
    fn set_and_take(&mut self, p: usize) -> (r: ArcInner<T>)
        requires
            old(self).live(p as int),
        ensures
            r.count == old(self).count(p as int),
            r.data == old(self).data(p as int),
            final(self).len() == old(self).len(),
            !final(self).live(p as int),
            forall|q: int| 0 <= q < old(self).len() && q != p ==> final(self).blocks@[q] == old(self).blocks@[q],
    {
        let slot = &mut self.blocks[p];
        slot.take().unwrap()
    }
}

impl<T: Clone> Arc<T> {
    /// Makes a mutable reference into the allocation of `this`. If other `Arc`s point to the same
    /// allocation, the data is first cloned into a fresh allocation that `this` is moved to
    /// (clone-on-write), so that `this` is the only reference to the data it hands out.
    pub fn make_mut<'a>(this: &mut Self, heap: &'a mut ArcHeap<T>) -> (r: &'a mut T)
        requires
            old(heap).wf(),
            old(this).valid(old(heap)),
            old(heap).len() < usize::MAX,
        ensures
            final(heap).wf(),
            final(this).valid(final(heap)),
            final(heap).count(final(this).ptr()) == 1,
            final(heap).data(final(this).ptr()) == *final(r),
            old(heap).count(old(this).ptr()) == 1 ==> {
                &&& final(this).ptr() == old(this).ptr()
                &&& *r == old(heap).data(old(this).ptr())
                &&& final(heap).same_except(old(heap), old(this).ptr())
            },
            old(heap).count(old(this).ptr()) > 1 ==> {
                &&& final(this).ptr() == old(heap).len()
                &&& !old(heap).live(final(this).ptr())
                &&& final(heap).len() == old(heap).len() + 1
                &&& forall|q: int|
                    #[trigger] final(heap).live(q) ==> old(heap).live(q) || q == final(this).ptr()
                &&& cloned(old(heap).data(old(this).ptr()), *r)
                &&& final(heap).live(old(this).ptr())
                &&& final(heap).count(old(this).ptr()) == old(heap).count(old(this).ptr()) - 1
                &&& final(heap).data(old(this).ptr()) == old(heap).data(old(this).ptr())
                &&& forall|q: int|
                    q != old(this).ptr() && #[trigger] old(heap).live(q) ==> final(heap).live(q)
                        && final(heap).count(q) == old(heap).count(q) && final(heap).data(q) == old(heap).data(q)
            },
    {
        if !this.is_unique(heap) {
            let data = this.deref(heap).clone();
            let inner = heap.blocks[this.ptr].as_mut().unwrap();
            inner.count = inner.count - 1;
            proof {
                ArcHeap::lemma_wf_changed_count(old(heap), heap, this.ptr());
            }
            let ghost mid = *heap;
            let fresh = Arc::new(heap, data);
            *this = fresh;
            proof {
                assert(mid.live(old(this).ptr()));
                assert(heap.live(old(this).ptr()));
                assert forall|q: int|
                    q != old(this).ptr() && #[trigger] old(heap).live(q) implies heap.live(q)
                        && heap.count(q) == old(heap).count(q) && heap.data(q) == old(heap).data(q) by {
                    assert(mid.live(q));
                }
            }
        }
        proof {
            assert forall|q: int| #[trigger] heap.live(q) implies old(heap).live(q) || q == this.ptr() by {
                if q != this.ptr() && !old(heap).live(q) {
                    assert(q < old(heap).len());
                }
            }
        }
        heap.data_mut(this.ptr)
    }
}

impl<T> ArcHeap<T> {
    /// A mutable reference to the data of live allocation `p`; nothing else changes.
    fn data_mut(&mut self, p: usize) -> (r: &mut T)
        requires
            old(self).live(p as int),
        ensures
            *r == old(self).data(p as int),
            final(self).data(p as int) == *final(r),
            final(self).len() == old(self).len(),
            final(self).live(p as int),
            final(self).count(p as int) == old(self).count(p as int),
            forall|q: int| 0 <= q < old(self).len() && q != p ==> #[trigger] final(self).blocks@[q] == old(self).blocks@[q],
            forall|q: int|
                #[trigger] final(self).live(q) == old(self).live(q) && (old(self).live(q)
                    ==> final(self).count(q) == old(self).count(q) && (q != p ==> final(self).data(q)
                    == old(self).data(q))),
    {
        let slot = &mut self.blocks[p];
        let inner = slot.as_mut().unwrap();
        &mut inner.data
    }
}

} // verus!
