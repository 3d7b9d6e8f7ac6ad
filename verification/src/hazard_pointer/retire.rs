//! Lists of retired blocks.

use super::hazard::HazardBag;
use vstd::prelude::*;

verus! {

broadcast use vstd::std_specs::hash::group_hash_axioms;

/// The retired blocks of `s` that are protected by `hazards`, in retirement order.
pub open spec fn protected_in(s: Seq<usize>, hazards: Set<usize>) -> Seq<usize> {
    s.filter(|p: usize| hazards.contains(p))
}

/// The retired blocks of `s` that no slot of `hazards` protects, in retirement order.
pub open spec fn unprotected_in(s: Seq<usize>, hazards: Set<usize>) -> Seq<usize> {
    s.filter(|p: usize| !hazards.contains(p))
}

/// A block that an active slot protects is never freed: it is not among the blocks that a
/// collection frees, and if it was retired it stays retired.
pub proof fn lemma_protected_not_freed(retired: Seq<usize>, hazards: Set<usize>, p: usize)
    requires
        hazards.contains(p),
    ensures
        !unprotected_in(retired, hazards).contains(p),
        retired.contains(p) ==> protected_in(retired, hazards).contains(p),
{
    let freed = unprotected_in(retired, hazards);
    if freed.contains(p) {
        let i = choose|i: int| 0 <= i < freed.len() && freed[i] == p;
        retired.lemma_filter_pred(|q: usize| !hazards.contains(q), i);
    }
    if retired.contains(p) {
        let i = choose|i: int| 0 <= i < retired.len() && retired[i] == p;
        retired.lemma_filter_contains(|q: usize| hazards.contains(q), i);
    }
}

/// A collection loses no block and invents none: each retired block is either kept or freed,
/// and the two lists together are as long as the retired list.
pub proof fn lemma_collect_partitions(retired: Seq<usize>, hazards: Set<usize>)
    ensures
        protected_in(retired, hazards).len() + unprotected_in(retired, hazards).len()
            == retired.len(),
        forall|p: usize|
            retired.contains(p) <==> (protected_in(retired, hazards).contains(p)
                || unprotected_in(retired, hazards).contains(p)),
    decreases retired.len(),
{
    let keep = |q: usize| hazards.contains(q);
    let free = |q: usize| !hazards.contains(q);
    if retired.len() > 0 {
        let rest = retired.drop_last();
        lemma_collect_partitions(rest, hazards);
        reveal(Seq::filter);
        assert(retired =~= rest.push(retired.last()));
    }
    assert forall|p: usize|
        retired.contains(p) <==> (protected_in(retired, hazards).contains(p)
            || unprotected_in(retired, hazards).contains(p)) by {
        if retired.contains(p) {
            let i = choose|i: int| 0 <= i < retired.len() && retired[i] == p;
            if hazards.contains(p) {
                retired.lemma_filter_contains(keep, i);
            } else {
                retired.lemma_filter_contains(free, i);
            }
        }
        if protected_in(retired, hazards).contains(p) {
            retired.lemma_filter_contains_rev(keep, p);
        }
        if unprotected_in(retired, hazards).contains(p) {
            retired.lemma_filter_contains_rev(free, p);
        }
    }
}

/// With no slot protecting anything, a collection frees every retired block.
pub proof fn lemma_collect_unprotected(retired: Seq<usize>)
    ensures
        unprotected_in(retired, Set::empty()) == retired,
        protected_in(retired, Set::empty()) == Seq::<usize>::empty(),
    decreases retired.len(),
{
    reveal(Seq::filter);
    if retired.len() > 0 {
        lemma_collect_unprotected(retired.drop_last());
        assert(retired =~= retired.drop_last().push(retired.last()));
    }
    assert(unprotected_in(retired, Set::empty()) =~= retired);
    assert(protected_in(retired, Set::empty()) =~= Seq::<usize>::empty());
}

/// A list of retired blocks that wait to be freed.
#[derive(Debug)]
pub struct RetiredSet {
    inner: Vec<usize>,
}

impl RetiredSet {
    /// The number of retired blocks at which `retire` triggers a `collect`.
    pub const THRESHOLD: usize = 64;

    /// The retired blocks not yet freed, in retirement order.
    pub closed spec fn retired(&self) -> Seq<usize> {
        self.inner@
    }

    /// Creates a new, empty list of retired blocks.
    pub fn new() -> (r: Self)
        ensures
            r.retired() == Seq::<usize>::empty(),
    {
        RetiredSet { inner: Vec::new() }
    }

    /// Retires `pointer`. Once `THRESHOLD` blocks are retired, collects them; returns the blocks
    /// that were freed (empty when no collection took place).
    pub fn retire(&mut self, hazards: &HazardBag, pointer: usize) -> (freed: Vec<usize>)
        ensures
            ({
                let pushed = old(self).retired().push(pointer);
                if pushed.len() < Self::THRESHOLD {
                    &&& final(self).retired() == pushed
                    &&& freed@ == Seq::<usize>::empty()
                } else {
                    &&& final(self).retired() == protected_in(pushed, hazards.hazards())
                    &&& freed@ == unprotected_in(pushed, hazards.hazards())
                }
            }),
    {
        self.inner.push(pointer);
        if self.inner.len() >= Self::THRESHOLD {
            self.collect(hazards)
        } else {
            Vec::new()
        }
    }

    /// Frees the retired blocks that no slot of `hazards` protects: they are removed from the
    /// list and returned, in retirement order. Protected blocks stay retired.
    pub fn collect(&mut self, hazards: &HazardBag) -> (freed: Vec<usize>)
        ensures
            final(self).retired() == protected_in(old(self).retired(), hazards.hazards()),
            freed@ == unprotected_in(old(self).retired(), hazards.hazards()),
    {
        let set = hazards.all_hazards();
        let ghost h = hazards.hazards();
        let ghost s = self.inner@;
        let mut kept: Vec<usize> = Vec::new();
        let mut freed: Vec<usize> = Vec::new();
        let mut i: usize = 0;
        while i < self.inner.len()
            invariant
                self.inner@ == s,
                set@ == h,
                i <= s.len(),
                kept@ == protected_in(s.take(i as int), h),
                freed@ == unprotected_in(s.take(i as int), h),
            decreases s.len() - i,
        {
            let p = self.inner[i];
            proof {
                assert(s.take(i + 1).drop_last() =~= s.take(i as int));
                assert(s.take(i + 1).last() == p);
                reveal(Seq::filter);
            }
            if set.contains(&p) {
                kept.push(p);
            } else {
                freed.push(p);
            }
            i = i + 1;
        }
        proof {
            assert(s.take(s.len() as int) =~= s);
        }
        self.inner = kept;
        freed
    }
}

/// Frees the blocks of `retired` that no slot of `hazards` protects, and returns them.
pub fn collect(retired: &mut RetiredSet, hazards: &HazardBag) -> (freed: Vec<usize>)
    ensures
        final(retired).retired() == protected_in(old(retired).retired(), hazards.hazards()),
        freed@ == unprotected_in(old(retired).retired(), hazards.hazards()),
{
    retired.collect(hazards)
}

} // verus!
