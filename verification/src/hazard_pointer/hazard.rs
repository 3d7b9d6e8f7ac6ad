//! Hazard slots and the shields that own them.

use std::collections::HashSet;
use vstd::prelude::*;

verus! {

broadcast use vstd::std_specs::hash::group_hash_axioms;

/// The address that stands for the null pointer.
pub const NULL: usize = 0;

/// One hazard slot: whether a `Shield` owns it, and the address it announces.
#[derive(Debug)]
pub struct HazardSlot {
    /// Whether this slot is occupied by a `Shield`.
    pub active: bool,
    /// The announced address.
    pub hazard: usize,
}

impl HazardSlot {
    /// A fresh slot: owned by the shield that allocates it, announcing nothing.
    fn new() -> (r: Self)
        ensures
            r.active,
            r.hazard == NULL,
    {
        HazardSlot { active: true, hazard: NULL }
    }
}

/// A grow-only bag (multiset) of hazard slots. Slots are never removed; a released slot is
/// deactivated and recycled for later shields.
#[derive(Debug)]
pub struct HazardBag {
    slots: Vec<HazardSlot>,
}

/// The addresses announced by the active slots among the first `n` slots of `s`.
pub open spec fn hazards_upto(s: Seq<HazardSlot>, n: int) -> Set<usize> {
    Set::new(|p: usize| exists|i: int| 0 <= i < n && #[trigger] s[i].active && s[i].hazard == p)
}

/// Some active slot of `s` other than slot `i` announces `q`.
pub open spec fn held_by_others(s: Seq<HazardSlot>, i: int, q: usize) -> bool {
    exists|j: int| 0 <= j < s.len() && j != i && #[trigger] s[j].active && s[j].hazard == q
}

/// After slot `i` is set to announce `v`, the announced addresses are `v` and those that other
/// active slots announce.
pub proof fn lemma_hazards_after_set(s: Seq<HazardSlot>, i: int, v: usize)
    requires
        0 <= i < s.len(),
    ensures
        forall|q: usize|
            #[trigger] hazards_upto(s.update(i, HazardSlot { active: true, hazard: v }), s.len() as int).contains(q)
                <==> (q == v || held_by_others(s, i, q)),
{
    let t = s.update(i, HazardSlot { active: true, hazard: v });
    assert forall|q: usize|
        #[trigger] hazards_upto(t, s.len() as int).contains(q) <==> (q == v || held_by_others(s, i, q)) by {
        if hazards_upto(t, s.len() as int).contains(q) && q != v {
            let j = choose|j: int| 0 <= j < s.len() && #[trigger] t[j].active && t[j].hazard == q;
            assert(j != i);
            assert(s[j] == t[j]);
        }
        if q == v {
            assert(t[i].active && t[i].hazard == q);
        }
        if held_by_others(s, i, q) {
            let j = choose|j: int| 0 <= j < s.len() && j != i && #[trigger] s[j].active && s[j].hazard == q;
            assert(t[j] == s[j]);
        }
    }
}

/// A new shield protects nothing: a block that was unprotected before a shield was created is
/// still unprotected after, and a collection over the new hazards frees it if it was retired.
/// `before` and `after` are the protected addresses before and after `Shield::new`.
pub proof fn lemma_new_shield_protects_nothing(before: Set<usize>, after: Set<usize>, retired: Seq<usize>, p: usize)
    requires
        after == before.insert(NULL),
        !before.contains(p),
        p != NULL,
    ensures
        !after.contains(p),
        retired.contains(p) ==> crate::hazard_pointer::retire::unprotected_in(retired, after).contains(p),
{
    if retired.contains(p) {
        let i = choose|i: int| 0 <= i < retired.len() && retired[i] == p;
        retired.lemma_filter_contains(|q: usize| !after.contains(q), i);
    }
}

/// Whether some slot of `s` is inactive.
pub open spec fn has_inactive(s: Seq<HazardSlot>) -> bool {
    exists|i: int| 0 <= i < s.len() && !#[trigger] s[i].active
}

impl HazardBag {
    /// The slots of the bag, in allocation order.
    pub closed spec fn slots(&self) -> Seq<HazardSlot> {
        self.slots@
    }

    /// The addresses announced by active slots: the set of protected blocks.
    pub open spec fn hazards(&self) -> Set<usize> {
        hazards_upto(self.slots(), self.slots().len() as int)
    }

    /// Whether slot `i` exists and is owned by a shield.
    pub open spec fn owns(&self, i: int) -> bool {
        0 <= i < self.slots().len() && self.slots()[i].active
    }

    /// Creates a new, empty hazard bag.
    pub fn new() -> (r: Self)
        ensures
            r.slots().len() == 0,
    {
        HazardBag { slots: Vec::new() }
    }

    /// The number of slots in the bag.
    pub fn num_slots(&self) -> (r: usize)
        ensures
            r == self.slots().len(),
    {
        self.slots.len()
    }

    /// Finds an inactive slot, activates it and returns its position. Returns `None` iff every
    /// slot is active.
    fn try_acquire_inactive(&mut self) -> (r: Option<usize>)
        ensures
            r is None <==> !has_inactive(old(self).slots()),
            r is None ==> final(self).slots() == old(self).slots(),
            r matches Some(i) ==> {
                &&& i < old(self).slots().len()
                &&& !old(self).slots()[i as int].active
                &&& final(self).slots().len() == old(self).slots().len()
                &&& final(self).slots()[i as int].active
                &&& final(self).slots()[i as int].hazard == NULL
                &&& forall|j: int|
                    0 <= j < old(self).slots().len() && j != i ==> #[trigger] final(self).slots()[j]
                        == old(self).slots()[j]
            },
    {
        let mut i: usize = 0;
        while i < self.slots.len()
            invariant
                i <= self.slots@.len(),
                self.slots@ == old(self).slots(),
                forall|j: int| 0 <= j < i ==> #[trigger] self.slots@[j].active,
            decreases self.slots@.len() - i,
        {
            if !self.slots[i].active {
                self.slots.set(i, HazardSlot { active: true, hazard: NULL });
                return Some(i);
            }
            i = i + 1;
        }
        None
    }

    /// Acquires a slot, either by recycling an inactive one or by allocating a new one, and
    /// returns its position. A new slot is allocated only when every slot is active.
    fn acquire_slot(&mut self) -> (r: usize)
        requires
            old(self).slots().len() < usize::MAX,
        ensures
            final(self).owns(r as int),
            !old(self).owns(r as int),
            has_inactive(old(self).slots()) ==> final(self).slots().len() == old(self).slots().len(),
            !has_inactive(old(self).slots()) ==> {
                &&& r == old(self).slots().len()
                &&& final(self).slots().len() == old(self).slots().len() + 1
                &&& final(self).slots()[r as int].hazard == NULL
            },
            forall|j: int|
                0 <= j < old(self).slots().len() && j != r ==> #[trigger] final(self).slots()[j]
                    == old(self).slots()[j],
            final(self).slots()[r as int].hazard == NULL,
    {
        match self.try_acquire_inactive() {
            Some(i) => i,
            None => {
                let i = self.slots.len();
                self.slots.push(HazardSlot::new());
                i
            },
        }
    }

    /// Returns all the addresses announced by active slots.
    pub fn all_hazards(&self) -> (r: HashSet<usize>)
        ensures
            r@ == self.hazards(),
    {
        let mut set: HashSet<usize> = HashSet::new();
        let mut i: usize = 0;
        while i < self.slots.len()
            invariant
                i <= self.slots@.len(),
                set@ == hazards_upto(self.slots@, i as int),
            decreases self.slots@.len() - i,
        {
            let slot = &self.slots[i];
            if slot.active {
                set.insert(slot.hazard);
            }
            proof {
                let s = self.slots@;
                assert forall|p: usize| set@.contains(p) <==> #[trigger] hazards_upto(s, i + 1).contains(p) by {
                    if hazards_upto(s, i + 1).contains(p) {
                        let k = choose|k: int| 0 <= k < i + 1 && #[trigger] s[k].active && s[k].hazard == p;
                        if k < i {
                            assert(hazards_upto(s, i as int).contains(p));
                        }
                    }
                    if hazards_upto(s, i as int).contains(p) {
                        let k = choose|k: int| 0 <= k < i && #[trigger] s[k].active && s[k].hazard == p;
                        assert(0 <= k < i + 1 && s[k].active && s[k].hazard == p);
                    }
                    if slot.active && p == slot.hazard {
                        assert(s[i as int].active && s[i as int].hazard == p);
                    }
                }
                assert(set@ =~= hazards_upto(s, i + 1));
            }
            i = i + 1;
        }
        set
    }
}

/// Ownership of one hazard slot of a `HazardBag`, named by its position in the bag.
#[derive(Debug)]
pub struct Shield {
    slot: usize,
}

impl Shield {
    /// The position of the owned slot.
    pub closed spec fn slot(&self) -> int {
        self.slot as int
    }

    /// Whether this shield's slot exists in `hazards` and is active.
    pub open spec fn valid(&self, hazards: &HazardBag) -> bool {
        hazards.owns(self.slot())
    }

    /// Creates a new shield by acquiring a slot of `hazards`; an inactive slot is recycled if
    /// there is one.
    pub fn new(hazards: &mut HazardBag) -> (r: Self)
        requires
            old(hazards).slots().len() < usize::MAX,
        ensures
            r.valid(final(hazards)),
            !old(hazards).owns(r.slot()),
            has_inactive(old(hazards).slots()) ==> final(hazards).slots().len() == old(hazards).slots().len(),
            !has_inactive(old(hazards).slots()) ==> final(hazards).slots().len() == old(hazards).slots().len() + 1,
            final(hazards).hazards() == old(hazards).hazards().insert(
                final(hazards).slots()[r.slot()].hazard,
            ),
            final(hazards).slots()[r.slot()] == (HazardSlot { active: true, hazard: NULL }),
            final(hazards).hazards() == old(hazards).hazards().insert(NULL),
            forall|j: int|
                0 <= j < old(hazards).slots().len() && j != r.slot() ==> #[trigger] final(hazards).slots()[j] == old(hazards).slots()[j],
    {
        let slot = hazards.acquire_slot();
        proof {
            lemma_hazards_after_activate(old(hazards).slots(), hazards.slots(), slot as int);
        }
        Shield { slot }
    }

    /// Announces `pointer` in the owned slot.
    pub fn set(&self, hazards: &mut HazardBag, pointer: usize)
        requires
            self.valid(old(hazards)),
        ensures
            final(hazards).slots() == old(hazards).slots().update(
                self.slot(),
                HazardSlot { active: true, hazard: pointer },
            ),
            self.valid(final(hazards)),
            final(hazards).hazards().contains(pointer),
            forall|q: usize|
                #[trigger] final(hazards).hazards().contains(q) <==> (q == pointer || held_by_others(
                    old(hazards).slots(),
                    self.slot(),
                    q,
                )),
    {
        hazards.slots.set(self.slot, HazardSlot { active: true, hazard: pointer });
        proof {
            lemma_hazards_after_set(old(hazards).slots(), self.slot(), pointer);
            let s = hazards.slots@;
            assert(s[self.slot()].active && s[self.slot()].hazard == pointer);
        }
    }

    /// Clears the owned slot.
    pub fn clear(&self, hazards: &mut HazardBag)
        requires
            self.valid(old(hazards)),
        ensures
            final(hazards).slots() == old(hazards).slots().update(
                self.slot(),
                HazardSlot { active: true, hazard: NULL },
            ),
            self.valid(final(hazards)),
            forall|q: usize|
                q != NULL ==> (#[trigger] final(hazards).hazards().contains(q) <==> held_by_others(
                    old(hazards).slots(),
                    self.slot(),
                    q,
                )),
    {
        self.set(hazards, NULL)
    }

    /// Checks that the source still holds `pointer`. If not, returns the value it holds now.
    pub fn validate(pointer: usize, src: &usize) -> (r: Result<(), usize>)
        ensures
            r == (if *src == pointer { Ok::<(), usize>(()) } else { Err(*src) }),
    {
        if *src == pointer {
            Ok(())
        } else {
            Err(*src)
        }
    }

    /// Tries to protect `pointer` obtained from `src`: announces it, then validates it. On
    /// failure the slot is cleared and the value `src` holds now is returned.
    pub fn try_protect(&self, hazards: &mut HazardBag, pointer: usize, src: &usize) -> (r: Result<
        (),
        usize,
    >)
        requires
            self.valid(old(hazards)),
        ensures
            self.valid(final(hazards)),
            r == (if *src == pointer { Ok::<(), usize>(()) } else { Err(*src) }),
            r is Ok ==> final(hazards).slots() == old(hazards).slots().update(
                self.slot(),
                HazardSlot { active: true, hazard: pointer },
            ),
            r is Err ==> final(hazards).slots() == old(hazards).slots().update(
                self.slot(),
                HazardSlot { active: true, hazard: NULL },
            ),
    {
        self.set(hazards, pointer);
        let r = Self::validate(pointer, src);
        if r.is_err() {
            self.clear(hazards);
            proof {
                assert(hazards.slots@ =~= old(hazards).slots().update(
                    self.slot(),
                    HazardSlot { active: true, hazard: NULL },
                ));
            }
        }
        r
    }

    /// The position of the owned slot in the bag.
    pub fn slot_index(&self) -> (r: usize)
        ensures
            r == self.slot(),
    {
        self.slot
    }

    /// Gets a pointer from `src` and protects it; returns the protected pointer.
    pub fn protect(&self, hazards: &mut HazardBag, src: &usize) -> (r: usize)
        requires
            self.valid(old(hazards)),
        ensures
            r == *src,
            self.valid(final(hazards)),
            final(hazards).slots() == old(hazards).slots().update(
                self.slot(),
                HazardSlot { active: true, hazard: r },
            ),
            final(hazards).hazards().contains(r),
    {
        let mut pointer = *src;
        loop
            invariant
                self.valid(hazards),
                hazards.slots().len() == old(hazards).slots().len(),
                forall|j: int|
                    0 <= j < old(hazards).slots().len() && j != self.slot() ==> #[trigger] hazards.slots()[j]
                        == old(hazards).slots()[j],
            decreases (if pointer == *src { 0int } else { 1int }),
        {
            match self.try_protect(hazards, pointer, src) {
                Ok(()) => {
                    proof {
                        assert(hazards.slots@ =~= old(hazards).slots().update(
                            self.slot(),
                            HazardSlot { active: true, hazard: pointer },
                        ));
                        let s = hazards.slots@;
                        assert(s[self.slot()].active && s[self.slot()].hazard == pointer);
                    }
                    return pointer;
                },
                Err(new) => {
                    pointer = new;
                },
            }
        }
    }

    /// Clears the owned slot and gives it back to `hazards` for recycling.
    pub fn release(self, hazards: &mut HazardBag)
        requires
            self.valid(old(hazards)),
        ensures
            final(hazards).slots() == old(hazards).slots().update(
                self.slot(),
                HazardSlot { active: false, hazard: NULL },
            ),
            has_inactive(final(hazards).slots()),
    {
        hazards.slots.set(self.slot, HazardSlot { active: false, hazard: NULL });
        proof {
            assert(!hazards.slots@[self.slot()].active);
        }
    }
}

/// Activating slot `i` adds at most that slot's announced address to the protected set.
proof fn lemma_hazards_after_activate(old_s: Seq<HazardSlot>, new_s: Seq<HazardSlot>, i: int)
    requires
        0 <= i < new_s.len(),
        new_s[i].active,
        old_s.len() <= new_s.len() <= old_s.len() + 1,
        i < old_s.len() ==> !old_s[i].active,
        i == old_s.len() ==> new_s[i].hazard == NULL && new_s.len() == old_s.len() + 1,
        new_s.len() == old_s.len() + 1 ==> i == old_s.len(),
        forall|j: int| 0 <= j < old_s.len() && j != i ==> #[trigger] new_s[j] == old_s[j],
    ensures
        hazards_upto(new_s, new_s.len() as int) == hazards_upto(old_s, old_s.len() as int).insert(new_s[i].hazard),
{
    let a = hazards_upto(new_s, new_s.len() as int);
    let b = hazards_upto(old_s, old_s.len() as int);
    let h = new_s[i].hazard;
    assert forall|p: usize| a.contains(p) <==> #[trigger] b.insert(h).contains(p) by {
        if a.contains(p) {
            let k = choose|k: int| 0 <= k < new_s.len() && #[trigger] new_s[k].active && new_s[k].hazard == p;
            if k != i {
                assert(old_s[k].active && old_s[k].hazard == p);
            }
        }
        if b.contains(p) {
            let k = choose|k: int| 0 <= k < old_s.len() && #[trigger] old_s[k].active && old_s[k].hazard == p;
            assert(k != i);
            assert(new_s[k].active && new_s[k].hazard == p);
        }
        if p == h {
            assert(new_s[i].active && new_s[i].hazard == p);
        }
    }
    assert(a =~= b.insert(h));
}

} // verus!
