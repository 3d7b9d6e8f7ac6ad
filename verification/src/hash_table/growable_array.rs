//! Growable array.
//!
//! The array is a tree of segments of `SEGMENT_SIZE` slots. A segment at height zero holds
//! elements; a segment above holds children. An index is split into digits of
//! `SEGMENT_LOGSIZE` bits: the digit at height `h` selects the slot of the segment at height
//! `h` on the way down. A tree of `height` levels covers the indices below
//! `SEGMENT_SIZE ^ height`; when a larger index is stored, the old root becomes child zero of a
//! new root one level higher. Segments are allocated on demand.

use vstd::prelude::*;

verus! {

/// The number of index bits that one segment resolves.
pub const SEGMENT_LOGSIZE: usize = 10;

/// The number of slots of a segment.
pub const SEGMENT_SIZE: usize = 1024;

/// The greatest height of a tree: seven digits cover every index.
pub const MAX_HEIGHT: usize = 7;

/// `SEGMENT_SIZE` to the power `n`.
pub open spec fn pow_seg(n: nat) -> nat
    decreases n,
{
    if n == 0 {
        1
    } else {
        SEGMENT_SIZE as nat * pow_seg((n - 1) as nat)
    }
}

/// `i` with its lowest `n` digits removed.
pub open spec fn shift(i: nat, n: nat) -> nat
    decreases n,
{
    if n == 0 {
        i
    } else {
        shift(i / SEGMENT_SIZE as nat, (n - 1) as nat)
    }
}

/// The digit of `i` at height `n`.
pub open spec fn digit(i: nat, n: nat) -> nat {
    shift(i, n) % SEGMENT_SIZE as nat
}

/// `i` and `j` have the same digits at heights `0..=h`.
pub open spec fn same_path(i: nat, j: nat, h: nat) -> bool
    decreases h,
{
    digit(i, h) == digit(j, h) && (h == 0 || same_path(i, j, (h - 1) as nat))
}

proof fn lemma_shift_step(i: nat, n: nat)
    ensures
        shift(i, n + 1) == shift(i, n) / SEGMENT_SIZE as nat,
        shift(i, n) == shift(i, n + 1) * SEGMENT_SIZE as nat + digit(i, n),
    decreases n,
{
    if n == 0 {
        assert(shift(i, 1) == shift(i / SEGMENT_SIZE as nat, 0));
        assert(i == (i / 1024) * 1024 + i % 1024) by (nonlinear_arith);
    } else {
        lemma_shift_step(i / SEGMENT_SIZE as nat, (n - 1) as nat);
        assert(shift(i, n + 1) == shift(i / SEGMENT_SIZE as nat, n));
        assert(shift(i, n) == shift(i / SEGMENT_SIZE as nat, (n - 1) as nat));
    }
}

/// `shift(i, n)` is zero exactly when `i` is below `SEGMENT_SIZE ^ n`.
proof fn lemma_shift_zero(i: nat, n: nat)
    ensures
        shift(i, n) == 0 <==> i < pow_seg(n),
    decreases n,
{
    if n > 0 {
        let p = pow_seg((n - 1) as nat);
        assert(i / 1024 < p <==> i < 1024 * p) by (nonlinear_arith);
        lemma_shift_zero(i / SEGMENT_SIZE as nat, (n - 1) as nat);
    }
}

/// Every index fits a tree of `MAX_HEIGHT` levels.
proof fn lemma_fits_max(i: usize)
    ensures
        shift(i as nat, MAX_HEIGHT as nat) == 0,
{
    reveal_with_fuel(pow_seg, 8);
    assert(pow_seg(7) == 0x400000000000000000);
    lemma_shift_zero(i as nat, MAX_HEIGHT as nat);
}

/// `i` and `j` agree on every digit at `h` and below, and on everything above (both have
/// nothing left above height `h`): they are the same index.
proof fn lemma_same_path_equal(i: nat, j: nat, h: nat)
    requires
        same_path(i, j, h),
        shift(i, h + 1) == shift(j, h + 1),
    ensures
        i == j,
    decreases h,
{
    lemma_shift_step(i, h);
    lemma_shift_step(j, h);
    if h > 0 {
        lemma_same_path_equal(i, j, (h - 1) as nat);
    }
}

/// A segment: a segment at height zero holds elements, a segment above holds children.
#[derive(Debug)]
pub enum Segment<T> {
    Elements(Vec<Option<T>>),
    Children(Vec<Option<Box<Segment<T>>>>),
}

impl<T> Segment<T> {
    /// The segment has height `h` and full-sized slots, and so has each of its children.
    pub open spec fn wf(&self, h: nat) -> bool
        decreases h,
    {
        match self {
            Segment::Elements(e) => h == 0 && e@.len() == SEGMENT_SIZE,
            Segment::Children(c) => h > 0 && c@.len() == SEGMENT_SIZE && forall|d: int|
                0 <= d < SEGMENT_SIZE ==> (#[trigger] c@[d] matches Some(b) ==> b.wf(
                    (h - 1) as nat,
                )),
        }
    }

    /// The element that the segment, taken at height `h`, holds for index `i`.
    pub open spec fn lookup(&self, h: nat, i: nat) -> Option<T>
        decreases h,
    {
        match self {
            Segment::Elements(e) => if h == 0 {
                e@[digit(i, 0) as int]
            } else {
                None
            },
            Segment::Children(c) => if h > 0 {
                match c@[digit(i, h) as int] {
                    Some(b) => b.lookup((h - 1) as nat, i),
                    None => None,
                }
            } else {
                None
            },
        }
    }

    /// A segment at height zero with every slot empty.
    fn new_elements() -> (r: Self)
        ensures
            r.wf(0),
            forall|i: nat| r.lookup(0, i) is None,
    {
        let mut e: Vec<Option<T>> = Vec::new();
        while e.len() < SEGMENT_SIZE
            invariant
                e@.len() <= SEGMENT_SIZE,
                forall|d: int| 0 <= d < e@.len() ==> #[trigger] e@[d] is None,
            decreases SEGMENT_SIZE - e@.len(),
        {
            e.push(None);
        }
        Segment::Elements(e)
    }

    /// A segment at height `h > 0` with every slot empty.
    fn new_children(h: Ghost<nat>) -> (r: Self)
        requires
            h@ > 0,
        ensures
            r.wf(h@),
            forall|i: nat| r.lookup(h@, i) is None,
    {
        let mut c: Vec<Option<Box<Segment<T>>>> = Vec::new();
        while c.len() < SEGMENT_SIZE
            invariant
                c@.len() <= SEGMENT_SIZE,
                forall|d: int| 0 <= d < c@.len() ==> #[trigger] c@[d] is None,
            decreases SEGMENT_SIZE - c@.len(),
        {
            c.push(None);
        }
        Segment::Children(c)
    }

    /// A new segment at height `h`, with every slot empty.
    fn new_at(h: usize) -> (r: Self)
        ensures
            r.wf(h as nat),
            forall|i: nat| r.lookup(h as nat, i) is None,
    {
        if h == 0 {
            Self::new_elements()
        } else {
            Self::new_children(Ghost(h as nat))
        }
    }
}

/// `i` with its lowest `n` digits removed.
fn shift_exec(i: usize, n: usize) -> (r: usize)
    ensures
        r == shift(i as nat, n as nat),
{
    let mut x = i;
    let mut k: usize = 0;
    while k < n
        invariant
            k <= n,
            x == shift(i as nat, k as nat),
        decreases n - k,
    {
        proof {
            lemma_shift_step(i as nat, k as nat);
        }
        x = x / SEGMENT_SIZE;
        k = k + 1;
    }
    x
}

/// The digit of `i` at height `n`.
fn digit_exec(i: usize, n: usize) -> (r: usize)
    ensures
        r == digit(i as nat, n as nat),
        r < SEGMENT_SIZE,
{
    shift_exec(i, n) % SEGMENT_SIZE
}

/// Growable array of `T`, indexed by `usize`.
#[derive(Debug)]
pub struct GrowableArray<T> {
    root: Option<Box<Segment<T>>>,
    /// The number of levels of the tree: the root is at height `height - 1`.
    height: usize,
}

impl<T> GrowableArray<T> {
    /// The number of levels of the tree.
    pub closed spec fn levels(&self) -> nat {
        self.height as nat
    }

    /// The element at index `i`, if any.
    pub closed spec fn entry(&self, i: usize) -> Option<T> {
        match self.root {
            Some(r) => if self.height > 0 && shift(i as nat, self.height as nat) == 0 {
                r.lookup((self.height - 1) as nat, i as nat)
            } else {
                None
            },
            None => None,
        }
    }

    /// The elements of the array, by index.
    pub open spec fn view(&self) -> Map<usize, T> {
        Map::new(|i: usize| self.entry(i) is Some, |i: usize| self.entry(i)->0)
    }

    /// The tree invariant: the height is bounded, there is a root exactly when the height is
    /// positive, and the root is a well-formed segment at height `height - 1`.
    pub closed spec fn wf(&self) -> bool {
        &&& self.height <= MAX_HEIGHT
        &&& (self.root is Some <==> self.height > 0)
        &&& self.root matches Some(r) ==> r.wf((self.height - 1) as nat)
    }

    /// Creates a new, empty growable array.
    pub fn new() -> (r: Self)
        ensures
            r.wf(),
            r@ == Map::<usize, T>::empty(),
    {
        let r = GrowableArray { root: None, height: 0 };
        assert(r@ =~= Map::<usize, T>::empty());
        r
    }

    fn seg_get<'a>(seg: &'a Segment<T>, h: usize, i: usize) -> (r: Option<&'a T>)
        requires
            seg.wf(h as nat),
        ensures
            r matches Some(x) ==> seg.lookup(h as nat, i as nat) == Some(*x),
            r is None ==> seg.lookup(h as nat, i as nat) is None,
        decreases h,
    {
        let d = digit_exec(i, h);
        match seg {
            Segment::Elements(e) => match &e[d] {
                Some(x) => Some(x),
                None => None,
            },
            Segment::Children(c) => match &c[d] {
                Some(b) => Self::seg_get(b, h - 1, i),
                None => None,
            },
        }
    }

    /// Returns the element at `index`, if any. Allocates nothing.
    pub fn get(&self, index: usize) -> (r: Option<&T>)
        requires
            self.wf(),
        ensures
            r matches Some(x) ==> self@.contains_key(index) && self@[index] == *x,
            r is None ==> !self@.contains_key(index),
    {
        match &self.root {
            None => None,
            Some(root) => {
                if shift_exec(index, self.height) == 0 {
                    Self::seg_get(root, self.height - 1, index)
                } else {
                    None
                }
            },
        }
    }

    fn seg_swap(seg: &mut Segment<T>, h: usize, i: usize, v: Option<T>) -> (r: Option<T>)
        requires
            old(seg).wf(h as nat),
        ensures
            final(seg).wf(h as nat),
            r == old(seg).lookup(h as nat, i as nat),
            forall|j: nat|
                #[trigger] final(seg).lookup(h as nat, j) == if same_path(i as nat, j, h as nat) {
                    v
                } else {
                    old(seg).lookup(h as nat, j)
                },
        decreases h,
    {
        let d = digit_exec(i, h);
        match seg {
            Segment::Elements(e) => {
                let mut t = v;
                std::mem::swap(&mut e[d], &mut t);
                t
            },
            Segment::Children(c) => {
                let ghost oc = c@;
                let mut child: Option<Box<Segment<T>>> = None;
                std::mem::swap(&mut c[d], &mut child);
                let mut b = match child {
                    Some(b) => b,
                    None => Box::new(Segment::new_at(h - 1)),
                };
                let ghost start_b = *b;
                proof {
                    assert forall|j: nat| digit(j, h as nat) == d implies #[trigger] start_b.lookup(
                        (h - 1) as nat,
                        j,
                    ) == old(seg).lookup(h as nat, j) by {}
                }
                let r = Self::seg_swap(&mut *b, h - 1, i, v);
                let ghost nb = *b;
                c[d] = Some(b);
                proof {
                    assert forall|j: nat|
                        #[trigger] seg.lookup(h as nat, j) == if same_path(i as nat, j, h as nat) {
                            v
                        } else {
                            old(seg).lookup(h as nat, j)
                        } by {
                        if digit(j, h as nat) != d {
                            assert(c@[digit(j, h as nat) as int] == oc[digit(j, h as nat) as int]);
                        } else {
                            assert(nb.lookup((h - 1) as nat, j) == if same_path(
                                i as nat,
                                j,
                                (h - 1) as nat,
                            ) {
                                v
                            } else {
                                start_b.lookup((h - 1) as nat, j)
                            });
                            assert(start_b.lookup((h - 1) as nat, j) == old(seg).lookup(h as nat, j));
                        }
                    }
                    assert(start_b.lookup((h - 1) as nat, i as nat) == old(seg).lookup(h as nat, i as nat));
                    assert forall|e: int| 0 <= e < SEGMENT_SIZE implies (#[trigger] c@[e] matches Some(
                        bb,
                    ) ==> bb.wf((h - 1) as nat)) by {
                        if e != d {
                            assert(c@[e] == oc[e]);
                        }
                    }
                }
                r
            },
        }
    }

    /// Makes the old root child zero of a new root one level higher.
    fn grow(&mut self)
        requires
            old(self).wf(),
            0 < old(self).height < MAX_HEIGHT,
        ensures
            final(self).wf(),
            final(self).height == old(self).height + 1,
            forall|j: usize| #[trigger] final(self).entry(j) == old(self).entry(j),
    {
        let ghost h = self.height as nat;
        let old_root = self.root.take();
        let mut c: Vec<Option<Box<Segment<T>>>> = Vec::new();
        c.push(old_root);
        while c.len() < SEGMENT_SIZE
            invariant
                1 <= c@.len() <= SEGMENT_SIZE,
                c@[0] == old(self).root,
                forall|d: int| 1 <= d < c@.len() ==> #[trigger] c@[d] is None,
            decreases SEGMENT_SIZE - c@.len(),
        {
            c.push(None);
        }
        self.root = Some(Box::new(Segment::Children(c)));
        self.height = self.height + 1;
        proof {
            assert forall|j: usize| #[trigger] self.entry(j) == old(self).entry(j) by {
                lemma_shift_step(j as nat, h);
                if shift(j as nat, h) == 0 {
                    assert(digit(j as nat, h) == 0);
                } else if shift(j as nat, h + 1) == 0 {
                    assert(digit(j as nat, h) != 0);
                }
            }
        }
    }

    /// Stores `value` at `index` (`None` empties the slot) and returns what was there.
    /// Allocates the segments on the way, and grows the tree where `index` does not fit.
    pub fn swap(&mut self, index: usize, value: Option<T>) -> (r: Option<T>)
        requires
            old(self).wf(),
        ensures
            final(self).wf(),
            r == old(self).entry(index),
            forall|j: usize| #[trigger] final(self).entry(j) == if j == index {
                value
            } else {
                old(self).entry(j)
            },
    {
        if self.root.is_none() {
            self.root = Some(Box::new(Segment::new_elements()));
            self.height = 1;
            assert forall|j: usize| #[trigger] self.entry(j) == old(self).entry(j) by {}
        }
        while shift_exec(index, self.height) != 0
            invariant
                self.wf(),
                self.height > 0,
                forall|j: usize| #[trigger] self.entry(j) == old(self).entry(j),
            decreases MAX_HEIGHT - self.height,
        {
            proof {
                lemma_fits_max(index);
                if self.height == MAX_HEIGHT {
                    assert(false);
                }
            }
            self.grow();
        }
        let ghost mid = *self;
        assert(mid.entry(index) == old(self).entry(index));
        let mut root = self.root.take().unwrap();
        let r = Self::seg_swap(&mut *root, self.height - 1, index, value);
        self.root = Some(root);
        proof {
            let h = (self.height - 1) as nat;
            assert forall|j: usize| #[trigger] self.entry(j) == if j == index {
                value
            } else {
                old(self).entry(j)
            } by {
                lemma_shift_step(j as nat, h);
                lemma_shift_step(index as nat, h);
                if shift(j as nat, self.height as nat) == 0 && same_path(index as nat, j as nat, h) {
                    lemma_same_path_equal(index as nat, j as nat, h);
                }
                if j == index {
                    assert(same_path(index as nat, j as nat, h)) by {
                        lemma_same_path_refl(index as nat, h);
                    }
                }
                assert(mid.entry(j) == old(self).entry(j));
            }
        }
        r
    }
}

/// Every index has the same digits as itself.
proof fn lemma_same_path_refl(i: nat, h: nat)
    ensures
        same_path(i, i, h),
    decreases h,
{
    if h > 0 {
        lemma_same_path_refl(i, (h - 1) as nat);
    }
}

impl<T> Default for GrowableArray<T> {
    fn default() -> (r: Self)
        ensures
            r.wf(),
            r@ == Map::<usize, T>::empty(),
    {
        Self::new()
    }
}

} // verus!
