//! Sorted singly linked list set using fine-grained optimistic locking.
//!
//! Every link (the head pointer and each node's `next` pointer) is guarded by a sequence lock.
//! Searches read links optimistically and validate each link after moving past it; updates
//! upgrade the read of the link they change into a write, which advances its sequence number so
//! that every reader that saw the old link fails its validation.

use crate::adt::ConcurrentSet;
use crate::lock::seqlock::{is_unlocked_seq, seq_add, RawSeqLock};
use super::sorted::{is_lower_bound, lemma_insert, lemma_lower_bound_found, lemma_remove, sorted};
use vstd::prelude::*;

verus! {

/// An iteration over the set visits exactly its values, in strictly increasing order: `iter`
/// starts with `nodes()` remaining and each `next` yields the first remaining value.
pub proof fn lemma_iteration_order(set: &OptimisticFineGrainedListSet)
    requires
        set.inv(),
    ensures
        forall|i: int, j: int| 0 <= i < j < set.nodes().len() ==> set.nodes()[i] < set.nodes()[j],
        forall|k: usize| set.elements().contains(k) <==> set.nodes().contains(k),
{
    assert forall|k: usize| set.elements().contains(k) <==> set.nodes().contains(k) by {
        vstd::seq_lib::seq_to_set_is_finite(set.nodes());
        if set.nodes().contains(k) {
            let i = choose|i: int| 0 <= i < set.nodes().len() && set.nodes()[i] == k;
            assert(set.nodes().to_set().contains(set.nodes()[i]));
        }
    }
}

/// Sorted singly linked list set with a sequence lock on every link.
#[derive(Debug)]
pub struct OptimisticFineGrainedListSet {
    /// The values, in increasing order.
    nodes: Vec<usize>,
    /// `links[i]` guards the link into node `i` (`links[0]` is the head); the last one guards the
    /// `next` pointer of the last node.
    links: Vec<RawSeqLock>,
}

/// A position in the list: the link into the current node, read at sequence number `seq`.
struct Cursor {
    pos: usize,
    seq: usize,
}

impl OptimisticFineGrainedListSet {
    /// The values, in increasing order.
    pub closed spec fn nodes(&self) -> Seq<usize> {
        self.nodes@
    }

    /// The sequence number of the lock on link `i`.
    pub closed spec fn link_seq(&self, i: int) -> usize {
        self.links@[i].seq()
    }

    /// The number of links: one more than the number of nodes.
    pub closed spec fn num_links(&self) -> nat {
        self.links@.len()
    }

    /// Creates a new, empty list.
    pub fn new() -> (r: Self)
        ensures
            r.inv(),
            r.elements() == Set::<usize>::empty(),
    {
        let mut links: Vec<RawSeqLock> = Vec::new();
        links.push(RawSeqLock::new());
        let r = OptimisticFineGrainedListSet { nodes: Vec::new(), links };
        assert(r.nodes@.to_set() =~= Set::<usize>::empty());
        r
    }

    /// Creates the head cursor: a read of the head link.
    fn head(&self) -> (r: Cursor)
        requires
            self.inv(),
        ensures
            r.pos == 0,
            r.seq == self.link_seq(0),
    {
        assert(is_unlocked_seq(self.link_seq(0)));
        let seq = self.links[0].read_begin();
        Cursor { pos: 0, seq }
    }

    fn find(&self, key: &usize) -> (r: Result<(bool, Cursor), ()>)
        requires
            self.inv(),
        ensures
            r matches Ok((found, cursor)) && {
                &&& is_lower_bound(self.nodes(), cursor.pos as int, *key)
                &&& cursor.seq == self.link_seq(cursor.pos as int)
                &&& found == self.elements().contains(*key)
            },
    {
        let mut cursor = self.head();
        match cursor.find(self, key) {
            Ok(found) => Ok((found, cursor)),
            Err(()) => Err(()),
        }
    }

    /// An iterator visiting all values in increasing order. A read of a link that fails its
    /// validation makes `next` return `Some(Err(()))`; the iteration must then be restarted.
    pub fn iter(&self) -> (r: Iter<'_>)
        requires
            self.inv(),
        ensures
            r.wf(),
            r.remaining() == self.nodes(),
    {
        let cursor = self.head();
        let r = Iter { set: self, cursor };
        assert(r.remaining() =~= self.nodes());
        r
    }
}

impl Cursor {
    /// Moves the cursor to the position of `key`, validating every link it moves past. Returns
    /// whether the value was found, or `Err(())` if a validation failed.
    fn find(&mut self, set: &OptimisticFineGrainedListSet, key: &usize) -> (r: Result<bool, ()>)
        requires
            set.inv(),
            old(self).pos == 0,
            old(self).seq == set.link_seq(0),
        ensures
            r == Ok::<bool, ()>(set.elements().contains(*key)),
            is_lower_bound(set.nodes(), final(self).pos as int, *key),
            final(self).seq == set.link_seq(final(self).pos as int),
    {
        loop
            invariant
                set.inv(),
                self.pos <= set.nodes().len(),
                self.seq == set.link_seq(self.pos as int),
                forall|i: int| 0 <= i < self.pos ==> #[trigger] set.nodes()[i] < *key,
            decreases set.nodes().len() - self.pos,
        {
            if self.pos == set.nodes.len() || set.nodes[self.pos] >= *key {
                if set.links[self.pos].read_validate(self.seq) {
                    proof {
                        lemma_lower_bound_found(set.nodes(), self.pos as int, *key);
                    }
                    return Ok(self.pos < set.nodes.len() && set.nodes[self.pos] == *key);
                } else {
                    return Err(());
                }
            }
            assert(is_unlocked_seq(set.link_seq(self.pos + 1)));
            let next = set.links[self.pos + 1].read_begin();
            let prev = self.seq;
            let prev_pos = self.pos;
            self.pos = self.pos + 1;
            self.seq = next;
            if !set.links[prev_pos].read_validate(prev) {
                return Err(());
            }
        }
    }
}

impl ConcurrentSet<usize> for OptimisticFineGrainedListSet {
    open spec fn elements(&self) -> Set<usize> {
        self.nodes().to_set()
    }

    open spec fn inv(&self) -> bool {
        &&& sorted(self.nodes())
        &&& self.num_links() == self.nodes().len() + 1
        &&& forall|i: int| 0 <= i < self.num_links() ==> is_unlocked_seq(#[trigger] self.link_seq(i))
    }

    fn contains(&self, key: &usize) -> (r: bool) {
        match self.find(key) {
            Ok((found, cursor)) => {
                let valid = self.links[cursor.pos].read_validate(cursor.seq);
                found && valid
            },
            Err(()) => false,
        }
    }

    fn insert(&mut self, key: usize) -> (r: bool) {
        let (found, cursor) = match self.find(&key) {
            Ok(r) => r,
            Err(()) => return false,
        };
        if found {
            proof {
                assert(self.elements().insert(key) =~= self.elements());
            }
            return false;
        }
        let pos = cursor.pos;
        let ghost old_links = self.links@;
        proof {
            lemma_insert(self.nodes@, pos as int, key);
            lemma_lower_bound_found(self.nodes@, pos as int, key);
        }
        let num_links = self.links.len();
        assert(pos < num_links);
        let next_pos = pos + 1;
        assert(is_unlocked_seq(self.link_seq(pos as int)));
        let upgraded = self.links[pos].upgrade(cursor.seq);
        if !upgraded {
            return false;
        }
        let ghost l1 = self.links@;
        self.nodes.insert(pos, key);
        self.links.insert(next_pos, RawSeqLock::new());
        let ghost l2 = self.links@;
        self.links[pos].write_unlock(cursor.seq);
        proof {
            assert forall|i: int| 0 <= i < self.num_links() implies is_unlocked_seq(#[trigger] self.link_seq(i)) by {
                if i < pos {
                    assert(l1[i] == old_links[i]);
                    assert(l2[i] == l1[i]);
                    assert(self.links@[i] == l2[i]);
                    assert(is_unlocked_seq(old(self).link_seq(i)));
                } else if i > pos + 1 {
                    assert(l1[i - 1] == old_links[i - 1]);
                    assert(l2[i] == l1[i - 1]);
                    assert(self.links@[i] == l2[i]);
                    assert(is_unlocked_seq(old(self).link_seq(i - 1)));
                }
            }
        }
        true
    }

    fn remove(&mut self, key: &usize) -> (r: bool) {
        let (found, cursor) = match self.find(key) {
            Ok(r) => r,
            Err(()) => return false,
        };
        if !found {
            proof {
                assert(self.elements().remove(*key) =~= self.elements());
            }
            return false;
        }
        let pos = cursor.pos;
        let ghost old_links = self.links@;
        proof {
            lemma_lower_bound_found(self.nodes@, pos as int, *key);
            lemma_remove(self.nodes@, pos as int);
        }
        let num_links = self.links.len();
        assert(pos < num_links);
        let next_pos = pos + 1;
        assert(is_unlocked_seq(self.link_seq(pos as int)));
        assert(is_unlocked_seq(self.link_seq(next_pos as int)));
        let upgraded = self.links[pos].upgrade(cursor.seq);
        if !upgraded {
            return false;
        }
        let ghost l1 = self.links@;
        let next_seq = self.links[next_pos].write_lock();
        self.nodes.remove(pos);
        let ghost l2 = self.links@;
        self.links[next_pos].write_unlock(next_seq);
        let ghost l3 = self.links@;
        self.links.remove(next_pos);
        let ghost l4 = self.links@;
        self.links[pos].write_unlock(cursor.seq);
        proof {
            assert forall|i: int| 0 <= i < self.num_links() implies is_unlocked_seq(#[trigger] self.link_seq(i)) by {
                if i < pos {
                    assert(l1[i] == old_links[i]);
                    assert(l2[i] == l1[i]);
                    assert(l3[i] == l2[i]);
                    assert(l4[i] == l3[i]);
                    assert(self.links@[i] == l4[i]);
                    assert(is_unlocked_seq(old(self).link_seq(i)));
                } else if i > pos {
                    assert(l1[i + 1] == old_links[i + 1]);
                    assert(l2[i + 1] == l1[i + 1]);
                    assert(l3[i + 1] == l2[i + 1]);
                    assert(l4[i] == l3[i + 1]);
                    assert(self.links@[i] == l4[i]);
                    assert(is_unlocked_seq(old(self).link_seq(i + 1)));
                }
            }
        }
        true
    }
}

impl Default for OptimisticFineGrainedListSet {
    fn default() -> (r: Self)
        ensures
            r.inv(),
            r.elements() == Set::<usize>::empty(),
    {
        Self::new()
    }
}

/// An iterator over the values of an `OptimisticFineGrainedListSet`, in increasing order.
pub struct Iter<'g> {
    set: &'g OptimisticFineGrainedListSet,
    cursor: Cursor,
}

impl<'g> Iter<'g> {
    /// The iterator is at a position of a well-formed list, holding a read of the link there.
    pub closed spec fn wf(&self) -> bool {
        &&& self.set.inv()
        &&& self.cursor.pos <= self.set.nodes().len()
        &&& self.cursor.seq == self.set.link_seq(self.cursor.pos as int)
    }

    /// The values not visited yet.
    pub closed spec fn remaining(&self) -> Seq<usize> {
        self.set.nodes().skip(self.cursor.pos as int)
    }

    /// Returns the next value (`Some(Ok(v))`), `None` once every value has been visited, or
    /// `Some(Err(()))` if the read of a link failed its validation.
    pub fn next(&mut self) -> (r: Option<Result<&'g usize, ()>>)
        requires
            old(self).wf(),
        ensures
            final(self).wf(),
            old(self).remaining().len() == 0 ==> r is None && final(self).remaining() == old(self).remaining(),
            old(self).remaining().len() > 0 ==> (r matches Some(Ok(v)) && *v == old(self).remaining()[0]
                && final(self).remaining() == old(self).remaining().drop_first()),
    {
        let set = self.set;
        if self.cursor.pos == set.nodes.len() {
            if set.links[self.cursor.pos].read_validate(self.cursor.seq) {
                return None;
            } else {
                return Some(Err(()));
            }
        }
        let node = &set.nodes[self.cursor.pos];
        assert(is_unlocked_seq(set.link_seq(self.cursor.pos + 1)));
        let next = set.links[self.cursor.pos + 1].read_begin();
        let prev = self.cursor.seq;
        let prev_pos = self.cursor.pos;
        self.cursor.pos = self.cursor.pos + 1;
        self.cursor.seq = next;
        proof {
            assert(set.nodes().skip(self.cursor.pos as int) =~= old(self).remaining().drop_first());
        }
        if set.links[prev_pos].read_validate(prev) {
            Some(Ok(node))
        } else {
            Some(Err(()))
        }
    }
}

} // verus!
