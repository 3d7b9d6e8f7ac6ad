//! Sorted singly linked list set using fine-grained lock-coupling.

use crate::adt::ConcurrentSet;
use super::sorted::{is_lower_bound, lemma_insert, lemma_lower_bound_found, lemma_remove, sorted};
use vstd::prelude::*;

verus! {

/// Sorted singly linked list set. The values are kept in increasing order; the position of a
/// value in that order stands for the chain of locked `next` links that leads to it.
#[derive(Debug)]
pub struct FineGrainedListSet {
    nodes: Vec<usize>,
}

/// A position in a `FineGrainedListSet`: the link into the current node.
struct Cursor {
    pos: usize,
}

impl Cursor {
    /// Moves the cursor to the position of `key` in the sorted list; returns whether the value
    /// was found.
    fn find(&mut self, nodes: &Vec<usize>, key: &usize) -> (r: bool)
        requires
            sorted(nodes@),
            old(self).pos == 0,
        ensures
            is_lower_bound(nodes@, final(self).pos as int, *key),
            r == nodes@.to_set().contains(*key),
    {
        while self.pos < nodes.len() && nodes[self.pos] < *key
            invariant
                self.pos <= nodes@.len(),
                forall|i: int| 0 <= i < self.pos ==> #[trigger] nodes@[i] < *key,
            decreases nodes@.len() - self.pos,
        {
            self.pos = self.pos + 1;
        }
        proof {
            lemma_lower_bound_found(nodes@, self.pos as int, *key);
        }
        self.pos < nodes.len() && nodes[self.pos] == *key
    }
}

impl FineGrainedListSet {
    /// The values, in increasing order.
    pub closed spec fn nodes(&self) -> Seq<usize> {
        self.nodes@
    }

    /// Creates a new, empty list.
    pub fn new() -> (r: Self)
        ensures
            r.inv(),
            r.elements() == Set::<usize>::empty(),
    {
        let r = FineGrainedListSet { nodes: Vec::new() };
        assert(r.nodes@.to_set() =~= Set::<usize>::empty());
        r
    }

    fn find(&self, key: &usize) -> (r: (bool, Cursor))
        requires
            self.inv(),
        ensures
            is_lower_bound(self.nodes(), r.1.pos as int, *key),
            r.0 == self.elements().contains(*key),
    {
        let mut cursor = Cursor { pos: 0 };
        let found = cursor.find(&self.nodes, key);
        (found, cursor)
    }

    /// An iterator visiting all values in increasing order.
    pub fn iter(&self) -> (r: Iter<'_>)
        ensures
            r.wf(),
            r.remaining() == self.nodes(),
    {
        let r = Iter { nodes: &self.nodes, pos: 0 };
        assert(r.remaining() =~= self.nodes());
        r
    }
}

impl ConcurrentSet<usize> for FineGrainedListSet {
    open spec fn elements(&self) -> Set<usize> {
        self.nodes().to_set()
    }

    open spec fn inv(&self) -> bool {
        sorted(self.nodes())
    }

    fn contains(&self, key: &usize) -> (r: bool) {
        self.find(key).0
    }

    fn insert(&mut self, key: usize) -> (r: bool) {
        let (found, cursor) = self.find(&key);
        if found {
            proof {
                assert(self.elements().insert(key) =~= self.elements());
            }
            return false;
        }
        proof {
            lemma_insert(self.nodes@, cursor.pos as int, key);
            lemma_lower_bound_found(self.nodes@, cursor.pos as int, key);
        }
        self.nodes.insert(cursor.pos, key);
        true
    }

    fn remove(&mut self, key: &usize) -> (r: bool) {
        let (found, cursor) = self.find(key);
        if !found {
            proof {
                assert(self.elements().remove(*key) =~= self.elements());
            }
            return false;
        }
        proof {
            lemma_lower_bound_found(self.nodes@, cursor.pos as int, *key);
            lemma_remove(self.nodes@, cursor.pos as int);
        }
        self.nodes.remove(cursor.pos);
        true
    }
}

impl Default for FineGrainedListSet {
    fn default() -> (r: Self)
        ensures
            r.inv(),
            r.elements() == Set::<usize>::empty(),
    {
        Self::new()
    }
}

/// An iterator over the values of a `FineGrainedListSet`, in increasing order.
#[derive(Debug)]
pub struct Iter<'l> {
    nodes: &'l Vec<usize>,
    pos: usize,
}

impl<'l> Iter<'l> {
    /// The iterator is at a position of its list.
    pub closed spec fn wf(&self) -> bool {
        self.pos <= self.nodes@.len()
    }

    /// The values not visited yet.
    pub closed spec fn remaining(&self) -> Seq<usize> {
        self.nodes@.skip(self.pos as int)
    }

    /// Returns the next value, or `None` once every value has been visited.
    pub fn next(&mut self) -> (r: Option<&'l usize>)
        requires
            old(self).wf(),
        ensures
            old(self).remaining().len() == 0 ==> r is None && final(self).remaining() == old(self).remaining(),
            old(self).remaining().len() > 0 ==> (r matches Some(v) && *v == old(self).remaining()[0]
                && final(self).remaining() == old(self).remaining().drop_first()),
            final(self).wf(),
    {
        if self.pos < self.nodes.len() {
            let v = &self.nodes[self.pos];
            self.pos = self.pos + 1;
            proof {
                assert(self.nodes@.skip(self.pos as int) =~= old(self).remaining().drop_first());
            }
            Some(v)
        } else {
            None
        }
    }
}

} // verus!
