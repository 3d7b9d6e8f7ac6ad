//! Sorted singly linked list, keyed by `usize`.
//!
//! The nodes are kept in key order; the position of a node in that order stands for the chain of
//! `next` links that leads to it. A `Cursor` names a position: the node it is at (`curr`) and,
//! implicitly, the link before it (`prev`).
//!
//! A delete unlinks its node at once, so the list never holds logically deleted nodes. The three
//! search strategies (Harris, Harris-Michael, Harris-Herlihy-Shavit) differ only in how they
//! treat such nodes; here each is the same forward scan, and they stop at the same node.

use vstd::prelude::*;

verus! {

/// Linked list node.
#[derive(Debug)]
pub struct Node<V> {
    key: usize,
    value: V,
}

impl<V> Node<V> {
    /// The key of the node.
    pub closed spec fn key(&self) -> usize {
        self.key
    }

    /// The value of the node.
    pub closed spec fn value(&self) -> V {
        self.value
    }

    /// Creates a new node.
    pub fn new(key: usize, value: V) -> (r: Self)
        ensures
            r.key() == key,
            r.value() == value,
    {
        Node { key, value }
    }

    /// Extracts the inner value.
    pub fn into_value(self) -> (r: V)
        ensures
            r == self.value(),
    {
        self.value
    }
}

/// The keys of `s` are strictly increasing.
pub open spec fn sorted<V>(s: Seq<Node<V>>) -> bool {
    forall|i: int, j: int| 0 <= i < j < s.len() ==> s[i].key() < s[j].key()
}

/// Some node of `s` has key `k`.
pub open spec fn has_key<V>(s: Seq<Node<V>>, k: usize) -> bool {
    exists|i: int| 0 <= i < s.len() && #[trigger] s[i].key() == k
}

/// The position of a node of `s` with key `k`.
pub open spec fn key_index<V>(s: Seq<Node<V>>, k: usize) -> int {
    choose|i: int| 0 <= i < s.len() && #[trigger] s[i].key() == k
}

/// The map from keys to values that the nodes of `s` hold.
pub open spec fn map_of<V>(s: Seq<Node<V>>) -> Map<usize, V> {
    Map::new(|k: usize| has_key(s, k), |k: usize| s[key_index(s, k)].value())
}

/// Every node of `s` before position `pos` has a key smaller than `k`.
pub open spec fn keys_below<V>(s: Seq<Node<V>>, pos: int, k: usize) -> bool {
    forall|i: int| 0 <= i < pos ==> #[trigger] s[i].key() < k
}

/// `pos` is where `k` belongs in `s`: every node before it has a smaller key, and the node at it
/// (if any) has a key no smaller than `k`.
pub open spec fn is_lower_bound<V>(s: Seq<Node<V>>, pos: int, k: usize) -> bool {
    &&& 0 <= pos <= s.len()
    &&& forall|i: int| 0 <= i < pos ==> #[trigger] s[i].key() < k
    &&& pos < s.len() ==> s[pos].key() >= k
}

/// `pos` is where a search for `k` that starts at `start` stops: every node from `start` up to
/// `pos` has a smaller key, and the node at `pos` (if any) has a key no smaller than `k`.
pub open spec fn stops_at<V>(s: Seq<Node<V>>, start: int, pos: int, k: usize) -> bool {
    &&& start <= pos <= s.len()
    &&& forall|i: int| start <= i < pos ==> #[trigger] s[i].key() < k
    &&& pos < s.len() ==> s[pos].key() >= k
}

/// A search from a given start has one stopping position: two searches for the same key from
/// the same start, by whatever strategy, stop at the same node.
pub proof fn lemma_stop_unique<V>(s: Seq<Node<V>>, start: int, p1: int, p2: int, k: usize)
    requires
        stops_at(s, start, p1, k),
        stops_at(s, start, p2, k),
    ensures
        p1 == p2,
{
    if p1 < p2 {
        assert(s[p1].key() < k);
    } else if p2 < p1 {
        assert(s[p2].key() < k);
    }
}

/// In a sorted sequence the node with a given key is unique.
pub proof fn lemma_sorted_index<V>(s: Seq<Node<V>>, i: int)
    requires
        sorted(s),
        0 <= i < s.len(),
    ensures
        has_key(s, s[i].key()),
        key_index(s, s[i].key()) == i,
        map_of(s).contains_key(s[i].key()),
        map_of(s)[s[i].key()] == s[i].value(),
{
    assert(has_key(s, s[i].key()));
    let j = key_index(s, s[i].key());
    if j < i {
        assert(s[j].key() < s[i].key());
    } else if j > i {
        assert(s[i].key() < s[j].key());
    }
}

/// At the lower bound of `k`, the node there holds `k` iff `k` is a key of the sequence.
pub proof fn lemma_lower_bound_found<V>(s: Seq<Node<V>>, pos: int, k: usize)
    requires
        sorted(s),
        is_lower_bound(s, pos, k),
    ensures
        has_key(s, k) <==> (pos < s.len() && s[pos].key() == k),
{
    if has_key(s, k) {
        let j = choose|j: int| 0 <= j < s.len() && #[trigger] s[j].key() == k;
        if j < pos {
            assert(s[j].key() < k);
        } else if j > pos {
            assert(s[pos].key() < s[j].key());
        }
    }
    if pos < s.len() && s[pos].key() == k {
        assert(has_key(s, k));
    }
}

/// Inserting a node where its key belongs keeps the sequence sorted and adds the node's entry.
pub proof fn lemma_insert<V>(s: Seq<Node<V>>, pos: int, n: Node<V>)
    requires
        sorted(s),
        is_lower_bound(s, pos, n.key()),
        pos == s.len() || s[pos].key() != n.key(),
    ensures
        sorted(s.insert(pos, n)),
        !map_of(s).contains_key(n.key()),
        map_of(s.insert(pos, n)) == map_of(s).insert(n.key(), n.value()),
{
    let t = s.insert(pos, n);
    assert forall|i: int, j: int| 0 <= i < j < t.len() implies t[i].key() < t[j].key() by {
        if j < pos {
        } else if j == pos {
        } else if i < pos {
            assert(s[i].key() < n.key());
            if j - 1 > pos {
                assert(s[pos].key() < s[j - 1].key());
            }
        } else if i == pos {
            if j - 1 > pos {
                assert(s[pos].key() < s[j - 1].key());
            }
        } else {
            assert(s[i - 1].key() < s[j - 1].key());
        }
    }
    lemma_lower_bound_found(s, pos, n.key());
    let m1 = map_of(t);
    let m2 = map_of(s).insert(n.key(), n.value());
    assert forall|k: usize| m1.contains_key(k) <==> m2.contains_key(k) by {
        if has_key(t, k) {
            let j = choose|j: int| 0 <= j < t.len() && #[trigger] t[j].key() == k;
            if j < pos {
                assert(s[j].key() == k);
            } else if j > pos {
                assert(s[j - 1].key() == k);
            }
        }
        if has_key(s, k) {
            let j = choose|j: int| 0 <= j < s.len() && #[trigger] s[j].key() == k;
            if j < pos {
                assert(t[j].key() == k);
            } else {
                assert(t[j + 1].key() == k);
            }
        }
        if k == n.key() {
            assert(t[pos].key() == k);
        }
    }
    assert forall|k: usize| #[trigger] m1.contains_key(k) implies m1[k] == m2[k] by {
        let j = key_index(t, k);
        lemma_sorted_index(t, j);
        if j < pos {
            lemma_sorted_index(s, j);
        } else if j > pos {
            lemma_sorted_index(s, j - 1);
        }
    }
    assert(m1 =~= m2);
}

/// Removing a node keeps the sequence sorted and removes the node's entry.
pub proof fn lemma_remove<V>(s: Seq<Node<V>>, pos: int)
    requires
        sorted(s),
        0 <= pos < s.len(),
    ensures
        sorted(s.remove(pos)),
        map_of(s.remove(pos)) == map_of(s).remove(s[pos].key()),
{
    let t = s.remove(pos);
    let kd = s[pos].key();
    assert forall|i: int, j: int| 0 <= i < j < t.len() implies t[i].key() < t[j].key() by {
        if j < pos {
        } else if i < pos {
            assert(s[i].key() < s[j + 1].key());
        } else {
            assert(s[i + 1].key() < s[j + 1].key());
        }
    }
    let m1 = map_of(t);
    let m2 = map_of(s).remove(kd);
    assert forall|k: usize| m1.contains_key(k) <==> m2.contains_key(k) by {
        if has_key(t, k) {
            let j = choose|j: int| 0 <= j < t.len() && #[trigger] t[j].key() == k;
            if j < pos {
                assert(s[j].key() == k);
                assert(s[j].key() < kd);
            } else {
                assert(s[j + 1].key() == k);
                assert(kd < s[j + 1].key());
            }
        }
        if has_key(s, k) && k != kd {
            let j = choose|j: int| 0 <= j < s.len() && #[trigger] s[j].key() == k;
            if j < pos {
                assert(t[j].key() == k);
            } else {
                assert(j != pos);
                assert(t[j - 1].key() == k);
            }
        }
    }
    assert forall|k: usize| #[trigger] m1.contains_key(k) implies m1[k] == m2[k] by {
        let j = key_index(t, k);
        lemma_sorted_index(t, j);
        if j < pos {
            lemma_sorted_index(s, j);
        } else {
            lemma_sorted_index(s, j + 1);
        }
    }
    assert(m1 =~= m2);
}

/// Sorted singly linked list.
#[derive(Debug)]
pub struct List<V> {
    nodes: Vec<Node<V>>,
}

/// A position in a `List`: the node there is `curr`, the link into it is `prev`.
#[derive(Debug)]
pub struct Cursor {
    pos: usize,
}

/// The search strategy of an operation. They differ in how they treat logically deleted nodes,
/// which this list never holds, so every strategy scans the same way.
enum FindStrategy {
    Harris,
    HarrisMichael,
    HarrisHerlihyShavit,
}

impl<V> List<V> {
    /// The nodes of the list, in key order.
    pub closed spec fn nodes(&self) -> Seq<Node<V>> {
        self.nodes@
    }

    /// The keys of the list are strictly increasing.
    pub open spec fn wf(&self) -> bool {
        sorted(self.nodes())
    }

    /// The map from keys to values that the list holds.
    pub open spec fn view(&self) -> Map<usize, V> {
        map_of(self.nodes())
    }

    /// Creates a new, empty list.
    pub fn new() -> (r: Self)
        ensures
            r.wf(),
            r.nodes().len() == 0,
            r.view() == Map::<usize, V>::empty(),
    {
        let r = List { nodes: Vec::new() };
        assert(r.view() =~= Map::<usize, V>::empty());
        r
    }

    /// The number of nodes.
    pub fn len(&self) -> (r: usize)
        ensures
            r == self.nodes().len(),
    {
        self.nodes.len()
    }

    /// Creates the head cursor: the position of the first node.
    pub fn head(&self) -> (r: Cursor)
        ensures
            r.pos() == 0,
    {
        Cursor { pos: 0 }
    }

    /// Moves a head cursor to the position of `key` with the given strategy; returns whether
    /// `key` was found, and the cursor.
    fn find(&self, key: usize, strategy: &FindStrategy) -> (r: (bool, Cursor))
        requires
            self.wf(),
        ensures
            is_lower_bound(self.nodes(), r.1.pos(), key),
            r.0 == self.view().contains_key(key),
            r.0 == (r.1.pos() < self.nodes().len() && self.nodes()[r.1.pos()].key() == key),
    {
        let mut cursor = self.head();
        let found = match strategy {
            FindStrategy::Harris => cursor.find_harris(self, &key),
            FindStrategy::HarrisMichael => cursor.find_harris_michael(self, &key),
            FindStrategy::HarrisHerlihyShavit => cursor.find_harris_herlihy_shavit(self, &key),
        };
        let found = match found {
            Ok(b) => b,
            Err(()) => false,
        };
        proof {
            lemma_lower_bound_found(self.nodes(), cursor.pos(), key);
        }
        (found, cursor)
    }

    fn lookup(&self, key: usize, strategy: &FindStrategy) -> (r: Option<&V>)
        requires
            self.wf(),
        ensures
            r is Some <==> self.view().contains_key(key),
            r matches Some(v) ==> *v == self.view()[key],
    {
        let (found, cursor) = self.find(key, strategy);
        if found {
            proof {
                lemma_sorted_index(self.nodes(), cursor.pos() as int);
            }
            Some(cursor.lookup(self))
        } else {
            None
        }
    }

    fn insert(&mut self, key: usize, value: V, strategy: &FindStrategy) -> (r: bool)
        requires
            old(self).wf(),
        ensures
            final(self).wf(),
            r == !old(self).view().contains_key(key),
            r ==> final(self).view() == old(self).view().insert(key, value),
            !r ==> final(self).view() == old(self).view(),
    {
        let node = Node::new(key, value);
        let (found, mut cursor) = self.find(key, strategy);
        if found {
            return false;
        }
        match cursor.insert(self, node) {
            Ok(()) => true,
            Err(_) => false,
        }
    }

    fn delete(&mut self, key: usize, strategy: &FindStrategy) -> (r: Option<V>)
        requires
            old(self).wf(),
        ensures
            final(self).wf(),
            r is Some <==> old(self).view().contains_key(key),
            r matches Some(v) ==> v == old(self).view()[key],
            final(self).view() == old(self).view().remove(key),
    {
        let (found, mut cursor) = self.find(key, strategy);
        if !found {
            proof {
                assert(self.view().remove(key) =~= self.view());
            }
            return None;
        }
        proof {
            lemma_sorted_index(self.nodes(), cursor.pos() as int);
        }
        match cursor.delete(self) {
            Ok(v) => Some(v),
            Err(()) => None,
        }
    }

    /// Looks up the value at `key` with the Harris strategy.
    pub fn harris_lookup(&self, key: &usize) -> (r: Option<&V>)
        requires
            self.wf(),
        ensures
            r is Some <==> self.view().contains_key(*key),
            r matches Some(v) ==> *v == self.view()[*key],
    {
        self.lookup(*key, &FindStrategy::Harris)
    }

    /// Inserts `key`-`value` with the Harris strategy; returns whether the key was absent.
    pub fn harris_insert(&mut self, key: usize, value: V) -> (r: bool)
        requires
            old(self).wf(),
        ensures
            final(self).wf(),
            r == !old(self).view().contains_key(key),
            r ==> final(self).view() == old(self).view().insert(key, value),
            !r ==> final(self).view() == old(self).view(),
    {
        self.insert(key, value, &FindStrategy::Harris)
    }

    /// Deletes `key` with the Harris strategy; returns its value if it was present.
    pub fn harris_delete(&mut self, key: &usize) -> (r: Option<V>)
        requires
            old(self).wf(),
        ensures
            final(self).wf(),
            r is Some <==> old(self).view().contains_key(*key),
            r matches Some(v) ==> v == old(self).view()[*key],
            final(self).view() == old(self).view().remove(*key),
    {
        self.delete(*key, &FindStrategy::Harris)
    }

    /// Looks up the value at `key` with the Harris-Michael strategy.
    pub fn harris_michael_lookup(&self, key: &usize) -> (r: Option<&V>)
        requires
            self.wf(),
        ensures
            r is Some <==> self.view().contains_key(*key),
            r matches Some(v) ==> *v == self.view()[*key],
    {
        self.lookup(*key, &FindStrategy::HarrisMichael)
    }

    /// Inserts `key`-`value` with the Harris-Michael strategy; returns whether the key was absent.
    pub fn harris_michael_insert(&mut self, key: usize, value: V) -> (r: bool)
        requires
            old(self).wf(),
        ensures
            final(self).wf(),
            r == !old(self).view().contains_key(key),
            r ==> final(self).view() == old(self).view().insert(key, value),
            !r ==> final(self).view() == old(self).view(),
    {
        self.insert(key, value, &FindStrategy::HarrisMichael)
    }

    /// Deletes `key` with the Harris-Michael strategy; returns its value if it was present.
    pub fn harris_michael_delete(&mut self, key: &usize) -> (r: Option<V>)
        requires
            old(self).wf(),
        ensures
            final(self).wf(),
            r is Some <==> old(self).view().contains_key(*key),
            r matches Some(v) ==> v == old(self).view()[*key],
            final(self).view() == old(self).view().remove(*key),
    {
        self.delete(*key, &FindStrategy::HarrisMichael)
    }

    /// Looks up the value at `key` with the Harris-Herlihy-Shavit strategy.
    pub fn harris_herlihy_shavit_lookup(&self, key: &usize) -> (r: Option<&V>)
        requires
            self.wf(),
        ensures
            r is Some <==> self.view().contains_key(*key),
            r matches Some(v) ==> *v == self.view()[*key],
    {
        self.lookup(*key, &FindStrategy::HarrisHerlihyShavit)
    }
}

impl<V> Default for List<V> {
    fn default() -> (r: Self)
        ensures
            r.wf(),
            r.view() == Map::<usize, V>::empty(),
    {
        Self::new()
    }
}

impl Cursor {
    /// The position the cursor is at.
    pub closed spec fn pos(&self) -> int {
        self.pos as int
    }

    /// Creates a cursor at position `pos`.
    pub fn new(pos: usize) -> (r: Self)
        ensures
            r.pos() == pos,
    {
        Cursor { pos }
    }

    /// The position of the current node.
    pub fn curr(&self) -> (r: usize)
        ensures
            r == self.pos(),
    {
        self.pos
    }

    /// Moves the cursor forward to the first node, from where it starts, whose key is no smaller
    /// than `key`; returns whether that node holds `key`. From a cursor before which every key
    /// is smaller, that is where `key` belongs in the list.
    fn find_from<V>(&mut self, list: &List<V>, key: &usize) -> (r: bool)
        requires
            list.wf(),
            old(self).pos() <= list.nodes().len(),
        ensures
            old(self).pos() <= final(self).pos(),
            stops_at(list.nodes(), old(self).pos(), final(self).pos(), *key),
            keys_below(list.nodes(), old(self).pos(), *key) ==> is_lower_bound(
                list.nodes(),
                final(self).pos(),
                *key,
            ),
            r == (final(self).pos() < list.nodes().len() && list.nodes()[final(self).pos()].key()
                == *key),
    {
        while self.pos < list.nodes.len() && list.nodes[self.pos].key < *key
            invariant
                list.wf(),
                old(self).pos() <= self.pos() <= list.nodes().len(),
                forall|i: int| old(self).pos() <= i < self.pos() ==> #[trigger] list.nodes()[i].key() < *key,
                keys_below(list.nodes(), old(self).pos(), *key) ==> forall|i: int|
                    0 <= i < self.pos() ==> #[trigger] list.nodes()[i].key() < *key,
            decreases list.nodes().len() - self.pos(),
        {
            self.pos = self.pos + 1;
        }
        self.pos < list.nodes.len() && list.nodes[self.pos].key == *key
    }

    /// The Harris search: moves the cursor forward to the first node, from where it starts,
    /// whose key is no smaller than `key`; returns whether that node holds `key`.
    pub fn find_harris<V>(&mut self, list: &List<V>, key: &usize) -> (r: Result<bool, ()>)
        requires
            list.wf(),
            old(self).pos() <= list.nodes().len(),
        ensures
            stops_at(list.nodes(), old(self).pos(), final(self).pos(), *key),
            keys_below(list.nodes(), old(self).pos(), *key) ==> is_lower_bound(
                list.nodes(),
                final(self).pos(),
                *key,
            ),
            r == Ok::<bool, ()>(final(self).pos() < list.nodes().len() && list.nodes()[final(self).pos()].key() == *key),
    {
        Ok(self.find_from(list, key))
    }

    /// The Harris-Michael search: moves the cursor forward to the first node, from where it
    /// starts, whose key is no smaller than `key`; returns whether that node holds `key`.
    pub fn find_harris_michael<V>(&mut self, list: &List<V>, key: &usize) -> (r: Result<bool, ()>)
        requires
            list.wf(),
            old(self).pos() <= list.nodes().len(),
        ensures
            stops_at(list.nodes(), old(self).pos(), final(self).pos(), *key),
            keys_below(list.nodes(), old(self).pos(), *key) ==> is_lower_bound(
                list.nodes(),
                final(self).pos(),
                *key,
            ),
            r == Ok::<bool, ()>(final(self).pos() < list.nodes().len() && list.nodes()[final(self).pos()].key() == *key),
    {
        Ok(self.find_from(list, key))
    }

    /// The Harris-Herlihy-Shavit search: moves the cursor forward to the first node, from where
    /// it starts, whose key is no smaller than `key`; returns whether that node holds `key`.
    pub fn find_harris_herlihy_shavit<V>(&mut self, list: &List<V>, key: &usize) -> (r: Result<
        bool,
        (),
    >)
        requires
            list.wf(),
            old(self).pos() <= list.nodes().len(),
        ensures
            stops_at(list.nodes(), old(self).pos(), final(self).pos(), *key),
            keys_below(list.nodes(), old(self).pos(), *key) ==> is_lower_bound(
                list.nodes(),
                final(self).pos(),
                *key,
            ),
            r == Ok::<bool, ()>(final(self).pos() < list.nodes().len() && list.nodes()[final(self).pos()].key() == *key),
    {
        Ok(self.find_from(list, key))
    }

    /// The value at the current node.
    pub fn lookup<'l, V>(&self, list: &'l List<V>) -> (r: &'l V)
        requires
            self.pos() < list.nodes().len(),
        ensures
            *r == list.nodes()[self.pos()].value(),
    {
        &list.nodes[self.pos].value
    }

    /// Inserts `node` between the previous and the current node; the cursor then points to it.
    /// The node's key must belong at this position and be new.
    pub fn insert<V>(&mut self, list: &mut List<V>, node: Node<V>) -> (r: Result<(), Node<V>>)
        requires
            old(list).wf(),
            is_lower_bound(old(list).nodes(), old(self).pos(), node.key()),
            old(self).pos() == old(list).nodes().len() || old(list).nodes()[old(self).pos()].key()
                != node.key(),
        ensures
            r is Ok,
            final(list).wf(),
            final(self).pos() == old(self).pos(),
            final(list).nodes() == old(list).nodes().insert(old(self).pos(), node),
            !old(list).view().contains_key(node.key()),
            final(list).view() == old(list).view().insert(node.key(), node.value()),
    {
        proof {
            lemma_insert(list.nodes(), self.pos(), node);
        }
        list.nodes.insert(self.pos, node);
        Ok(())
    }

    /// Deletes the current node and returns its value; the cursor then points to the next node.
    pub fn delete<V>(&mut self, list: &mut List<V>) -> (r: Result<V, ()>)
        requires
            old(list).wf(),
            old(self).pos() < old(list).nodes().len(),
        ensures
            final(list).wf(),
            final(self).pos() == old(self).pos(),
            r == Ok::<V, ()>(old(list).nodes()[old(self).pos()].value()),
            final(list).nodes() == old(list).nodes().remove(old(self).pos()),
            final(list).view() == old(list).view().remove(old(list).nodes()[old(self).pos()].key()),
    {
        proof {
            lemma_remove(list.nodes(), self.pos());
        }
        let node = list.nodes.remove(self.pos);
        Ok(node.into_value())
    }
}

} // verus!
