//! Split-ordered linked list.
//!
//! A map from `usize` keys in `[0, 2^(BITS-1))` to values, kept in one sorted list. A key `k` is
//! stored under its *ordered key*, the bit reversal of `k` with the lowest bit set; bucket `b`
//! has a sentinel node under the bit reversal of `b` (lowest bit clear). So the nodes of a
//! bucket follow its sentinel, and a bucket splits in two when the number of buckets doubles,
//! without moving any node. The growable array holds, for each initialized bucket, the key of
//! its sentinel.

use vstd::prelude::*;

use super::growable_array::GrowableArray;
use crate::adt::ConcurrentMap;
use crate::lockfree::list::{
    is_lower_bound, lemma_lower_bound_found, lemma_sorted_index, Cursor, List, Node,
};

verus! {

/// What `usize::reverse_bits` returns for `x`.
pub uninterp spec fn usize_reverse_bits(x: usize) -> usize;

/// The highest bit of `x`.
pub open spec fn high_bit(x: usize) -> usize {
    x >> ((usize::BITS - 1) as u32)
}

/// The key under which the list holds the entry of key `k`.
pub open spec fn so_key(k: usize) -> usize {
    usize_reverse_bits(k) | 1
}

/// Reversing the bits of `k` twice gives `k`, and the lowest bit of the reversal is the highest
/// bit of `k`.
pub open spec fn reverse_facts(k: usize) -> bool {
    &&& usize_reverse_bits(usize_reverse_bits(k)) == k
    &&& usize_reverse_bits(k) & 1 == high_bit(k)
}

/// Calls `usize::reverse_bits`, which reverses the order of the bits of `x`: bit `k` of the
/// result is bit `BITS - 1 - k` of `x`. The contract states that, names the result, and states
/// two consequences of it: reversing the result gives `x` back, and the lowest bit of the
/// result is the highest bit of `x`.
#[verifier::external_body]
fn reverse_bits(x: usize) -> (r: usize)
    ensures
        r == usize_reverse_bits(x),
        forall|k: u32|
            k < usize::BITS ==> #[trigger] ((r >> k) & 1) == (x >> ((usize::BITS - 1 - k) as u32))
                & 1,
        usize_reverse_bits(r) == x,
        r & 1 == high_bit(x),
{
    x.reverse_bits()
}

/// The key under which the list holds the entry of `key`: its bit reversal with the lowest bit
/// set.
pub fn ordered_key(key: usize) -> (r: usize)
    ensures
        r == so_key(key),
        reverse_facts(key),
{
    reverse_bits(key) | 1
}

/// The number of nodes of `s` that hold an entry (not a sentinel).
spec fn real_count<V>(s: Seq<Node<Option<(usize, V)>>>) -> nat
    decreases s.len(),
{
    if s.len() == 0 {
        0
    } else {
        real_count(s.drop_last()) + if s.last().value() is Some {
            1nat
        } else {
            0nat
        }
    }
}

proof fn lemma_real_count_concat<V>(a: Seq<Node<Option<(usize, V)>>>, b: Seq<Node<Option<(usize, V)>>>)
    ensures
        real_count(a + b) == real_count(a) + real_count(b),
    decreases b.len(),
{
    if b.len() == 0 {
        assert(a + b =~= a);
    } else {
        lemma_real_count_concat(a, b.drop_last());
        assert((a + b).drop_last() =~= a + b.drop_last());
    }
}

proof fn lemma_real_count_single<V>(n: Node<Option<(usize, V)>>)
    ensures
        real_count(seq![n]) == if n.value() is Some {
            1nat
        } else {
            0nat
        },
{
    let e = Seq::<Node<Option<(usize, V)>>>::empty();
    assert(seq![n].drop_last() =~= e);
    assert(real_count(e) == 0);
    assert(seq![n].last() == n);
}

proof fn lemma_real_count_insert<V>(s: Seq<Node<Option<(usize, V)>>>, i: int, n: Node<Option<(usize, V)>>)
    requires
        0 <= i <= s.len(),
    ensures
        real_count(s.insert(i, n)) == real_count(s) + if n.value() is Some {
            1nat
        } else {
            0nat
        },
{
    let a = s.take(i);
    let b = s.skip(i);
    assert(s =~= a + b);
    assert(s.insert(i, n) =~= (a + seq![n]) + b);
    lemma_real_count_concat(a, b);
    lemma_real_count_concat(a + seq![n], b);
    lemma_real_count_concat(a, seq![n]);
    lemma_real_count_single(n);
}

proof fn lemma_real_count_remove<V>(s: Seq<Node<Option<(usize, V)>>>, i: int)
    requires
        0 <= i < s.len(),
    ensures
        real_count(s) == real_count(s.remove(i)) + if s[i].value() is Some {
            1nat
        } else {
            0nat
        },
{
    let a = s.take(i);
    let b = s.skip(i + 1);
    assert(s =~= (a + seq![s[i]]) + b);
    assert(s.remove(i) =~= a + b);
    lemma_real_count_concat(a, b);
    lemma_real_count_concat(a + seq![s[i]], b);
    lemma_real_count_concat(a, seq![s[i]]);
    lemma_real_count_single(s[i]);
}

proof fn lemma_real_count_le<V>(s: Seq<Node<Option<(usize, V)>>>)
    ensures
        real_count(s) <= s.len(),
    decreases s.len(),
{
    if s.len() > 0 {
        lemma_real_count_le(s.drop_last());
    }
}

/// The node `n` sits where its contents say: an entry node under the ordered key of its key,
/// which is a valid key; a sentinel under an even key.
spec fn node_ok<V>(n: Node<Option<(usize, V)>>) -> bool {
    &&& n.value() is Some ==> {
        let p = n.value()->0;
        &&& n.key() == so_key(p.0)
        &&& reverse_facts(p.0)
        &&& high_bit(p.0) == 0
    }
    &&& n.value() is None ==> n.key() & 1 == 0
}

/// Every node of `s` sits where its contents say.
spec fn nodes_ok<V>(s: Seq<Node<Option<(usize, V)>>>) -> bool {
    forall|i: int| 0 <= i < s.len() ==> #[trigger] node_ok(s[i])
}

/// Inserting a node that sits where its contents say keeps every node so.
proof fn lemma_nodes_ok_insert<V>(s: Seq<Node<Option<(usize, V)>>>, pos: int, n: Node<Option<(usize, V)>>)
    requires
        nodes_ok(s),
        node_ok(n),
        0 <= pos <= s.len(),
    ensures
        nodes_ok(s.insert(pos, n)),
{
    let t = s.insert(pos, n);
    assert forall|i: int| 0 <= i < t.len() implies #[trigger] node_ok(t[i]) by {
        if i < pos {
            assert(t[i] == s[i]);
        } else if i > pos {
            assert(t[i] == s[i - 1]);
        }
    }
}

/// Removing a node keeps every other node where its contents say.
proof fn lemma_nodes_ok_remove<V>(s: Seq<Node<Option<(usize, V)>>>, pos: int)
    requires
        nodes_ok(s),
        0 <= pos < s.len(),
    ensures
        nodes_ok(s.remove(pos)),
{
    let t = s.remove(pos);
    assert forall|i: int| 0 <= i < t.len() implies #[trigger] node_ok(t[i]) by {
        if i < pos {
            assert(t[i] == s[i]);
        } else {
            assert(t[i] == s[i + 1]);
        }
    }
}

/// Two keys with the same ordered key are the same key.
proof fn lemma_so_key_injective(a: usize, b: usize)
    requires
        reverse_facts(a),
        reverse_facts(b),
        high_bit(a) == 0,
        high_bit(b) == 0,
        so_key(a) == so_key(b),
    ensures
        a == b,
{
    let ra = usize_reverse_bits(a);
    let rb = usize_reverse_bits(b);
    assert(ra & 1 == 0 && rb & 1 == 0 && (ra | 1) == (rb | 1) ==> ra == rb) by (bit_vector);
}

/// An ordered key is odd.
proof fn lemma_so_key_odd(k: usize)
    ensures
        so_key(k) & 1 == 1,
{
    let r = usize_reverse_bits(k);
    assert((r | 1) & 1 == 1) by (bit_vector);
}

/// Two to the power `k`.
pub open spec fn two_to(k: nat) -> nat
    decreases k,
{
    if k == 0 {
        1
    } else {
        2 * two_to((k - 1) as nat)
    }
}

/// The greatest power of two not above `i` (for `i >= 1`).
pub open spec fn high_pow(i: nat) -> nat
    decreases i,
{
    if i <= 1 {
        1
    } else {
        2 * high_pow(i / 2)
    }
}

/// The parent of bucket `i`: `i` with its highest set bit cleared.
pub open spec fn parent_of(i: usize) -> usize {
    (i - high_pow(i as nat)) as usize
}

/// A power of two between `i / 2` and `i` is the greatest one not above `i`.
proof fn lemma_high_pow(i: nat, k: nat)
    requires
        two_to(k) <= i < 2 * two_to(k),
    ensures
        high_pow(i) == two_to(k),
    decreases k,
{
    if k > 0 {
        let h = two_to((k - 1) as nat);
        assert(h <= i / 2 < 2 * h);
        lemma_high_pow(i / 2, (k - 1) as nat);
    }
}

/// The index of the bucket whose sentinel precedes bucket `index`'s: `index` with its highest
/// set bit cleared, that is, `index` less the greatest power of two not above it.
fn parent_bucket(index: usize) -> (r: usize)
    requires
        index > 0,
    ensures
        r < index,
        r == parent_of(index),
        exists|k: nat| #[trigger] two_to(k) <= index < 2 * two_to(k) && r == index - two_to(k),
{
    let mut highest: usize = 1;
    let ghost mut k: nat = 0;
    while highest <= index / 2
        invariant
            1 <= highest <= index,
            highest == two_to(k),
        decreases index - highest,
    {
        highest = highest * 2;
        proof {
            k = k + 1;
        }
    }
    assert(two_to(k) <= index < 2 * two_to(k));
    proof {
        lemma_high_pow(index as nat, k);
    }
    index - highest
}

/// Lock-free map from `usize` in range \[0, 2^(BITS-1)\) to `V`, over a list sorted by
/// recursive-split order. An entry node holds its key beside its value; a sentinel node holds
/// nothing.
#[derive(Debug)]
pub struct SplitOrderedList<V> {
    list: List<Option<(usize, V)>>,
    buckets: GrowableArray<usize>,
    /// Number of buckets.
    size: usize,
    /// Number of entries.
    count: usize,
}

impl<V> SplitOrderedList<V> {
    /// `size` is doubled when `count > size * LOAD_FACTOR`.
    pub const LOAD_FACTOR: usize = 2;

    /// What the list holds, by ordered key.
    pub closed spec fn items(&self) -> Map<usize, Option<(usize, V)>> {
        self.list@
    }

    /// The number of buckets.
    pub closed spec fn bucket_count(&self) -> nat {
        self.size as nat
    }

    /// The number of entries.
    pub closed spec fn entry_count(&self) -> nat {
        self.count as nat
    }

    /// The entries of the map: key `k` maps to `v` where the list holds `(k, v)` under the
    /// ordered key of `k`.
    pub open spec fn view(&self) -> Map<usize, V> {
        Map::new(
            |k: usize|
                self.items().contains_key(so_key(k)) && self.items()[so_key(k)] is Some
                    && (self.items()[so_key(k)]->0).0 == k,
            |k: usize| (self.items()[so_key(k)]->0).1,
        )
    }

    /// The invariant: the list is sorted; an entry node sits under the ordered key of its key,
    /// which is a valid key; a sentinel sits under an even key; `count` counts the entry nodes;
    /// the number of buckets is at least two and below `2^(BITS-1)`, so that a bucket index is a
    /// valid key.
    pub closed spec fn wf(&self) -> bool {
        let s = self.list.nodes();
        &&& self.list.wf()
        &&& self.buckets.wf()
        &&& 2 <= self.size
        &&& high_bit(self.size) == 0
        &&& self.count == real_count(s)
        &&& nodes_ok(s)
        &&& forall|i: usize| #[trigger] self.buckets@.contains_key(i) ==> self.bucket_recorded(i)
    }

    /// Bucket `i` is recorded: the array holds its sentinel key, the bit reversal of `i`, which is
    /// even and is a key of the list; and its parent bucket is recorded too.
    closed spec fn bucket_recorded(&self, i: usize) -> bool {
        &&& self.buckets@[i] == usize_reverse_bits(i)
        &&& usize_reverse_bits(i) & 1 == 0
        &&& self.list@.contains_key(usize_reverse_bits(i))
        &&& (i > 0 ==> self.buckets@.contains_key(parent_of(i)))
    }

    /// Creates a new split ordered list.
    pub fn new() -> (r: Self)
        ensures
            r.wf(),
            r@ == Map::<usize, V>::empty(),
            r.bucket_count() == 2,
            r.entry_count() == 0,
    {
        let r = Self { list: List::new(), buckets: GrowableArray::new(), size: 2, count: 0 };
        proof {
            assert(r.list.nodes() =~= Seq::<Node<Option<(usize, V)>>>::empty());
            assert(real_count(r.list.nodes()) == 0);
            assert((2usize >> ((usize::BITS - 1) as u32)) == 0) by (bit_vector);
        }
        assert(r@ =~= Map::<usize, V>::empty());
        r
    }

    /// Inserting a sentinel under an even key keeps the invariant and the entries.
    proof fn lemma_insert_sentinel(old_s: Self, new_s: Self, pos: int, n: Node<Option<(usize, V)>>)
        requires
            old_s.wf(),
            new_s.list.wf(),
            new_s.buckets.wf(),
            new_s.buckets@ == old_s.buckets@,
            new_s.size == old_s.size,
            new_s.count == old_s.count,
            0 <= pos <= old_s.list.nodes().len(),
            new_s.list.nodes() == old_s.list.nodes().insert(pos, n),
            new_s.list@ == old_s.list@.insert(n.key(), n.value()),
            n.value() is None,
            n.key() & 1 == 0,
        ensures
            new_s.wf(),
            new_s@ == old_s@,
    {
        let s = old_s.list.nodes();
        let t = new_s.list.nodes();
        lemma_real_count_insert(s, pos, n);
        lemma_nodes_ok_insert(s, pos, n);
        assert forall|i: usize| #[trigger] new_s.buckets@.contains_key(i) implies new_s.bucket_recorded(
            i,
        ) by {
            assert(old_s.bucket_recorded(i));
        }
        assert forall|k: usize| #[trigger] new_s@.contains_key(k) == old_s@.contains_key(k) by {
            lemma_so_key_odd(k);
            assert(so_key(k) != n.key());
        }
        assert forall|k: usize| #[trigger] new_s@.contains_key(k) implies new_s@[k] == old_s@[k] by {
            lemma_so_key_odd(k);
            assert(so_key(k) != n.key());
        }
        assert(new_s@ =~= old_s@);
    }

    /// Creates a cursor and moves it to the sentinel of bucket `index`. If the bucket is not
    /// initialized, recursively initializes the buckets: the parent bucket first, then this
    /// bucket's sentinel, found or inserted after the parent's.
    fn lookup_bucket(&mut self, index: usize) -> (r: Cursor)
        requires
            old(self).wf(),
            index < old(self).size,
        ensures
            final(self).wf(),
            final(self)@ == old(self)@,
            final(self).size == old(self).size,
            final(self).count == old(self).count,
            r.pos() < final(self).list.nodes().len(),
            final(self).list.nodes()[r.pos()].key() == usize_reverse_bits(index),
            final(self).buckets@.contains_key(index),
            final(self).buckets@[index] == usize_reverse_bits(index),
            index > 0 ==> final(self).buckets@.contains_key(parent_of(index))
                && final(self).items().contains_key(usize_reverse_bits(parent_of(index))),
        decreases index,
    {
        let sentinel_key = reverse_bits(index);
        proof {
            let m = self.size;
            assert(index < m && (m >> ((usize::BITS - 1) as u32)) == 0 ==> (index >> ((
            usize::BITS - 1) as u32)) == 0) by (bit_vector);
        }
        let initialized = match self.buckets.get(index) {
            Some(k) => *k == sentinel_key,
            None => false,
        };
        if initialized {
            let mut cursor = self.list.head();
            match cursor.find_harris(&self.list, &sentinel_key) {
                Ok(true) => {
                    proof {
                        assert(self.bucket_recorded(index));
                        if index > 0 {
                            assert(self.bucket_recorded(parent_of(index)));
                        }
                    }
                    return cursor;
                },
                _ => {},
            }
        }
        let mut cursor = self.list.head();
        if index != 0 {
            let parent = parent_bucket(index);
            let parent_cursor = self.lookup_bucket(parent);
            let parent_key = reverse_bits(parent);
            if parent_key < sentinel_key {
                cursor = parent_cursor;
                proof {
                    let s = self.list.nodes();
                    assert forall|i: int| 0 <= i < cursor.pos() implies #[trigger] s[i].key()
                        < sentinel_key by {
                        assert(s[i].key() < s[cursor.pos()].key());
                    }
                }
            }
        }
        let found = match cursor.find_harris(&self.list, &sentinel_key) {
            Ok(f) => f,
            Err(()) => false,
        };
        if !found {
            let ghost before = *self;
            let node = Node::new(sentinel_key, None);
            let ghost n = node;
            let _ = cursor.insert(&mut self.list, node);
            proof {
                Self::lemma_insert_sentinel(before, *self, cursor.pos(), n);
            }
        }
        let ghost before_swap = *self;
        proof {
            lemma_sorted_index(self.list.nodes(), cursor.pos());
            if index > 0 {
                assert(self.bucket_recorded(parent_of(index)));
            }
        }
        let _ = self.buckets.swap(index, Some(sentinel_key));
        proof {
            assert forall|i: usize| #[trigger] self.buckets@.contains_key(i) implies self.bucket_recorded(
                i,
            ) by {
                if i != index {
                    assert(before_swap.buckets@.contains_key(i));
                    assert(before_swap.bucket_recorded(i));
                    if i > 0 {
                        assert(before_swap.buckets@.contains_key(parent_of(i)));
                        assert(self.buckets.entry(parent_of(i)) == before_swap.buckets.entry(parent_of(i))
                            || parent_of(i) == index);
                    }
                }
            }
        }
        cursor
    }

    /// Moves a cursor from the sentinel of the bucket of `key` to the position of `key`'s
    /// ordered key. Returns `(size, found, cursor)`.
    fn find(&mut self, key: usize) -> (r: (usize, bool, Cursor))
        requires
            old(self).wf(),
            high_bit(key) == 0,
        ensures
            final(self).wf(),
            final(self)@ == old(self)@,
            final(self).size == old(self).size,
            final(self).count == old(self).count,
            r.0 == old(self).size,
            reverse_facts(key),
            is_lower_bound(final(self).list.nodes(), r.2.pos(), so_key(key)),
            r.1 == (r.2.pos() < final(self).list.nodes().len() && final(self).list.nodes()[r.2.pos()].key()
                == so_key(key)),
    {
        let size = self.size;
        let bucket_index = key & (size - 1);
        proof {
            let m = (size - 1) as usize;
            assert(key & m <= m) by (bit_vector);
        }
        let ordered_key = ordered_key(key);
        let bucket = self.lookup_bucket(bucket_index);
        let bucket_key = reverse_bits(bucket_index);
        let mut cursor = self.list.head();
        if bucket_key < ordered_key {
            cursor = bucket;
            proof {
                let s = self.list.nodes();
                assert forall|i: int| 0 <= i < cursor.pos() implies #[trigger] s[i].key()
                    < ordered_key by {
                    assert(s[i].key() < s[cursor.pos()].key());
                }
            }
        }
        let found = match cursor.find_harris(&self.list, &ordered_key) {
            Ok(f) => f,
            Err(()) => false,
        };
        (size, found, cursor)
    }

    /// The node that `find` stops at holds the entry of `key`, if the map has one.
    proof fn lemma_found(&self, key: usize, pos: int, found: bool)
        requires
            self.wf(),
            high_bit(key) == 0,
            reverse_facts(key),
            is_lower_bound(self.list.nodes(), pos, so_key(key)),
            found == (pos < self.list.nodes().len() && self.list.nodes()[pos].key() == so_key(key)),
        ensures
            !found ==> !self@.contains_key(key) && !self.items().contains_key(so_key(key)),
            found ==> self@.contains_key(key) && self.list.nodes()[pos].value() == Some(
                (key, self@[key]),
            ) && self.items()[so_key(key)] == self.list.nodes()[pos].value(),
    {
        let s = self.list.nodes();
        lemma_lower_bound_found(s, pos, so_key(key));
        if found {
            lemma_sorted_index(s, pos);
            lemma_so_key_odd(key);
            assert(node_ok(s[pos]));
            if s[pos].value() is None {
                assert(s[pos].key() & 1 == 0);
            } else {
                let p = s[pos].value()->0;
                lemma_so_key_injective(p.0, key);
            }
        }
    }
}

impl<V> ConcurrentMap<usize, V> for SplitOrderedList<V> {
    open spec fn entries(&self) -> Map<usize, V> {
        self@
    }

    open spec fn inv(&self) -> bool {
        self.wf()
    }

    open spec fn accepts(key: usize) -> bool {
        high_bit(key) == 0
    }

    /// Looks up `key`; the entries, their count and the number of buckets stay as they were.
    fn lookup(&mut self, key: &usize) -> (r: Option<&V>)
        ensures
            final(self).entry_count() == old(self).entry_count(),
            final(self).bucket_count() == old(self).bucket_count(),
    {
        let (_, found, cursor) = self.find(*key);
        proof {
            self.lemma_found(*key, cursor.pos(), found);
        }
        if !found {
            return None;
        }
        match cursor.lookup(&self.list) {
            Some(p) => Some(&p.1),
            None => None,
        }
    }

    /// Inserts `key` with `value`. A new entry is counted, and the number of buckets doubles
    /// once the entries exceed `LOAD_FACTOR` per bucket (while twice the buckets still leaves
    /// the highest bit clear).
    fn insert(&mut self, key: usize, value: V) -> (r: Result<(), V>)
        ensures
            r is Ok ==> final(self).entry_count() == old(self).entry_count() + 1,
            r is Ok ==> final(self).bucket_count() == if old(self).bucket_count() <= usize::MAX / 2
                && final(self).entry_count() > old(self).bucket_count() * 2 && high_bit(
                (old(self).bucket_count() * 2) as usize,
            ) == 0 {
                old(self).bucket_count() * 2
            } else {
                old(self).bucket_count()
            },
            r is Err ==> final(self).entry_count() == old(self).entry_count()
                && final(self).bucket_count() == old(self).bucket_count(),
    {
        let (size, found, mut cursor) = self.find(key);
        proof {
            self.lemma_found(key, cursor.pos(), found);
        }
        if found {
            return Err(value);
        }
        let ordered_key = ordered_key(key);
        let ghost before = *self;
        let node = Node::new(ordered_key, Some((key, value)));
        let ghost n = node;
        let _ = cursor.insert(&mut self.list, node);
        let len = self.list.len();
        proof {
            let s = before.list.nodes();
            let t = self.list.nodes();
            let pos = cursor.pos();
            lemma_real_count_insert(s, pos, n);
            lemma_real_count_le(s);
            lemma_nodes_ok_insert(s, pos, n);
        }
        self.count = self.count + 1;
        if size <= usize::MAX / Self::LOAD_FACTOR && self.count > size * Self::LOAD_FACTOR
            && (size * 2) >> (usize::BITS - 1) == 0 {
            self.size = size * 2;
        }
        proof {
            assert(self@ =~= before@.insert(key, value));
        }
        Ok(())
    }

    /// Deletes `key`. A deleted entry is uncounted; the number of buckets stays.
    fn delete(&mut self, key: &usize) -> (r: Result<V, ()>)
        ensures
            r is Ok ==> final(self).entry_count() == old(self).entry_count() - 1,
            r is Err ==> final(self).entry_count() == old(self).entry_count(),
            final(self).bucket_count() == old(self).bucket_count(),
    {
        let (_, found, mut cursor) = self.find(*key);
        proof {
            self.lemma_found(*key, cursor.pos(), found);
        }
        if !found {
            return Err(());
        }
        let ghost before = *self;
        let removed = cursor.delete(&mut self.list);
        proof {
            let s = before.list.nodes();
            let t = self.list.nodes();
            let pos = cursor.pos();
            lemma_real_count_remove(s, pos);
            lemma_nodes_ok_remove(s, pos);
            assert(self@ =~= before@.remove(*key));
            lemma_so_key_odd(*key);
            assert forall|i: usize| #[trigger] self.buckets@.contains_key(i) implies self.bucket_recorded(
                i,
            ) by {
                assert(before.bucket_recorded(i));
                assert(usize_reverse_bits(i) != so_key(*key));
            }
        }
        match removed {
            Ok(Some(p)) => {
                self.count = self.count - 1;
                Ok(p.1)
            },
            _ => Err(()),
        }
    }
}

impl<V> Default for SplitOrderedList<V> {
    fn default() -> (r: Self)
        ensures
            r.wf(),
            r@ == Map::<usize, V>::empty(),
    {
        Self::new()
    }
}

} // verus!
