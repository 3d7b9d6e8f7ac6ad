//! Server statistics.

use vstd::prelude::*;

verus! {

/// The view of an optional string key.
pub open spec fn key_view(k: Option<String>) -> Option<Seq<char>> {
    match k {
        Some(s) => Some(s@),
        None => None,
    }
}

/// Report for each operation.
#[derive(Debug)]
pub struct Report {
    _id: usize,
    /// The requested key; `None` represents an invalid request.
    key: Option<String>,
}

impl Report {
    /// The id of the report.
    pub closed spec fn id(&self) -> usize {
        self._id
    }

    /// The requested key, `None` for an invalid request.
    pub closed spec fn key(&self) -> Option<Seq<char>> {
        key_view(self.key)
    }

    /// Creates a new report with the given id and key.
    pub fn new(id: usize, key: Option<String>) -> (r: Self)
        ensures
            r.id() == id,
            r.key() == key_view(key),
    {
        Report { _id: id, key }
    }
}

/// Operation statistics: how many reports were made for each key.
#[derive(Debug)]
pub struct Statistics {
    /// One entry per distinct key, with its number of hits.
    hits: Vec<(Option<String>, usize)>,
}

/// Whether two optional strings hold the same key.
fn same_key(a: &Option<String>, b: &Option<String>) -> (r: bool)
    ensures
        r == (key_view(*a) == key_view(*b)),
{
    match (a, b) {
        (Some(x), Some(y)) => x.eq(y),
        (None, None) => true,
        _ => false,
    }
}

impl Statistics {
    /// The number of hits of each key that was reported at least once.
    pub closed spec fn view(&self) -> Map<Option<Seq<char>>, nat> {
        Map::new(
            |k: Option<Seq<char>>| exists|i: int| 0 <= i < self.hits@.len() && #[trigger] key_view(self.hits@[i].0) == k,
            |k: Option<Seq<char>>| {
                let i = choose|i: int| 0 <= i < self.hits@.len() && #[trigger] key_view(self.hits@[i].0) == k;
                self.hits@[i].1 as nat
            },
        )
    }

    /// No key has two entries.
    pub closed spec fn wf(&self) -> bool {
        forall|i: int, j: int|
            0 <= i < j < self.hits@.len() ==> key_view(#[trigger] self.hits@[i].0) != key_view(
                #[trigger] self.hits@[j].0,
            )
    }

    /// The number of hits of key `k` (zero if it was never reported).
    pub open spec fn hits_of(&self, k: Option<Seq<char>>) -> nat {
        if self@.contains_key(k) {
            self@[k]
        } else {
            0
        }
    }

    /// Creates empty statistics.
    pub fn new() -> (r: Self)
        ensures
            r.wf(),
            r@ == Map::<Option<Seq<char>>, nat>::empty(),
    {
        let r = Statistics { hits: Vec::new() };
        assert(r@ =~= Map::<Option<Seq<char>>, nat>::empty());
        r
    }

    /// The number of hits of `key` (zero if it was never reported).
    pub fn hits(&self, key: &Option<String>) -> (r: usize)
        requires
            self.wf(),
        ensures
            r == self.hits_of(key_view(*key)),
    {
        let ghost k = key_view(*key);
        let mut i: usize = 0;
        while i < self.hits.len()
            invariant
                self.wf(),
                i <= self.hits@.len(),
                k == key_view(*key),
                forall|j: int| 0 <= j < i ==> key_view(#[trigger] self.hits@[j].0) != k,
            decreases self.hits@.len() - i,
        {
            if same_key(&self.hits[i].0, key) {
                proof {
                    self.lemma_entry(i as int);
                }
                return self.hits[i].1;
            }
            i = i + 1;
        }
        proof {
            if self@.contains_key(k) {
                let j = choose|j: int| 0 <= j < self.hits@.len() && #[trigger] key_view(self.hits@[j].0) == k;
                assert(key_view(self.hits@[j].0) == k);
            }
        }
        0
    }

    /// Adds a report: the hit count of its key goes up by one.
    pub fn add_report(&mut self, report: Report)
        requires
            old(self).wf(),
            old(self).hits_of(report.key()) < usize::MAX,
        ensures
            final(self).wf(),
            final(self)@ == old(self)@.insert(report.key(), old(self).hits_of(report.key()) + 1),
    {
        let ghost k = report.key();
        let mut i: usize = 0;
        while i < self.hits.len()
            invariant
                self.wf(),
                self.hits@ == old(self).hits@,
                old(self).hits_of(k) < usize::MAX,
                k == key_view(report.key),
                i <= self.hits@.len(),
                forall|j: int| 0 <= j < i ==> key_view(#[trigger] self.hits@[j].0) != k,
            decreases self.hits@.len() - i,
        {
            if same_key(&self.hits[i].0, &report.key) {
                let ghost old_hits = self.hits@;
                proof {
                    self.lemma_entry(i as int);
                }
                let (key, count) = self.hits.remove(i);
                self.hits.insert(i, (key, count + 1));
                proof {
                    assert(self.hits@ =~= old_hits.update(i as int, (old_hits[i as int].0, (count + 1) as usize)));
                    assert forall|a: int, b: int|
                        0 <= a < b < self.hits@.len() implies key_view(#[trigger] self.hits@[a].0) != key_view(
                        #[trigger] self.hits@[b].0) by {
                        assert(key_view(old_hits[a].0) != key_view(old_hits[b].0));
                    }
                    self.lemma_entry(i as int);
                    assert forall|q: Option<Seq<char>>| #[trigger] self@.contains_key(q) <==> old(self)@.insert(k, (count + 1) as nat).contains_key(q) by {
                        if q != k {
                            if self@.contains_key(q) {
                                let j = choose|j: int| 0 <= j < self.hits@.len() && #[trigger] key_view(self.hits@[j].0) == q;
                                assert(key_view(old_hits[j].0) == q);
                            }
                            if old(self)@.contains_key(q) {
                                let j = choose|j: int| 0 <= j < old_hits.len() && #[trigger] key_view(old_hits[j].0) == q;
                                assert(key_view(self.hits@[j].0) == q);
                            }
                        }
                    }
                    assert forall|q: Option<Seq<char>>| #[trigger] self@.contains_key(q) implies self@[q] == old(self)@.insert(k, (count + 1) as nat)[q] by {
                        if q != k {
                            let j = choose|j: int| 0 <= j < self.hits@.len() && #[trigger] key_view(self.hits@[j].0) == q;
                            self.lemma_entry(j);
                            old(self).lemma_entry(j);
                        }
                    }
                    assert(self@ =~= old(self)@.insert(k, (count + 1) as nat));
                }
                return;
            }
            i = i + 1;
        }
        let ghost old_hits = self.hits@;
        proof {
            assert(!old(self)@.contains_key(k));
        }
        self.hits.push((report.key, 1));
        proof {
            let n = old_hits.len() as int;
            assert(key_view(self.hits@[n].0) == k);
            assert forall|a: int, b: int|
                0 <= a < b < self.hits@.len() implies key_view(#[trigger] self.hits@[a].0) != key_view(
                #[trigger] self.hits@[b].0) by {
                if b < n {
                    assert(key_view(old_hits[a].0) != key_view(old_hits[b].0));
                }
            }
            self.lemma_entry(n);
            assert forall|q: Option<Seq<char>>| #[trigger] self@.contains_key(q) <==> old(self)@.insert(k, 1).contains_key(q) by {
                if q != k {
                    if self@.contains_key(q) {
                        let j = choose|j: int| 0 <= j < self.hits@.len() && #[trigger] key_view(self.hits@[j].0) == q;
                        assert(j != n);
                        assert(key_view(old_hits[j].0) == q);
                    }
                    if old(self)@.contains_key(q) {
                        let j = choose|j: int| 0 <= j < old_hits.len() && #[trigger] key_view(old_hits[j].0) == q;
                        assert(key_view(self.hits@[j].0) == q);
                    }
                }
            }
            assert forall|q: Option<Seq<char>>| #[trigger] self@.contains_key(q) implies self@[q] == old(self)@.insert(k, 1)[q] by {
                if q != k {
                    let j = choose|j: int| 0 <= j < self.hits@.len() && #[trigger] key_view(self.hits@[j].0) == q;
                    self.lemma_entry(j);
                    assert(j < n);
                    old(self).lemma_entry(j);
                }
            }
            assert(self@ =~= old(self)@.insert(k, 1));
        }
    }

    /// In well-formed statistics, entry `i` holds the count of its key.
    proof fn lemma_entry(&self, i: int)
        requires
            self.wf(),
            0 <= i < self.hits@.len(),
        ensures
            self@.contains_key(key_view(self.hits@[i].0)),
            self@[key_view(self.hits@[i].0)] == self.hits@[i].1 as nat,
    {
        let k = key_view(self.hits@[i].0);
        assert(key_view(self.hits@[i].0) == k);
        let j = choose|j: int| 0 <= j < self.hits@.len() && #[trigger] key_view(self.hits@[j].0) == k;
        if j != i {
            if j < i {
                assert(key_view(self.hits@[j].0) != key_view(self.hits@[i].0));
            } else {
                assert(key_view(self.hits@[i].0) != key_view(self.hits@[j].0));
            }
        }
    }
}

impl Default for Statistics {
    fn default() -> (r: Self)
        ensures
            r.wf(),
            r@ == Map::<Option<Seq<char>>, nat>::empty(),
    {
        Self::new()
    }
}

} // verus!
