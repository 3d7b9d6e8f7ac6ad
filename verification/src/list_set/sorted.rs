//! Facts about strictly increasing sequences of values, the node chains of the list sets.

use vstd::prelude::*;

verus! {

/// The values of `s` are strictly increasing.
pub open spec fn sorted(s: Seq<usize>) -> bool {
    forall|i: int, j: int| 0 <= i < j < s.len() ==> s[i] < s[j]
}

/// `pos` is where `k` belongs in `s`: every value before it is smaller, and the value at it (if
/// any) is no smaller than `k`.
pub open spec fn is_lower_bound(s: Seq<usize>, pos: int, k: usize) -> bool {
    &&& 0 <= pos <= s.len()
    &&& forall|i: int| 0 <= i < pos ==> #[trigger] s[i] < k
    &&& pos < s.len() ==> s[pos] >= k
}

/// At the lower bound of `k`, the value there is `k` iff `k` is in the sequence.
pub proof fn lemma_lower_bound_found(s: Seq<usize>, pos: int, k: usize)
    requires
        sorted(s),
        is_lower_bound(s, pos, k),
    ensures
        s.to_set().contains(k) <==> (pos < s.len() && s[pos] == k),
{
    if s.to_set().contains(k) {
        assert(s.contains(k));
        let j = choose|j: int| 0 <= j < s.len() && s[j] == k;
        if j < pos {
            assert(s[j] < k);
        } else if j > pos {
            assert(s[pos] < s[j]);
        }
    }
    if pos < s.len() && s[pos] == k {
        assert(s.contains(k));
    }
}

/// Inserting a new value where it belongs keeps the sequence sorted and adds it to the set.
pub proof fn lemma_insert(s: Seq<usize>, pos: int, k: usize)
    requires
        sorted(s),
        is_lower_bound(s, pos, k),
        pos == s.len() || s[pos] != k,
    ensures
        sorted(s.insert(pos, k)),
        s.insert(pos, k).to_set() == s.to_set().insert(k),
{
    let t = s.insert(pos, k);
    assert forall|i: int, j: int| 0 <= i < j < t.len() implies t[i] < t[j] by {
        if j < pos {
        } else if j == pos {
        } else if i < pos {
            assert(s[i] < k);
            if j - 1 > pos {
                assert(s[pos] < s[j - 1]);
            }
        } else if i == pos {
            if j - 1 > pos {
                assert(s[pos] < s[j - 1]);
            }
        } else {
            assert(s[i - 1] < s[j - 1]);
        }
    }
    assert forall|x: usize| t.to_set().contains(x) <==> s.to_set().insert(k).contains(x) by {
        if t.contains(x) {
            let j = choose|j: int| 0 <= j < t.len() && t[j] == x;
            if j < pos {
                assert(s[j] == x);
            } else if j > pos {
                assert(s[j - 1] == x);
            }
        }
        if s.contains(x) {
            let j = choose|j: int| 0 <= j < s.len() && s[j] == x;
            if j < pos {
                assert(t[j] == x);
            } else {
                assert(t[j + 1] == x);
            }
        }
        if x == k {
            assert(t[pos] == x);
        }
    }
    assert(t.to_set() =~= s.to_set().insert(k));
}

/// Removing a value keeps the sequence sorted and removes it from the set.
pub proof fn lemma_remove(s: Seq<usize>, pos: int)
    requires
        sorted(s),
        0 <= pos < s.len(),
    ensures
        sorted(s.remove(pos)),
        s.remove(pos).to_set() == s.to_set().remove(s[pos]),
{
    let t = s.remove(pos);
    let kd = s[pos];
    assert forall|i: int, j: int| 0 <= i < j < t.len() implies t[i] < t[j] by {
        if j < pos {
        } else if i < pos {
            assert(s[i] < s[j + 1]);
        } else {
            assert(s[i + 1] < s[j + 1]);
        }
    }
    assert forall|x: usize| t.to_set().contains(x) <==> s.to_set().remove(kd).contains(x) by {
        if t.contains(x) {
            let j = choose|j: int| 0 <= j < t.len() && t[j] == x;
            if j < pos {
                assert(s[j] == x);
                assert(s[j] < kd);
            } else {
                assert(s[j + 1] == x);
                assert(kd < s[j + 1]);
            }
        }
        if s.contains(x) && x != kd {
            let j = choose|j: int| 0 <= j < s.len() && s[j] == x;
            if j < pos {
                assert(t[j] == x);
            } else {
                assert(j != pos);
                assert(t[j - 1] == x);
            }
        }
    }
    assert(t.to_set() =~= s.to_set().remove(kd));
}

} // verus!
