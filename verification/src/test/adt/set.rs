//! Randomized checks of set implementations against a reference set.
//!
//! Each check runs random operations (`contains`, `insert`, `remove` of random keys) on the set
//! under test and on a reference `HashSet`, and compares the results.

use crate::adt::ConcurrentSet;
use crate::test::random::{random_below, thread_rng, RandGen, USIZE_MASK};
use std::collections::HashSet;
use vstd::prelude::*;

verus! {

broadcast use vstd::std_specs::hash::group_hash_axioms;

/// An operation on a set.
#[derive(Debug, Clone, Copy)]
pub enum Operation {
    /// Does the set contain the key?
    Contains(usize),
    /// Insert the key.
    Insert(usize),
    /// Remove the key.
    Remove(usize),
}

/// What `op` returns on a set holding `s`.
pub open spec fn op_result(s: Set<usize>, op: Operation) -> bool {
    match op {
        Operation::Contains(k) => s.contains(k),
        Operation::Insert(k) => !s.contains(k),
        Operation::Remove(k) => s.contains(k),
    }
}

/// What a set holding `s` holds after `op`.
pub open spec fn op_effect(s: Set<usize>, op: Operation) -> Set<usize> {
    match op {
        Operation::Contains(_) => s,
        Operation::Insert(k) => s.insert(k),
        Operation::Remove(k) => s.remove(k),
    }
}

/// An operation changes the membership of its key alone.
proof fn lemma_effect_changes_key(s: Set<usize>, op: Operation)
    ensures
        forall|k: usize| #[trigger] op_effect(s, op).contains(k) != s.contains(k) ==> k == op_key(op),
{
}

/// Applies `op` to `set` and returns its result.
pub fn apply<S: ConcurrentSet<usize>>(set: &mut S, op: Operation) -> (r: bool)
    requires
        old(set).inv(),
    ensures
        final(set).inv(),
        r == op_result(old(set).elements(), op),
        final(set).elements() == op_effect(old(set).elements(), op),
{
    match op {
        Operation::Contains(k) => set.contains(&k),
        Operation::Insert(k) => set.insert(k),
        Operation::Remove(k) => set.remove(&k),
    }
}

/// Applies `op` to the reference set and returns its result.
fn apply_reference(reference: &mut HashSet<usize>, op: Operation) -> (r: bool)
    ensures
        r == op_result(old(reference)@, op),
        final(reference)@ == op_effect(old(reference)@, op),
{
    match op {
        Operation::Contains(k) => reference.contains(&k),
        Operation::Insert(k) => reference.insert(k),
        Operation::Remove(k) => {
            let r = reference.remove(&k);
            assert(reference@ =~= old(reference)@.remove(k));
            r
        },
    }
}

/// A key that a random operation may carry: only bits of `USIZE_MASK` are set.
pub open spec fn masked(k: usize) -> bool {
    (k as u64) & USIZE_MASK == k as u64
}

/// The key of `op`.
pub open spec fn op_key(op: Operation) -> usize {
    match op {
        Operation::Contains(k) => k,
        Operation::Insert(k) => k,
        Operation::Remove(k) => k,
    }
}

/// A random operation on a random key. Whatever comes out, the key has only bits of
/// `USIZE_MASK` set (as `usize::rand_gen` makes it).
pub fn random_operation(rng: &mut rand::rngs::ThreadRng) -> (r: Operation)
    ensures
        masked(op_key(r)),
{
    let kind = random_below(rng, 3);
    let key = usize::rand_gen(rng);
    if kind == 0 {
        Operation::Contains(key)
    } else if kind == 1 {
        Operation::Insert(key)
    } else {
        Operation::Remove(key)
    }
}

/// Runs `steps` random operations on `set` and on a reference set that starts with the same
/// contents, and returns whether every result agreed. They always agree.
pub fn stress_sequential<S: ConcurrentSet<usize>>(set: &mut S, steps: usize) -> (r: bool)
    requires
        old(set).inv(),
        old(set).elements() == Set::<usize>::empty(),
    ensures
        r,
        final(set).inv(),
        forall|k: usize| #[trigger] final(set).elements().contains(k) ==> masked(k),
{
    let mut rng = thread_rng();
    let mut reference: HashSet<usize> = HashSet::new();
    let mut i: usize = 0;
    while i < steps
        invariant
            set.inv(),
            reference@ == set.elements(),
            i <= steps,
            forall|k: usize| #[trigger] set.elements().contains(k) ==> masked(k),
        decreases steps - i,
    {
        let op = random_operation(&mut rng);
        let expected = apply_reference(&mut reference, op);
        let ghost before = set.elements();
        let got = apply(set, op);
        proof {
            lemma_effect_changes_key(before, op);
            assert forall|k: usize| #[trigger] set.elements().contains(k) implies masked(k) by {
                if k != op_key(op) {
                    assert(before.contains(k));
                }
            }
        }
        if expected != got {
            return false;
        }
        i = i + 1;
    }
    true
}

/// Runs `steps` rounds in which each of `threads` clients performs a random operation on `set`.
/// Whatever the operations, only keys with the shape of a random key change membership.
pub fn stress_concurrent<S: ConcurrentSet<usize>>(set: &mut S, threads: usize, steps: usize)
    requires
        old(set).inv(),
    ensures
        final(set).inv(),
        forall|k: usize|
            #[trigger] final(set).elements().contains(k) != old(set).elements().contains(k)
                ==> masked(k),
{
    let mut rng = thread_rng();
    let mut i: usize = 0;
    while i < steps
        invariant
            set.inv(),
            i <= steps,
            forall|k: usize|
                #[trigger] set.elements().contains(k) != old(set).elements().contains(k)
                    ==> masked(k),
        decreases steps - i,
    {
        let mut t: usize = 0;
        while t < threads
            invariant
                set.inv(),
                t <= threads,
                forall|k: usize|
                    #[trigger] set.elements().contains(k) != old(set).elements().contains(k)
                        ==> masked(k),
            decreases threads - t,
        {
            let op = random_operation(&mut rng);
            let ghost before = set.elements();
            let _ = apply(set, op);
            proof {
                lemma_effect_changes_key(before, op);
                assert forall|k: usize|
                    #[trigger] set.elements().contains(k) != old(set).elements().contains(k)
                    implies masked(k) by {
                    if k != op_key(op) {
                        assert(set.elements().contains(k) == before.contains(k));
                    }
                }
            }
            t = t + 1;
        }
        i = i + 1;
    }
}

/// One entry of an operation log: the client, the operation and its result.
#[derive(Debug, Clone, Copy)]
pub struct LogEntry {
    /// The client that performed the operation.
    pub thread: usize,
    /// The operation.
    pub op: Operation,
    /// Its result.
    pub result: bool,
}

/// Whether the results in `log` are those of its operations run in order on a set that starts
/// empty.
pub fn check_log(log: &Vec<LogEntry>) -> (r: bool)
    ensures
        r == log_consistent(log@, Set::<usize>::empty()),
{
    let mut reference: HashSet<usize> = HashSet::new();
    let mut i: usize = 0;
    assert(log@.skip(0) =~= log@);
    while i < log.len()
        invariant
            i <= log@.len(),
            log_consistent(log@, Set::<usize>::empty()) == log_consistent(log@.skip(i as int), reference@),
        decreases log@.len() - i,
    {
        let entry = log[i];
        proof {
            assert(log@.skip(i as int).drop_first() =~= log@.skip(i + 1));
        }
        let expected = apply_reference(&mut reference, entry.op);
        if expected != entry.result {
            return false;
        }
        i = i + 1;
    }
    true
}

/// The results in `log` are those of its operations run in order on a set holding `s`.
pub open spec fn log_consistent(log: Seq<LogEntry>, s: Set<usize>) -> bool
    decreases log.len(),
{
    if log.len() == 0 {
        true
    } else {
        log[0].result == op_result(s, log[0].op) && log_consistent(
            log.drop_first(),
            op_effect(s, log[0].op),
        )
    }
}

/// Runs `steps` rounds in which each of `threads` clients performs a random operation on `set`,
/// logging every operation with its result, then checks the log against a reference set.
/// The log always checks out.
pub fn log_concurrent<S: ConcurrentSet<usize>>(set: &mut S, threads: usize, steps: usize) -> (r: bool)
    requires
        old(set).inv(),
        old(set).elements() == Set::<usize>::empty(),
    ensures
        r,
        final(set).inv(),
        forall|k: usize| #[trigger] final(set).elements().contains(k) ==> masked(k),
{
    let mut rng = thread_rng();
    let mut log: Vec<LogEntry> = Vec::new();
    let mut i: usize = 0;
    while i < steps
        invariant
            set.inv(),
            i <= steps,
            log_consistent_from(log@, Set::<usize>::empty(), set.elements()),
            forall|k: usize| #[trigger] set.elements().contains(k) ==> masked(k),
        decreases steps - i,
    {
        let mut t: usize = 0;
        while t < threads
            invariant
                set.inv(),
                t <= threads,
                log_consistent_from(log@, Set::<usize>::empty(), set.elements()),
                forall|k: usize| #[trigger] set.elements().contains(k) ==> masked(k),
            decreases threads - t,
        {
            let op = random_operation(&mut rng);
            let ghost before = set.elements();
            let result = apply(set, op);
            proof {
                lemma_effect_changes_key(before, op);
                assert forall|k: usize| #[trigger] set.elements().contains(k) implies masked(k) by {
                    if k != op_key(op) {
                        assert(before.contains(k));
                    }
                }
            }
            let ghost old_log = log@;
            log.push(LogEntry { thread: t, op, result });
            proof {
                lemma_log_push(old_log, Set::<usize>::empty(), before, LogEntry { thread: t, op, result });
            }
            t = t + 1;
        }
        i = i + 1;
    }
    proof {
        lemma_log_consistent_from(log@, Set::<usize>::empty(), set.elements());
    }
    check_log(&log)
}

/// The results in `log` are those of its operations run in order on a set holding `s`, and the
/// set then holds `e`.
pub open spec fn log_consistent_from(log: Seq<LogEntry>, s: Set<usize>, e: Set<usize>) -> bool
    decreases log.len(),
{
    if log.len() == 0 {
        s == e
    } else {
        log[0].result == op_result(s, log[0].op) && log_consistent_from(
            log.drop_first(),
            op_effect(s, log[0].op),
            e,
        )
    }
}

proof fn lemma_log_consistent_from(log: Seq<LogEntry>, s: Set<usize>, e: Set<usize>)
    requires
        log_consistent_from(log, s, e),
    ensures
        log_consistent(log, s),
    decreases log.len(),
{
    if log.len() > 0 {
        lemma_log_consistent_from(log.drop_first(), op_effect(s, log[0].op), e);
    }
}

proof fn lemma_log_push(log: Seq<LogEntry>, s: Set<usize>, e: Set<usize>, entry: LogEntry)
    requires
        log_consistent_from(log, s, e),
        entry.result == op_result(e, entry.op),
    ensures
        log_consistent_from(log.push(entry), s, op_effect(e, entry.op)),
    decreases log.len(),
{
    reveal_with_fuel(log_consistent_from, 2);
    if log.len() == 0 {
        assert(log.push(entry).drop_first() =~= Seq::<LogEntry>::empty());
        assert(log.push(entry)[0] == entry);
    } else {
        lemma_log_push(log.drop_first(), op_effect(s, log[0].op), e, entry);
        assert(log.push(entry).drop_first() =~= log.drop_first().push(entry));
        assert(log.push(entry)[0] == log[0]);
    }
}

} // verus!
