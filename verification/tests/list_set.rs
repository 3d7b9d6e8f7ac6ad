use cs431::list_set::{FineGrainedListSet, OptimisticFineGrainedListSet};
use cs431::test::adt::set::{log_concurrent, stress_concurrent, stress_sequential};
use cs431::ConcurrentSet;

#[test]
fn fine_grained_set_operations() {
    let mut set = FineGrainedListSet::new();
    assert!(set.insert(3));
    assert!(set.insert(1));
    assert!(!set.insert(3));
    assert!(set.contains(&1));
    assert!(!set.contains(&2));
    assert!(set.remove(&1));
    assert!(!set.remove(&1));
    assert!(set.insert(2));
    let mut it = set.iter();
    assert_eq!(it.next(), Some(&2));
    assert_eq!(it.next(), Some(&3));
    assert_eq!(it.next(), None);
}

#[test]
fn optimistic_set_operations() {
    let mut set = OptimisticFineGrainedListSet::default();
    assert!(set.insert(5));
    assert!(set.insert(4));
    assert!(!set.insert(5));
    assert!(set.contains(&4));
    assert!(set.remove(&5));
    assert!(!set.contains(&5));
    let mut it = set.iter();
    assert_eq!(it.next(), Some(Ok(&4)));
    assert_eq!(it.next(), None);
}

#[test]
fn fine_grained_stress_sequential() {
    let mut set = FineGrainedListSet::new();
    assert!(stress_sequential(&mut set, 4096));
}

#[test]
fn optimistic_stress_sequential() {
    let mut set = OptimisticFineGrainedListSet::new();
    assert!(stress_sequential(&mut set, 4096));
}

#[test]
fn optimistic_stress_and_log() {
    let mut set = OptimisticFineGrainedListSet::new();
    stress_concurrent(&mut set, 4, 1024);
    let mut set = OptimisticFineGrainedListSet::new();
    assert!(log_concurrent(&mut set, 4, 1024));
}
