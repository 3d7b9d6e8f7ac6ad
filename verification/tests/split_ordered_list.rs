use cs431::hash_table::split_ordered_list::ordered_key;
use cs431::hash_table::SplitOrderedList;
use cs431::ConcurrentMap;

#[test]
fn split_ordered_list_smoke() {
    let mut map = SplitOrderedList::default();

    assert_eq!(map.insert(37, 37), Ok(()));
    assert_eq!(map.lookup(&42), None);
    assert_eq!(map.lookup(&37), Some(&37));

    assert_eq!(map.insert(42, 42), Ok(()));
    assert_eq!(map.lookup(&42), Some(&42));
    assert_eq!(map.lookup(&37), Some(&37));

    assert_eq!(map.insert(37, 73), Err(73));
    assert_eq!(map.lookup(&37), Some(&37));

    assert_eq!(map.delete(&37), Ok(37));
    assert_eq!(map.lookup(&42), Some(&42));
    assert_eq!(map.lookup(&37), None);

    assert_eq!(map.delete(&37), Err(()));
    assert_eq!(map.lookup(&42), Some(&42));
    assert_eq!(map.lookup(&37), None);
}

#[test]
fn split_ordered_list_grows_and_keeps_entries() {
    let mut map: SplitOrderedList<String> = SplitOrderedList::new();
    for k in 0..300usize {
        assert_eq!(map.insert(k * 7, format!("{k}")), Ok(()));
    }
    for k in 0..300usize {
        assert_eq!(map.lookup(&(k * 7)), Some(&format!("{k}")));
        assert_eq!(map.lookup(&(k * 7 + 1)), None);
    }
    for k in (0..300usize).step_by(2) {
        assert_eq!(map.delete(&(k * 7)), Ok(format!("{k}")));
    }
    for k in 0..300usize {
        let expected = if k % 2 == 0 { None } else { Some(format!("{k}")) };
        assert_eq!(map.lookup(&(k * 7)).cloned(), expected);
    }
}

#[test]
fn split_ordered_list_largest_key() {
    let mut map = SplitOrderedList::new();
    let largest = usize::MAX >> 1;
    assert_eq!(map.insert(largest, 1), Ok(()));
    assert_eq!(map.insert(0, 2), Ok(()));
    assert_eq!(map.lookup(&largest), Some(&1));
    assert_eq!(map.lookup(&0), Some(&2));
    assert_eq!(map.delete(&largest), Ok(1));
    assert_eq!(map.lookup(&largest), None);
}

#[test]
fn ordered_keys_reverse_the_bits() {
    let top = 1usize << (usize::BITS - 1);
    assert_eq!(ordered_key(0), 1);
    assert_eq!(ordered_key(1), top | 1);
    assert_eq!(ordered_key(2), (top >> 1) | 1);
    assert_eq!(ordered_key(3), top | (top >> 1) | 1);
}
