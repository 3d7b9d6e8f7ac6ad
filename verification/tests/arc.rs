use cs431::arc::{Arc, ArcHeap};

#[test]
fn arc_counts_references() {
    let mut heap = ArcHeap::new();
    let a = Arc::new(&mut heap, 5i32);
    assert_eq!(Arc::count(&a, &heap), 1);
    let b = a.clone(&mut heap);
    assert_eq!(Arc::count(&a, &heap), 2);
    assert!(Arc::ptr_eq(&a, &b));
    assert_eq!(*b.deref(&heap), 5);
    assert_eq!(b.drop(&mut heap), None);
    assert_eq!(Arc::count(&a, &heap), 1);
    assert_eq!(a.drop(&mut heap), Some(5));
}

#[test]
fn arc_get_mut_only_when_unique() {
    let mut heap = ArcHeap::new();
    let a = Arc::new(&mut heap, 1i32);
    *Arc::get_mut(&a, &mut heap).unwrap() = 2;
    let b = a.clone(&mut heap);
    assert!(Arc::get_mut(&a, &mut heap).is_none());
    assert_eq!(b.drop(&mut heap), None);
    assert_eq!(*a.deref(&heap), 2);
}

#[test]
fn arc_try_unwrap() {
    let mut heap = ArcHeap::new();
    let a = Arc::new(&mut heap, String::from("x"));
    let b = a.clone(&mut heap);
    let a = match Arc::try_unwrap(a, &mut heap) {
        Ok(_) => panic!("two references"),
        Err(a) => a,
    };
    assert_eq!(b.drop(&mut heap), None);
    assert_eq!(Arc::try_unwrap(a, &mut heap).ok(), Some(String::from("x")));
}

#[test]
fn arc_make_mut_clones_on_write() {
    let mut heap = ArcHeap::new();
    let mut a = Arc::new(&mut heap, 10i32);
    let b = a.clone(&mut heap);
    *Arc::make_mut(&mut a, &mut heap) += 1;
    assert!(!Arc::ptr_eq(&a, &b));
    assert_eq!(*a.deref(&heap), 11);
    assert_eq!(*b.deref(&heap), 10);
    assert_eq!(Arc::count(&a, &heap), 1);
    assert_eq!(Arc::count(&b, &heap), 1);
    let p = a.clone(&mut heap);
    assert_eq!(p.drop(&mut heap), None);
    *Arc::make_mut(&mut a, &mut heap) += 1;
    assert_eq!(*a.deref(&heap), 12);
}

#[test]
fn arc_make_mut_documented_sequence() {
    let mut heap = ArcHeap::new();
    let mut data = Arc::new(&mut heap, 5i32);
    *Arc::make_mut(&mut data, &mut heap) += 1;
    let mut other_data = data.clone(&mut heap);
    *Arc::make_mut(&mut data, &mut heap) += 1;
    *Arc::make_mut(&mut data, &mut heap) += 1;
    *Arc::make_mut(&mut other_data, &mut heap) *= 2;
    assert_eq!(*data.deref(&heap), 8);
    assert_eq!(*other_data.deref(&heap), 12);
    assert!(!Arc::ptr_eq(&data, &other_data));
}
