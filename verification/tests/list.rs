use cs431::lockfree::list::{Cursor, List, Node};

#[test]
fn list_harris_operations() {
    let mut list: List<&str> = List::new();
    assert!(list.harris_insert(3, "c"));
    assert!(list.harris_insert(1, "a"));
    assert!(list.harris_insert(2, "b"));
    assert!(!list.harris_insert(2, "x"));
    assert_eq!(list.harris_lookup(&2), Some(&"b"));
    assert_eq!(list.harris_michael_lookup(&1), Some(&"a"));
    assert_eq!(list.harris_herlihy_shavit_lookup(&3), Some(&"c"));
    assert_eq!(list.harris_lookup(&4), None);
    assert_eq!(list.harris_delete(&2), Some("b"));
    assert_eq!(list.harris_delete(&2), None);
    assert_eq!(list.harris_michael_delete(&1), Some("a"));
    assert!(list.harris_michael_insert(1, "z"));
    assert_eq!(list.harris_lookup(&1), Some(&"z"));
    assert_eq!(list.len(), 2);
}

#[test]
fn list_cursor_walks_in_key_order() {
    let mut list: List<u32> = List::default();
    let mut cursor: Cursor = list.head();
    assert_eq!(cursor.find_harris(&list, &10), Ok(false));
    assert!(cursor.insert(&mut list, Node::new(10, 100)).is_ok());
    let mut cursor = list.head();
    assert_eq!(cursor.find_harris_michael(&list, &5), Ok(false));
    assert_eq!(cursor.curr(), 0);
    assert!(cursor.insert(&mut list, Node::new(5, 50)).is_ok());
    let mut cursor = list.head();
    assert_eq!(cursor.find_harris_herlihy_shavit(&list, &10), Ok(true));
    assert_eq!(cursor.curr(), 1);
    assert_eq!(*cursor.lookup(&list), 100);
    assert_eq!(cursor.delete(&mut list), Ok(100));
    assert_eq!(list.harris_lookup(&10), None);
    assert_eq!(list.harris_lookup(&5), Some(&50));
    assert_eq!(Node::new(1, 7u8).into_value(), 7);
    assert_eq!(Cursor::new(3).curr(), 3);
}

#[test]
fn list_search_from_a_later_cursor() {
    let mut list: List<u8> = List::new();
    assert!(list.harris_insert(1, 10));
    assert!(list.harris_insert(2, 20));
    assert!(list.harris_insert(3, 30));
    let mut cursor = Cursor::new(2);
    assert_eq!(cursor.find_harris(&list, &1), Ok(false));
    assert_eq!(cursor.curr(), 2);
    let mut cursor = Cursor::new(1);
    assert_eq!(cursor.find_harris_michael(&list, &3), Ok(true));
    assert_eq!(cursor.curr(), 2);
}
