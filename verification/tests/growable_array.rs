use cs431::hash_table::GrowableArray;

/// Simple map implementation using the array index as the key.
#[derive(Debug, Default)]
struct ArrayMap<V> {
    array: GrowableArray<V>,
}

impl<V> ArrayMap<V> {
    fn new() -> Self {
        Self {
            array: GrowableArray::new(),
        }
    }

    fn lookup(&self, key: &u32) -> Option<&V> {
        self.array.get(*key as usize)
    }

    fn insert(&mut self, key: u32, value: V) -> Result<(), V> {
        if self.array.get(key as usize).is_some() {
            return Err(value);
        }
        let _ = self.array.swap(key as usize, Some(value));
        Ok(())
    }

    fn delete(&mut self, key: &u32) -> Result<V, ()> {
        match self.array.swap(*key as usize, None) {
            Some(v) => Ok(v),
            None => Err(()),
        }
    }
}

#[test]
fn growable_array_smoke() {
    let mut list = ArrayMap::default();

    assert_eq!(list.insert(37, 37), Ok(()));
    assert_eq!(list.lookup(&42), None);
    assert_eq!(list.lookup(&37), Some(&37));

    assert_eq!(list.insert(42, 42), Ok(()));
    assert_eq!(list.lookup(&42), Some(&42));
    assert_eq!(list.lookup(&37), Some(&37));

    assert_eq!(list.delete(&37), Ok(37));
    assert_eq!(list.lookup(&42), Some(&42));
    assert_eq!(list.lookup(&37), None);

    assert_eq!(list.delete(&37), Err(()));
    assert_eq!(list.lookup(&42), Some(&42));
    assert_eq!(list.lookup(&37), None);
}

#[test]
fn growable_array_far_indices() {
    let mut array: GrowableArray<&str> = GrowableArray::new();
    assert_eq!(array.get(0), None);
    assert_eq!(array.swap(0b001, Some("cat")), None);
    assert_eq!(array.swap(0b111011 << 20, Some("fox")), None);
    assert_eq!(array.swap(0b000110, Some("owl")), None);
    assert_eq!(array.swap(usize::MAX, Some("max")), None);
    assert_eq!(array.get(0b001), Some(&"cat"));
    assert_eq!(array.get(0b111011 << 20), Some(&"fox"));
    assert_eq!(array.get(0b000110), Some(&"owl"));
    assert_eq!(array.get(usize::MAX), Some(&"max"));
    assert_eq!(array.get(usize::MAX - 1), None);
    assert_eq!(array.get(1024), None);
    assert_eq!(array.swap(0b001, Some("dog")), Some("cat"));
    assert_eq!(array.get(0b001), Some(&"dog"));
    assert_eq!(array.swap(0b001, None), Some("dog"));
    assert_eq!(array.get(0b001), None);
}

#[test]
fn stress_sequential() {
    let mut list = ArrayMap::new();
    for i in 0..4096u32 {
        let key = i.wrapping_mul(2654435761);
        assert_eq!(list.insert(key, i), Ok(()));
        assert_eq!(list.insert(key, i), Err(i));
    }
    for i in 0..4096u32 {
        let key = i.wrapping_mul(2654435761);
        assert_eq!(list.lookup(&key), Some(&i));
        assert_eq!(list.delete(&key), Ok(i));
        assert_eq!(list.lookup(&key), None);
    }
}
