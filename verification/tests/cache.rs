use cs431::hello_server::Cache;

#[test]
fn cache_no_duplicate_sequential() {
    let mut cache = Cache::default();
    assert_eq!(cache.get_or_insert_with(1, |_| 1), 1);
    assert_eq!(cache.get_or_insert_with(2, |_| 2), 2);
    assert_eq!(cache.get_or_insert_with(3, |_| 3), 3);
    assert_eq!(cache.get_or_insert_with(1, |_| panic!()), 1);
    assert_eq!(cache.get_or_insert_with(2, |_| panic!()), 2);
    assert_eq!(cache.get_or_insert_with(3, |_| panic!()), 3);
}

#[test]
fn cache_computes_each_key_once() {
    let mut cache: Cache<usize, String> = Cache::new();
    let mut computed = 0;
    for round in 0..3 {
        for key in 0..16usize {
            let value = cache.get_or_insert_with(key, |k| {
                computed += 1;
                format!("value-{k}")
            });
            assert_eq!(value, format!("value-{key}"));
        }
        assert_eq!(computed, 16, "round {round}");
    }
}
