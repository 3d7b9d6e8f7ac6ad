use cs431::hello_server::{Report, Statistics, ThreadPoolInner};

#[test]
fn statistics_counts_hits_per_key() {
    let mut stats = Statistics::new();
    let a = Some(String::from("a"));
    assert_eq!(stats.hits(&a), 0);
    stats.add_report(Report::new(0, a.clone()));
    stats.add_report(Report::new(1, a.clone()));
    stats.add_report(Report::new(2, None));
    stats.add_report(Report::new(3, Some(String::from("b"))));
    assert_eq!(stats.hits(&a), 2);
    assert_eq!(stats.hits(&None), 1);
    assert_eq!(stats.hits(&Some(String::from("b"))), 1);
    assert_eq!(stats.hits(&Some(String::from("c"))), 0);
}

#[test]
fn thread_pool_job_count() {
    let mut inner = ThreadPoolInner::new();
    assert!(inner.wait_empty());
    inner.start_job();
    inner.start_job();
    assert_eq!(inner.jobs(), 2);
    assert!(!inner.wait_empty());
    inner.finish_job();
    assert!(!inner.wait_empty());
    inner.finish_job();
    assert!(inner.wait_empty());
    assert_eq!(ThreadPoolInner::default().jobs(), 0);
}
