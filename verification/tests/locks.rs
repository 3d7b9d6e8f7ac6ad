use cs431::lock::clhlock;
use cs431::lock::mcslock;
use cs431::lock::seqlock::{RawSeqLock, SeqLock};
use cs431::lock::{ClhLock, Lock, McsLock, RawLock};

fn smoke<L: RawLock>() {
    const LENGTH: usize = 1024;
    let mut d = Lock::<L, Vec<usize>>::new(Vec::new());

    for i in 1..LENGTH {
        let g = d.lock();
        d.deref_mut(&g).push(i);
        d.unlock(g);
    }

    let mut d = d.into_inner();
    d.sort_unstable();
    assert_eq!(d, (1..LENGTH).collect::<Vec<usize>>());
}

#[test]
fn clhlock_smoke() {
    smoke::<ClhLock>();
}

#[test]
fn mcslock_smoke() {
    smoke::<McsLock>();
}

#[test]
fn mcs_hands_over_in_arrival_order() {
    let mut lock = McsLock::new();
    let (t1, now1) = lock.lock_start();
    assert!(now1);
    let (t2, now2) = lock.lock_start();
    let (t3, now3) = lock.lock_start();
    assert!(!now2 && !now3);
    assert!(lock.is_waiting(&t2));
    assert!(lock.is_waiting(&t3));
    mcslock::McsLock::unlock(&mut lock, t1);
    assert!(!lock.is_waiting(&t2));
    assert!(lock.is_waiting(&t3));
    mcslock::McsLock::unlock(&mut lock, t2);
    assert!(!lock.is_waiting(&t3));
    mcslock::McsLock::unlock(&mut lock, t3);
    let (_, now4) = lock.lock_start();
    assert!(now4);
}

#[test]
fn clh_hands_over_in_arrival_order() {
    let mut lock = ClhLock::new();
    let w1 = lock.lock_start();
    assert!(!lock.is_waiting(&w1));
    let w2 = lock.lock_start();
    let w3 = lock.lock_start();
    assert!(lock.is_waiting(&w2));
    assert!(lock.is_waiting(&w3));
    let t1 = lock.finish_lock(w1);
    clhlock::ClhLock::unlock(&mut lock, t1);
    assert!(!lock.is_waiting(&w2));
    assert!(lock.is_waiting(&w3));
    let t2 = lock.finish_lock(w2);
    clhlock::ClhLock::unlock(&mut lock, t2);
    assert!(!lock.is_waiting(&w3));
    let t3 = lock.finish_lock(w3);
    clhlock::ClhLock::unlock(&mut lock, t3);
}

#[test]
fn seqlock_reader_fails_after_a_write() {
    let mut raw = RawSeqLock::new();
    let seq = raw.read_begin();
    assert_eq!(seq, 0);
    assert!(raw.read_validate(seq));
    let w = raw.write_lock();
    assert_eq!(w, 0);
    raw.write_unlock(w);
    assert!(!raw.read_validate(seq));
    assert_eq!(raw.read_begin(), 2);
}

#[test]
fn seqlock_upgrade_succeeds_only_without_writers() {
    let mut raw = RawSeqLock::default();
    let seq = raw.read_begin();
    assert!(raw.upgrade(seq));
    raw.write_unlock(seq);
    assert!(!raw.upgrade(seq));
    let seq = raw.read_begin();
    assert!(raw.upgrade(seq));
}

#[test]
fn seqlock_read_and_write() {
    let mut lock = SeqLock::new(10i64);
    assert_eq!(lock.read(|v| *v + 1), Some(11));
    let g = lock.write_lock();
    *lock.get_mut() += 5;
    lock.write_unlock(g);
    assert_eq!(lock.read(|v| *v), Some(15));

    let r = lock.read_lock();
    assert_eq!(*r.deref(&lock), 15);
    assert!(r.validate(&lock));
    assert!(r.finish(&lock));

    let r = lock.read_lock();
    let g = lock.write_lock();
    lock.write_unlock(g);
    assert!(!r.validate(&lock));
    match r.upgrade(&mut lock) {
        Ok(_) => panic!("upgrade after a write must fail"),
        Err(()) => {}
    }
    assert_eq!(lock.into_inner(), 15);
}
