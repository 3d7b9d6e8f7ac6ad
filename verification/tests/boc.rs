use std::collections::VecDeque;

use cs431::boc::{run_when, CownPtr, Runtime};

/// The cowns' values of the scenario: two counters and a flag.
struct World {
    g1: i64,
    g2: i64,
    g3: bool,
    finished: bool,
}

/// Runs the behaviours that `rt` lets run, in the order they become runnable, until none is
/// left; `body` runs one behaviour and may schedule more.
fn drive(
    rt: &mut Runtime,
    world: &mut World,
    ready: &mut VecDeque<usize>,
    body: &dyn Fn(usize, &mut Runtime, &mut World, &mut VecDeque<usize>),
) {
    while let Some(b) = ready.pop_front() {
        body(b, rt, world, ready);
        for x in rt.complete(b) {
            ready.push_back(x);
        }
    }
}

#[test]
fn boc() {
    let mut rt = Runtime::new();
    let c1 = CownPtr::new(&mut rt);
    let c2 = CownPtr::new(&mut rt);
    let c3 = CownPtr::new(&mut rt);
    let c2_ = c2.clone();
    let c3_ = c3.clone();
    let mut world = World { g1: 0, g2: 0, g3: false, finished: false };
    let mut ready = VecDeque::new();

    let (b0, now) = run_when(&mut rt, &(c1.clone(), (c2.clone(), ())));
    assert!(now);
    ready.push_back(b0);
    let (b1, now) = run_when(&mut rt, &(c1.clone(), (c2_.clone(), (c3_.clone(), ()))));
    assert!(!now);

    let body = |b: usize, rt: &mut Runtime, w: &mut World, ready: &mut VecDeque<usize>| {
        if b == b0 {
            w.g1 += 1;
            w.g2 += 1;
            let (inner, now) = run_when(rt, &(c3.clone(), (c2.clone(), ())));
            assert_eq!(inner, 2);
            if now {
                ready.push_back(inner);
            }
        } else if b == b1 {
            assert_eq!(w.g1, 1);
            assert_eq!(w.g2, if w.g3 { 2 } else { 1 });
            w.finished = true;
        } else {
            w.g2 += 1;
            w.g3 = true;
        }
    };
    drive(&mut rt, &mut world, &mut ready, &body);
    assert!(world.finished);
    assert_eq!(world.g2, 2);
    assert!(world.g3);
}

#[test]
fn boc_vec() {
    let mut rt = Runtime::new();
    let c1 = CownPtr::new(&mut rt);
    let c2 = CownPtr::new(&mut rt);
    let c3 = CownPtr::new(&mut rt);
    let c2_ = c2.clone();
    let c3_ = c3.clone();
    let mut world = World { g1: 0, g2: 0, g3: false, finished: false };
    let mut ready = VecDeque::new();

    let (b0, now) = run_when(&mut rt, &vec![c1.clone(), c2.clone()]);
    if now {
        ready.push_back(b0);
    }
    let (b1, now) = run_when(&mut rt, &vec![c1.clone(), c2_.clone(), c3_.clone()]);
    if now {
        ready.push_back(b1);
    }

    let body = |b: usize, rt: &mut Runtime, w: &mut World, ready: &mut VecDeque<usize>| {
        if b == b0 {
            w.g1 += 1;
            w.g2 += 1;
            let (inner, now) = run_when(rt, &(c3.clone(), (c2.clone(), ())));
            if now {
                ready.push_back(inner);
            }
        } else if b == b1 {
            assert_eq!(w.g1, 1);
            assert_eq!(w.g2, if w.g3 { 2 } else { 1 });
            w.finished = true;
        } else {
            w.g2 += 1;
            w.g3 = true;
        }
    };
    drive(&mut rt, &mut world, &mut ready, &body);
    assert!(world.finished);
}

#[test]
fn boc_disjoint_behaviours_run_at_once() {
    let mut rt = Runtime::new();
    let a = CownPtr::new(&mut rt);
    let b = CownPtr::new(&mut rt);
    let (x, now_x) = run_when(&mut rt, &(a.clone(), ()));
    let (y, now_y) = run_when(&mut rt, &(b.clone(), ()));
    assert!(now_x && now_y);
    let (z, now_z) = run_when(&mut rt, &vec![a.clone(), b.clone()]);
    assert!(!now_z);
    assert!(rt.is_runnable(x) && rt.is_runnable(y) && !rt.is_runnable(z));
    assert_eq!(rt.cown_count(), 2);
    assert_eq!(rt.behavior_count(), 3);
    assert_eq!(a.index(), 0);
    assert!(rt.complete(x).is_empty());
    assert!(!rt.is_runnable(x));
    assert_eq!(rt.complete(y), vec![z]);
    assert!(rt.complete(z).is_empty());
    let (_, now_w) = run_when(&mut rt, &());
    assert!(now_w);
}

#[test]
fn boc_complete_lists_each_behaviour_once() {
    let mut rt = Runtime::new();
    let a = CownPtr::new(&mut rt);
    let b = CownPtr::new(&mut rt);
    let (first, now) = run_when(&mut rt, &vec![a.clone(), b.clone()]);
    assert!(now);
    let (second, now) = run_when(&mut rt, &vec![a.clone(), b.clone()]);
    assert!(!now);
    // Releasing both cowns frees `second` once, not once per cown.
    assert_eq!(rt.complete(first), vec![second]);
    assert!(rt.complete(second).is_empty());
}
