use std::collections::HashSet;

use cs431::hazard_pointer::{collect, HazardBag, RetiredSet, Shield};

#[test]
fn recycle_slots() {
    let mut hazard_bag = HazardBag::new();
    // allocate slots
    let mut shields = Vec::new();
    for _ in 0..1024 {
        shields.push(Shield::new(&mut hazard_bag));
    }
    // slot addresses
    let old_slots = shields
        .iter()
        .map(|s| s.slot_index())
        .collect::<HashSet<_>>();
    // release the slots
    for s in shields {
        s.release(&mut hazard_bag);
    }

    let mut shields = Vec::new();
    for _ in 0..128 {
        shields.push(Shield::new(&mut hazard_bag));
    }
    let new_slots = shields
        .iter()
        .map(|s| s.slot_index())
        .collect::<HashSet<_>>();

    // no new slots should've been created
    assert!(new_slots.is_subset(&old_slots));
}

#[test]
fn retire_threshold_collect() {
    let hazards = HazardBag::new();
    let mut retires = RetiredSet::new();
    let mut freed = HashSet::new();
    for i in 0..RetiredSet::THRESHOLD {
        for p in retires.retire(&hazards, i) {
            assert!(freed.insert(p));
        }
    }

    assert_eq!(freed, (0..RetiredSet::THRESHOLD).collect())
}

#[test]
fn retire_below_threshold_frees_nothing() {
    let hazards = HazardBag::new();
    let mut retires = RetiredSet::new();
    for i in 0..RetiredSet::THRESHOLD - 1 {
        assert!(retires.retire(&hazards, 100 + i).is_empty());
    }
}

#[test]
fn protected_block_is_not_freed() {
    let mut hazards = HazardBag::new();
    let shield = Shield::new(&mut hazards);
    let src: usize = 0x1000;
    assert_eq!(shield.protect(&mut hazards, &src), 0x1000);
    assert!(hazards.all_hazards().contains(&0x1000));

    let mut retires = RetiredSet::new();
    let _ = retires.retire(&hazards, 0x1000);
    let _ = retires.retire(&hazards, 0x2000);
    let freed = collect(&mut retires, &hazards);
    assert_eq!(freed, vec![0x2000]);

    // Once the shield is gone, the block goes too.
    shield.release(&mut hazards);
    assert!(!hazards.all_hazards().contains(&0x1000));
    assert_eq!(retires.collect(&hazards), vec![0x1000]);
    assert!(retires.collect(&hazards).is_empty());
}

#[test]
fn shield_set_clear_and_validate() {
    let mut hazards = HazardBag::new();
    let shield = Shield::new(&mut hazards);
    shield.set(&mut hazards, 42);
    assert!(hazards.all_hazards().contains(&42));
    shield.clear(&mut hazards);
    assert!(!hazards.all_hazards().contains(&42));

    assert_eq!(Shield::validate(7, &7), Ok(()));
    assert_eq!(Shield::validate(7, &8), Err(8));
    assert_eq!(shield.try_protect(&mut hazards, 5, &5), Ok(()));
    assert!(hazards.all_hazards().contains(&5));
    assert_eq!(shield.try_protect(&mut hazards, 5, &6), Err(6));
    shield.release(&mut hazards);
    assert_eq!(hazards.num_slots(), 1);
}

#[test]
fn new_shields_grow_the_bag_only_when_full() {
    let mut hazards = HazardBag::new();
    let a = Shield::new(&mut hazards);
    let b = Shield::new(&mut hazards);
    assert_eq!(hazards.num_slots(), 2);
    assert_ne!(a.slot_index(), b.slot_index());
    let ia = a.slot_index();
    a.release(&mut hazards);
    let c = Shield::new(&mut hazards);
    assert_eq!(c.slot_index(), ia);
    assert_eq!(hazards.num_slots(), 2);
    b.release(&mut hazards);
    c.release(&mut hazards);
}

#[test]
fn set_replaces_and_clear_withdraws() {
    let mut hazards = HazardBag::new();
    let a = Shield::new(&mut hazards);
    let b = Shield::new(&mut hazards);
    a.set(&mut hazards, 10);
    b.set(&mut hazards, 20);
    a.set(&mut hazards, 30);
    let all = hazards.all_hazards();
    assert!(!all.contains(&10));
    assert!(all.contains(&20) && all.contains(&30));
    b.set(&mut hazards, 30);
    a.clear(&mut hazards);
    assert!(hazards.all_hazards().contains(&30));
    b.clear(&mut hazards);
    assert!(!hazards.all_hazards().contains(&30));
    a.release(&mut hazards);
    b.release(&mut hazards);
}
