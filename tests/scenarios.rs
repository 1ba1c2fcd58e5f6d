use dumpster::collect::{Dumpster, Gc, MIN_DROPS_BEFORE_COLLECT};
use dumpster::graph::AllocationId;

fn two_cycle(d: &mut Dumpster) -> (Gc, Gc) {
    let a = d.allocate(1);
    let b = d.allocate(2);
    d.push_field(&a, &b);
    d.push_field(&b, &a);
    (a, b)
}

#[test]
fn lone_object_is_freed_on_drop() {
    let mut d = Dumpster::new();
    let a = d.allocate(42);
    let id = a.id();
    assert_eq!(d.value(id), Some(42));
    assert_eq!(d.ref_count(id), 1);
    d.drop_gc(a);
    assert!(!d.is_live(id));
    assert_eq!(d.destroyed_count(), 1);
    assert_eq!(d.registry_len(), 0);
    d.collect_all();
    assert_eq!(d.destroyed_count(), 1);
    assert_eq!(d.registry_len(), 0);
}

#[test]
fn self_cycle_is_collected() {
    let mut d = Dumpster::new();
    let a = d.allocate(7);
    let id = a.id();
    d.push_field(&a, &a);
    assert_eq!(d.ref_count(id), 2);
    d.drop_gc(a);
    assert!(d.is_live(id));
    assert!(d.is_registered(id));
    assert_eq!(d.ref_count(id), 1);
    assert_eq!(d.destroyed_count(), 0);
    d.collect_all();
    assert!(!d.is_live(id));
    assert_eq!(d.destroyed_count(), 1);
    assert_eq!(d.registry_len(), 0);
}

#[test]
fn two_cycle_is_collected() {
    let mut d = Dumpster::new();
    let (a, b) = two_cycle(&mut d);
    let (ia, ib) = (a.id(), b.id());
    d.drop_gc(a);
    d.drop_gc(b);
    assert_eq!(d.destroyed_count(), 0);
    assert_eq!(d.registry_len(), 2);
    d.collect_all();
    assert!(!d.is_live(ia));
    assert!(!d.is_live(ib));
    assert_eq!(d.destroyed_count(), 2);
    assert_eq!(d.registry_len(), 0);
    assert_eq!(d.ref_count(ia), 0);
    assert_eq!(d.ref_count(ib), 0);
}

#[test]
fn anchored_cycle_survives_until_anchor_drops() {
    let mut d = Dumpster::new();
    let (a, b) = two_cycle(&mut d);
    let (ia, ib) = (a.id(), b.id());
    d.drop_gc(b);
    d.collect_all();
    assert_eq!(d.destroyed_count(), 0);
    assert!(d.is_live(ia));
    assert!(d.is_live(ib));
    assert_eq!(d.ref_count(ia), 2);
    assert_eq!(d.ref_count(ib), 1);
    assert_eq!(d.registry_len(), 0);
    d.drop_gc(a);
    d.collect_all();
    assert_eq!(d.destroyed_count(), 2);
    assert!(!d.is_live(ia));
    assert!(!d.is_live(ib));
}

#[test]
fn unregistered_anchor_keeps_cycle_alive() {
    let mut d = Dumpster::new();
    let (a, b) = two_cycle(&mut d);
    let (ia, ib) = (a.id(), b.id());
    d.drop_gc(a);
    assert!(d.is_registered(ia));
    assert!(!d.is_registered(ib));
    d.collect_all();
    assert_eq!(d.destroyed_count(), 0);
    assert!(d.is_live(ia));
    assert!(d.is_live(ib));
    d.drop_gc(b);
    d.collect_all();
    assert_eq!(d.destroyed_count(), 2);
}

#[test]
fn sibling_sharing_frees_all_four() {
    let mut d = Dumpster::new();
    let root = d.allocate(0);
    let a = d.allocate(1);
    let b = d.allocate(2);
    let shared = d.allocate(3);
    d.push_field(&root, &a);
    d.push_field(&root, &b);
    d.push_field(&a, &shared);
    d.push_field(&b, &shared);
    let ids = [root.id(), a.id(), b.id(), shared.id()];
    assert_eq!(d.ref_count(shared.id()), 3);
    d.drop_gc(a);
    d.drop_gc(b);
    d.drop_gc(shared);
    d.drop_gc(root);
    d.collect_all();
    assert_eq!(d.destroyed_count(), 4);
    for id in ids {
        assert!(!d.is_live(id));
        assert_eq!(d.field_count(id), 0);
    }
    assert_eq!(d.registry_len(), 0);
}

#[test]
fn large_fan_in_cycle_is_collected() {
    let mut d = Dumpster::new();
    let child = d.allocate(0);
    let mut parents = Vec::new();
    for i in 0..10_000u64 {
        let p = d.allocate(i + 1);
        d.push_field(&p, &child);
        d.push_field(&child, &p);
        parents.push(p);
    }
    assert_eq!(d.ref_count(child.id()), 10_001);
    let cid = child.id();
    d.drop_gc(child);
    for p in parents {
        d.drop_gc(p);
    }
    assert_eq!(d.destroyed_count(), 0);
    d.collect_all();
    assert_eq!(d.destroyed_count(), 10_001);
    assert!(!d.is_live(cid));
    assert_eq!(d.registry_len(), 0);
}

#[test]
fn second_collect_frees_nothing() {
    let mut d = Dumpster::new();
    let (a, b) = two_cycle(&mut d);
    let keep = d.allocate(9);
    d.push_field(&keep, &keep);
    d.drop_gc(a);
    d.drop_gc(b);
    d.collect_all();
    assert_eq!(d.destroyed_count(), 2);
    d.collect_all();
    assert_eq!(d.destroyed_count(), 2);
    assert_eq!(d.registry_len(), 0);
    assert!(d.is_live(keep.id()));
}

#[test]
fn acyclic_chain_is_freed_without_collect() {
    let mut d = Dumpster::new();
    let a = d.allocate(1);
    let b = d.allocate(2);
    let c = d.allocate(3);
    d.push_field(&a, &b);
    d.push_field(&b, &c);
    let ids = [a.id(), b.id(), c.id()];
    d.drop_gc(c);
    d.drop_gc(b);
    assert_eq!(d.registry_len(), 2);
    d.drop_gc(a);
    assert_eq!(d.destroyed_count(), 3);
    assert_eq!(d.registry_len(), 0);
    for id in ids {
        assert!(!d.is_live(id));
    }
}

#[test]
fn child_of_dead_cycle_held_outside_survives() {
    let mut d = Dumpster::new();
    let (a, b) = two_cycle(&mut d);
    let c = d.allocate(5);
    d.push_field(&a, &c);
    assert_eq!(d.ref_count(c.id()), 2);
    d.drop_gc(a);
    d.drop_gc(b);
    d.collect_all();
    assert_eq!(d.destroyed_count(), 2);
    assert!(d.is_live(c.id()));
    assert_eq!(d.ref_count(c.id()), 1);
    assert_eq!(d.value(c.id()), Some(5));
    let cid = c.id();
    d.drop_gc(c);
    assert!(!d.is_live(cid));
    assert_eq!(d.value(cid), None);
}

#[test]
fn each_destructor_runs_once() {
    let mut d = Dumpster::new();
    let (a, b) = two_cycle(&mut d);
    let extra = d.clone_gc(&a);
    d.drop_gc(a);
    d.drop_gc(b);
    d.collect_all();
    assert_eq!(d.destroyed_count(), 0);
    d.drop_gc(extra);
    d.collect_all();
    d.collect_all();
    assert_eq!(d.destroyed_count(), 2);
    assert_eq!(d.destroyed, vec![AllocationId(0), AllocationId(1)]);
}

#[test]
fn registering_twice_keeps_one_entry() {
    let mut d = Dumpster::new();
    let a = d.allocate(1);
    let a2 = d.clone_gc(&a);
    let a3 = d.clone_gc(&a);
    d.drop_gc(a2);
    d.drop_gc(a3);
    assert_eq!(d.registry_len(), 1);
    d.mark_cleaned(a.id());
    assert_eq!(d.registry_len(), 0);
    d.mark_dirty(a.id());
    d.mark_dirty(a.id());
    assert_eq!(d.registry_len(), 1);
}

#[test]
fn trigger_needs_enough_drops() {
    let mut d = Dumpster::new();
    let keep = d.allocate(0);
    let mut handles = Vec::new();
    for _ in 0..40 {
        handles.push(d.clone_gc(&keep));
    }
    for _ in 0..(MIN_DROPS_BEFORE_COLLECT - 1) {
        let h = handles.pop().unwrap();
        d.drop_gc(h);
    }
    assert_eq!(d.n_ref_drops, 15);
    assert!(!d.should_collect());
    assert!(!d.maybe_collect());
    let h = handles.pop().unwrap();
    d.drop_gc(h);
    assert_eq!(d.n_refs_living, 25);
    assert!(d.should_collect());
    assert!(d.maybe_collect());
    assert_eq!(d.n_ref_drops, 0);
    assert_eq!(d.registry_len(), 0);
    assert!(d.is_live(keep.id()));
}
