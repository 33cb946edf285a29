//! Scenario tests for the collector engine: reachability, cycles,
//! idempotence, and root rebinding.

use gc_core::gc::Gc;
use gc_core::item::Item;

#[test]
fn single_object_survives_then_reclaimed() {
    let mut gc = Gc::new();
    let a = gc.allocate(8, Vec::new()).unwrap();
    gc.bind_root("x".to_string(), Item::Pointer(Some(a))).unwrap();

    let s1 = gc.collect();
    assert_eq!(s1.reclaimed_count, 0);
    assert_eq!(s1.live_count, 1);
    assert_eq!(s1.live_size, 8);

    gc.unbind_root(&"x".to_string());
    let s2 = gc.collect();
    assert_eq!(s2.reclaimed_count, 1);
    assert_eq!(s2.live_count, 0);
    assert_eq!(s2.live_size, 0);
}

#[test]
fn rooted_cycle_survives_unrooted_cycle_reclaimed() {
    let mut gc = Gc::new();
    let a = gc.allocate(4, vec![Item::Pointer(None)]).unwrap();
    let b = gc.allocate(4, vec![Item::Pointer(None)]).unwrap();
    gc.write_field(a, 0, Item::Pointer(Some(b))).unwrap();
    gc.write_field(b, 0, Item::Pointer(Some(a))).unwrap();
    gc.bind_root("r".to_string(), Item::Pointer(Some(a))).unwrap();

    let s1 = gc.collect();
    assert_eq!(s1.reclaimed_count, 0);
    assert_eq!(s1.live_count, 2);

    gc.unbind_root(&"r".to_string());
    let s2 = gc.collect();
    assert_eq!(s2.reclaimed_count, 2);
    assert_eq!(s2.live_count, 0);
}

#[test]
fn self_cycle_follows_its_root() {
    let mut gc = Gc::new();
    let a = gc.allocate(1, vec![Item::Pointer(None)]).unwrap();
    gc.write_field(a, 0, Item::Pointer(Some(a))).unwrap();
    gc.bind_root("r".to_string(), Item::Pointer(Some(a))).unwrap();
    assert_eq!(gc.collect().live_count, 1);

    gc.unbind_root(&"r".to_string());
    let s = gc.collect();
    assert_eq!(s.reclaimed_count, 1);
    assert_eq!(s.live_count, 0);
}

#[test]
fn chain_is_kept_whole_and_dropped_whole() {
    let mut gc = Gc::new();
    let c = gc.allocate(2, Vec::new()).unwrap();
    let b = gc.allocate(3, vec![Item::Pointer(Some(c))]).unwrap();
    let a = gc.allocate(5, vec![Item::Pointer(Some(b)), Item::Scalar]).unwrap();
    gc.bind_root("head".to_string(), Item::Pointer(Some(a))).unwrap();

    let s1 = gc.collect();
    assert_eq!(s1.reclaimed_count, 0);
    assert_eq!(s1.live_count, 3);
    assert_eq!(s1.live_size, 10);

    gc.unbind_root(&"head".to_string());
    let s2 = gc.collect();
    assert_eq!(s2.reclaimed_count, 3);
    assert_eq!(s2.live_count, 0);
}

#[test]
fn collect_is_idempotent() {
    let mut gc = Gc::new();
    let b = gc.allocate(7, Vec::new()).unwrap();
    let a = gc.allocate(9, vec![Item::Pointer(Some(b))]).unwrap();
    let _dead = gc.allocate(100, Vec::new()).unwrap();
    gc.bind_root("keep".to_string(), Item::Pointer(Some(a))).unwrap();

    let s1 = gc.collect();
    assert_eq!(s1.reclaimed_count, 1);
    let s2 = gc.collect();
    assert_eq!(s2.reclaimed_count, 0);
    assert_eq!(s2.live_count, s1.live_count);
    assert_eq!(s2.live_size, s1.live_size);
}

#[test]
fn rebinding_a_root_replaces_the_old_binding() {
    let mut gc = Gc::new();
    let a = gc.allocate(1, Vec::new()).unwrap();
    let b = gc.allocate(1, Vec::new()).unwrap();
    gc.bind_root("x".to_string(), Item::Pointer(Some(a))).unwrap();
    gc.bind_root("x".to_string(), Item::Pointer(Some(b))).unwrap();

    let s = gc.collect();
    assert_eq!(s.reclaimed_count, 1);
    assert_eq!(s.live_count, 1);
    assert!(!gc.contains(a));
    assert!(gc.contains(b));
}

#[test]
fn partial_reachability_reclaims_only_the_unreached() {
    let mut gc = Gc::new();
    let kept = gc.allocate(6, Vec::new()).unwrap();
    let dropped = gc.allocate(11, Vec::new()).unwrap();
    gc.bind_root("k".to_string(), Item::Pointer(Some(kept))).unwrap();

    let s = gc.collect();
    assert_eq!(s.reclaimed_count, 1);
    assert_eq!(s.live_count, 1);
    assert_eq!(s.live_size, 6);
    assert!(gc.contains(kept));
    assert!(!gc.contains(dropped));
}

#[test]
fn null_root_pointer_keeps_nothing_alive() {
    let mut gc = Gc::new();
    let a = gc.allocate(2, Vec::new()).unwrap();
    gc.bind_root("n".to_string(), Item::Pointer(None)).unwrap();

    let s = gc.collect();
    assert_eq!(s.reclaimed_count, 1);
    assert_eq!(s.live_count, 0);
    assert!(!gc.contains(a));
}

#[test]
fn stale_root_target_is_tolerated() {
    let mut gc = Gc::new();
    gc.bind_root("ghostly".to_string(), Item::Pointer(Some(12345))).unwrap();
    let s = gc.collect();
    assert_eq!(s.reclaimed_count, 0);
    assert_eq!(s.live_count, 0);
}

#[test]
fn stale_field_pointer_is_tolerated() {
    let mut gc = Gc::new();
    let a = gc.allocate(3, vec![Item::Pointer(None)]).unwrap();
    gc.write_field(a, 0, Item::Pointer(Some(777))).unwrap();
    gc.bind_root("a".to_string(), Item::Pointer(Some(a))).unwrap();

    let s = gc.collect();
    assert_eq!(s.reclaimed_count, 0);
    assert_eq!(s.live_count, 1);
}

#[test]
fn collect_on_an_empty_engine() {
    let mut gc = Gc::new();
    let s = gc.collect();
    assert_eq!(s.reclaimed_count, 0);
    assert_eq!(s.live_count, 0);
    assert_eq!(s.live_size, 0);
}

#[test]
fn unbind_of_absent_name_is_a_noop() {
    let mut gc = Gc::new();
    let a = gc.allocate(4, Vec::new()).unwrap();
    gc.bind_root("here".to_string(), Item::Pointer(Some(a))).unwrap();
    gc.unbind_root(&"never_bound".to_string());
    let s = gc.collect();
    assert_eq!(s.live_count, 1);
}

#[test]
fn scalars_carry_no_references() {
    let mut gc = Gc::new();
    let b = gc.allocate(1, Vec::new()).unwrap();
    let a = gc.allocate(1, vec![Item::Scalar, Item::Scalar]).unwrap();
    gc.bind_root("a".to_string(), Item::Pointer(Some(a))).unwrap();

    let s = gc.collect();
    assert_eq!(s.reclaimed_count, 1);
    assert!(!gc.contains(b));
    assert!(gc.contains(a));
}

#[test]
fn diamond_graph_is_counted_once_per_object() {
    let mut gc = Gc::new();
    let d = gc.allocate(1, Vec::new()).unwrap();
    let b = gc.allocate(1, vec![Item::Pointer(Some(d))]).unwrap();
    let c = gc.allocate(1, vec![Item::Pointer(Some(d))]).unwrap();
    let a = gc.allocate(1, vec![Item::Pointer(Some(b)), Item::Pointer(Some(c))]).unwrap();
    gc.bind_root("top".to_string(), Item::Pointer(Some(a))).unwrap();

    let s = gc.collect();
    assert_eq!(s.reclaimed_count, 0);
    assert_eq!(s.live_count, 4);
    assert_eq!(s.live_size, 4);
}

#[test]
fn reuse_of_a_root_name_after_removal_is_a_fresh_binding() {
    let mut gc = Gc::new();
    let a = gc.allocate(1, Vec::new()).unwrap();
    gc.bind_root("x".to_string(), Item::Pointer(Some(a))).unwrap();
    gc.unbind_root(&"x".to_string());
    let b = gc.allocate(1, Vec::new()).unwrap();
    gc.bind_root("x".to_string(), Item::Pointer(Some(b))).unwrap();

    let s = gc.collect();
    assert_eq!(s.live_count, 1);
    assert!(gc.contains(b));
    assert!(!gc.contains(a));
}
