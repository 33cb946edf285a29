//! Error-path tests: each error variant, and that a failed call leaves
//! the engine untouched. Also exercises the heap store and the root
//! table through their own interfaces.

use gc_core::gc::Gc;
use gc_core::heap::Heap;
use gc_core::item::{GcError, Item};
use gc_core::roots::RootTable;

#[test]
fn write_field_out_of_range_leaves_fields_unchanged() {
    let mut gc = Gc::new();
    let a = gc.allocate(8, vec![Item::Scalar, Item::Pointer(None)]).unwrap();

    let r = gc.write_field(a, 2, Item::Scalar);
    assert_eq!(r, Err(GcError::IndexOutOfRange));

    let obj = gc.get(a).unwrap();
    assert_eq!(obj.fields.len(), 2);
    assert!(matches!(obj.fields[0], Item::Scalar));
    assert!(matches!(obj.fields[1], Item::Pointer(None)));
}

#[test]
fn write_field_on_unknown_object() {
    let mut gc = Gc::new();
    assert_eq!(gc.write_field(42, 0, Item::Scalar), Err(GcError::UnknownObject));
}

#[test]
fn write_field_on_reclaimed_object() {
    let mut gc = Gc::new();
    let a = gc.allocate(1, vec![Item::Scalar]).unwrap();
    gc.collect();
    assert_eq!(gc.write_field(a, 0, Item::Scalar), Err(GcError::UnknownObject));
}

#[test]
fn get_on_unknown_object() {
    let gc = Gc::new();
    assert!(matches!(gc.get(7), Err(GcError::UnknownObject)));
}

#[test]
fn bind_root_rejects_a_scalar() {
    let mut gc = Gc::new();
    let a = gc.allocate(1, Vec::new()).unwrap();
    gc.bind_root("x".to_string(), Item::Pointer(Some(a))).unwrap();
    assert_eq!(gc.bind_root("x".to_string(), Item::Scalar), Err(GcError::InvalidRootValue));

    // The rejected bind replaced nothing: "x" still keeps `a` alive.
    let s = gc.collect();
    assert_eq!(s.live_count, 1);
    assert!(gc.contains(a));
}

#[test]
fn allocation_fails_only_on_exhaustion() {
    let mut gc = Gc::new();
    let big = gc.allocate(usize::MAX, Vec::new()).unwrap();
    gc.bind_root("big".to_string(), Item::Pointer(Some(big))).unwrap();
    assert_eq!(gc.allocate(1, Vec::new()), Err(GcError::OutOfMemory));

    // Reclaiming the large object makes room again.
    gc.unbind_root(&"big".to_string());
    gc.collect();
    assert!(gc.allocate(1, Vec::new()).is_ok());
}

#[test]
fn live_counters_track_the_heap() {
    let mut gc = Gc::new();
    assert_eq!(gc.live_count(), 0);
    assert_eq!(gc.live_size(), 0);
    let a = gc.allocate(5, Vec::new()).unwrap();
    let _b = gc.allocate(3, Vec::new()).unwrap();
    assert_eq!(gc.live_count(), 2);
    assert_eq!(gc.live_size(), 8);

    gc.bind_root("a".to_string(), Item::Pointer(Some(a))).unwrap();
    gc.collect();
    assert_eq!(gc.live_count(), 1);
    assert_eq!(gc.live_size(), 5);
}

#[test]
fn heap_store_assigns_fresh_identities() {
    let mut heap = Heap::new();
    let a = heap.allocate(1, Vec::new()).unwrap();
    let b = heap.allocate(2, Vec::new()).unwrap();
    assert_ne!(a, b);
    assert_eq!(heap.get(a).unwrap().size, 1);
    assert_eq!(heap.get(b).unwrap().size, 2);
    assert_eq!(heap.get(a).unwrap().id, a);
}

#[test]
fn heap_store_remove_is_defensive() {
    let mut heap = Heap::new();
    assert_eq!(heap.remove(0), Err(GcError::UnknownObject));
    let a = heap.allocate(4, Vec::new()).unwrap();
    assert_eq!(heap.remove(a), Ok(()));
    assert_eq!(heap.remove(a), Err(GcError::UnknownObject));
    assert!(matches!(heap.get(a), Err(GcError::UnknownObject)));
    assert_eq!(heap.live_count(), 0);
    assert_eq!(heap.live_size(), 0);
}

#[test]
fn reclaimed_identities_are_reused_newest_first() {
    let mut gc = Gc::new();
    let a = gc.allocate(1, Vec::new()).unwrap();
    let b = gc.allocate(1, Vec::new()).unwrap();
    assert_eq!((a, b), (0, 1));

    // Nothing is rooted: the sweep reclaims slot 0, then slot 1.
    gc.collect();
    let c = gc.allocate(2, Vec::new()).unwrap();
    assert_eq!(c, 1);
    let d = gc.allocate(2, Vec::new()).unwrap();
    assert_eq!(d, 0);
    let e = gc.allocate(2, Vec::new()).unwrap();
    assert_eq!(e, 2);
    assert_eq!(gc.live_count(), 3);
}

#[test]
fn heap_store_reuses_a_reclaimed_slot() {
    let mut heap = Heap::new();
    let a = heap.allocate(4, Vec::new()).unwrap();
    let b = heap.allocate(4, Vec::new()).unwrap();
    heap.remove(a).unwrap();

    let c = heap.allocate(9, Vec::new()).unwrap();
    assert_eq!(c, a);
    assert_ne!(c, b);
    assert_eq!(heap.get(c).unwrap().size, 9);
    assert_eq!(heap.get(c).unwrap().id, c);
    assert_eq!(heap.live_count(), 2);
    assert_eq!(heap.live_size(), 13);
}

#[test]
fn root_table_snapshot_holds_every_bound_value() {
    let mut table = RootTable::new();
    table.bind("x".to_string(), Some(3));
    table.bind("y".to_string(), None);
    table.bind("x".to_string(), Some(9));

    let snapshot = table.roots();
    assert_eq!(snapshot.len(), 2);
    assert!(snapshot.contains(&Some(9)));
    assert!(snapshot.contains(&None));
    assert!(!snapshot.contains(&Some(3)));

    table.unbind(&"x".to_string());
    let snapshot = table.roots();
    assert_eq!(snapshot.len(), 1);
    assert!(snapshot.contains(&None));
}
