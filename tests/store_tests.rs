use raptor_db::availability_manager::AvailabilityManager;
use raptor_db::id::{EdgeID, IDIntoUSize, NodeID};
use raptor_db::store::Store;

#[test]
fn availability_hands_out_lowest_free_slot() {
    let mut manager = AvailabilityManager::<NodeID>::new();
    let a = manager.get_available();
    let b = manager.get_available();
    let c = manager.get_available();
    assert_eq!((a.as_usize(), b.as_usize(), c.as_usize()), (0, 1, 2));
    assert_eq!(manager.taken_count(), 3);

    manager.mark_as_available(b);
    manager.mark_as_available(a);
    assert!(!manager.is_taken(a));
    assert!(!manager.is_taken(b));
    assert!(manager.is_taken(c));
    assert_eq!(manager.taken_count(), 1);

    assert_eq!(manager.get_available().as_usize(), 0);
    assert_eq!(manager.get_available().as_usize(), 1);
    assert_eq!(manager.get_available().as_usize(), 3);
    assert_eq!(manager.taken_count(), 4);
}

#[test]
fn store_len_counts_adds_minus_removes() {
    let mut store = Store::<i64, EdgeID>::new();
    assert_eq!(store.len(), 0);
    let ids: Vec<EdgeID> = (0..5).map(|v| store.add(v * 10)).collect();
    assert_eq!(store.len(), 5);
    store.remove(ids[1]);
    store.remove(ids[3]);
    assert_eq!(store.len(), 3);
    assert!(!store.is_live(ids[1]));
    assert!(store.is_live(ids[2]));
    assert!(!store.is_live(EdgeID::from_usize(99)));
    assert_eq!(store.all(), vec![ids[0], ids[2], ids[4]]);

    let reused = store.add(7);
    assert_eq!(reused, ids[1]);
    assert_eq!(*store.get(reused), 7);
    assert_eq!(store.len(), 4);

    *store.get_mut(ids[0]) = 11;
    assert_eq!(*store.get(ids[0]), 11);
    assert_eq!(*store.get(ids[4]), 40);
}
