use netcrit::node_map::IdSet;
use netcrit::node_map::NodeValueMap;

#[test]
fn node_value_map_insert_get_overwrite() {
    let mut m = NodeValueMap::<u64>::new();
    assert!(m.get(5).is_none());
    m.insert(5, 100);
    m.insert(3, 200);
    m.insert(9, 300);
    assert_eq!(m.get(5), Some(100));
    assert_eq!(m.get(3), Some(200));
    assert_eq!(m.get(9), Some(300));
    m.insert(5, 111);
    assert_eq!(m.get(5), Some(111));
    assert_eq!(m.entry_len(), 3);
}

#[test]
fn node_value_map_entries_are_sorted_by_id() {
    let mut m = NodeValueMap::<u64>::new();
    m.insert(9, 1);
    m.insert(3, 2);
    m.insert(5, 3);
    let ids: Vec<u32> = (0..m.entry_len()).map(|i| m.entry_at(i).0).collect();
    assert_eq!(ids, vec![3, 5, 9]);
}

#[test]
fn same_entries_ignores_insertion_order() {
    let mut a = NodeValueMap::<u8>::new();
    a.insert(1, 1);
    a.insert(2, 0);
    let mut b = NodeValueMap::<u8>::new();
    b.insert(2, 0);
    b.insert(1, 1);
    assert!(a.same_entries(&b));
    b.insert(1, 0);
    assert!(!a.same_entries(&b));
    b.insert(1, 1);
    assert!(a.same_entries(&b));
    b.insert(3, 1);
    assert!(!a.same_entries(&b));
}

#[test]
fn node_value_map_duplicate_is_equal() {
    let mut a = NodeValueMap::<u8>::new();
    a.insert(7, 1);
    a.insert(2, 0);
    let b = a.duplicate();
    assert!(a.same_entries(&b));
}

#[test]
fn id_set_insert_is_idempotent() {
    let mut s = IdSet::new();
    s.insert(4);
    s.insert(4);
    s.insert(2);
    assert_eq!(s.len(), 2);
    assert!(s.contains(4));
    assert!(s.contains(2));
    assert!(!s.contains(1));
    let d = s.duplicate();
    assert_eq!(d.len(), 2);
    assert!(d.contains(4));
}
