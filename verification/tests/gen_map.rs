use voxel_engine::gen_map::GenMap;
use voxel_engine::index_map::MapIndex;

#[test]
fn new_empty() {
    let map = GenMap::<u32>::new();
    assert!(map.values().is_empty());
}

#[test]
fn zst_new_empty() {
    let map = GenMap::<()>::new();
    assert!(map.values().is_empty());
}

#[test]
fn insert_check_slice() {
    let mut map = GenMap::<u32>::new();
    map.insert(67);
    assert_eq!(map.values().as_std_slice(), &[67]);
}

#[test]
fn zst_insert_check_slice() {
    let mut map = GenMap::<()>::new();
    map.insert(());
    assert_eq!(map.values().as_std_slice(), &[()]);
}

#[test]
fn insert_twice_check_slice() {
    let mut map = GenMap::<u32>::new();
    map.insert(67);
    map.insert(69);
    assert_eq!(map.values().as_std_slice(), &[67, 69]);
}

#[test]
fn zst_insert_twice_check_slice() {
    let mut map = GenMap::<()>::new();
    map.insert(());
    map.insert(());
    assert_eq!(map.values().as_std_slice(), &[(), ()]);
}

#[test]
fn insert_check_get() {
    let mut map = GenMap::<u32>::new();
    let handle = map.insert(67);
    assert_eq!(map.get(handle), Some(&67));
}

#[test]
fn zst_insert_check_get() {
    let mut map = GenMap::<()>::new();
    let handle = map.insert(());
    assert_eq!(map.get(handle), Some(&()));
}

#[test]
fn insert_twice_check_get() {
    let mut map = GenMap::<u32>::new();
    let handle1 = map.insert(67);
    let handle2 = map.insert(69);
    assert_eq!(map.get(handle1), Some(&67));
    assert_eq!(map.get(handle2), Some(&69));
}

#[test]
fn insert_twice_check_different_handles() {
    let mut map = GenMap::<u32>::new();
    let handle1 = map.insert(67);
    let handle2 = map.insert(69);
    assert_ne!(handle1, handle2);
}

#[test]
fn zst_insert_twice_check_get() {
    let mut map = GenMap::<()>::new();
    let handle1 = map.insert(());
    let handle2 = map.insert(());
    assert_eq!(map.get(handle1), Some(&()));
    assert_eq!(map.get(handle2), Some(&()));
}

#[test]
fn insert_remove_check_return() {
    let mut map = GenMap::<u32>::new();
    let handle = map.insert(67);
    assert_eq!(map.remove(handle), Some(67));
}

#[test]
fn insert_remove_twice_check_return() {
    let mut map = GenMap::<u32>::new();
    let handle = map.insert(67);
    map.remove(handle);
    assert_eq!(map.remove(handle), None);
}

#[test]
fn insert_twice_remove1_check_return() {
    let mut map = GenMap::<u32>::new();
    let handle1 = map.insert(67);
    let _handle2 = map.insert(69);
    assert_eq!(map.remove(handle1), Some(67));
}

#[test]
fn insert_twice_remove2_check_return() {
    let mut map = GenMap::<u32>::new();
    let _handle1 = map.insert(67);
    let handle2 = map.insert(69);
    assert_eq!(map.remove(handle2), Some(69));
}

#[test]
fn insert_remove_insert() {
    let mut map = GenMap::<u32>::new();
    let handle1 = map.insert(67);
    map.remove(handle1);
    let handle2 = map.insert(69);
    assert_ne!(handle1, handle2);
    assert_eq!(map.get(handle1), None);
    assert_eq!(map.get(handle2), Some(&69));
    assert_eq!(map.values().as_std_slice(), &[69]);
}

#[test]
fn insert_remove_insert_remove() {
    let mut map = GenMap::<u32>::new();
    let handle1 = map.insert(67);
    map.remove(handle1);
    let handle2 = map.insert(69);
    map.remove(handle2);
    assert_eq!(map.get(handle1), None);
    assert_eq!(map.get(handle2), None);
    let empty: &[u32] = &[];
    assert_eq!(map.values().as_std_slice(), empty);
}

#[test]
fn insert_twice_remove1_insert() {
    let mut map = GenMap::<u32>::new();
    let handle1 = map.insert(67);
    let handle2 = map.insert(69);
    map.remove(handle1);
    let handle3 = map.insert(420);
    assert_ne!(handle1, handle2);
    assert_ne!(handle1, handle3);
    assert_ne!(handle2, handle3);
    assert_eq!(map.get(handle1), None);
    assert_eq!(map.get(handle2), Some(&69));
    assert_eq!(map.get(handle3), Some(&420));
    assert_eq!(map.values().as_std_slice(), &[69, 420]);
}

#[test]
fn insert_twice_remove2_insert() {
    let mut map = GenMap::<u32>::new();
    let handle1 = map.insert(67);
    let handle2 = map.insert(69);
    map.remove(handle2);
    let handle3 = map.insert(420);
    assert_ne!(handle1, handle2);
    assert_ne!(handle1, handle3);
    assert_ne!(handle2, handle3);
    assert_eq!(map.get(handle1), Some(&67));
    assert_eq!(map.get(handle2), None);
    assert_eq!(map.get(handle3), Some(&420));
    assert_eq!(map.values().as_std_slice(), &[67, 420]);
}

#[test]
fn insert_twice_remove_twice_insert() {
    let mut map = GenMap::<u32>::new();
    let handle1 = map.insert(67);
    let handle2 = map.insert(69);
    map.remove(handle1);
    map.remove(handle2);
    let handle3 = map.insert(420);
    assert_ne!(handle1, handle2);
    assert_ne!(handle1, handle3);
    assert_ne!(handle2, handle3);
    assert_eq!(map.get(handle1), None);
    assert_eq!(map.get(handle2), None);
    assert_eq!(map.get(handle3), Some(&420));
    assert_eq!(map.values().as_std_slice(), &[420]);
}

#[test]
fn dense_and_sparse_indexes_lead_back_to_the_handle() {
    let mut m = GenMap::<u32>::new();
    let h1 = m.insert(67);
    let h2 = m.insert(69);
    m.remove(h1);
    let h3 = m.insert(420);
    for h in [h2, h3] {
        let d = m.get_dense_index(h).unwrap();
        assert!(m.from_dense_index(d) == Some(h));
        assert!(m.unsafe_from_sparse_index(h.sparse_index()) == h);
    }
    assert_eq!(m.get_dense_index(h3).unwrap().as_usize(), 1);
    assert_eq!(h1.generation().value(), 0);
    let sparse = m.iter_sparse_indexes();
    assert_eq!(sparse.len(), 2);
    assert!(sparse[0] != sparse[1]);
}

#[test]
fn get_mut_changes_only_its_value() {
    let mut m = GenMap::<u32>::new();
    let h1 = m.insert(1);
    let h2 = m.insert(2);
    *m.get_mut(h1).unwrap() = 10;
    assert_eq!(m.get(h1), Some(&10));
    assert_eq!(m.get(h2), Some(&2));
    assert!(m.has(h2));
    assert_eq!(m.len(), 2);
    assert_eq!(m.unsafe_get_dense_index(h2.sparse_index()).as_usize(), 1);
    assert_eq!(*m.unsafe_get(h2.sparse_index()), 2);
}

#[test]
fn iter_mut_changes_values_in_place() {
    let mut m = GenMap::<u32>::new();
    let h1 = m.insert(1);
    let h2 = m.insert(2);
    for v in m.iter_mut() {
        *v *= 10;
    }
    assert_eq!(m.get(h1), Some(&10));
    assert_eq!(m.get(h2), Some(&20));
    for v in m.values_mut().iter_mut() {
        *v += 1;
    }
    assert_eq!(m.values().as_std_slice(), &[11, 21]);
}
