use os::vec_map::VecMap;

#[test]
fn vec_map_insert_get_remove() {
    let mut m: VecMap<usize> = VecMap::new();
    assert_eq!(m.get(3), None);
    *m.get_mut_or_insert_default(3) += 5;
    *m.get_mut_or_insert_default(7) += 1;
    *m.get_mut_or_insert_default(3) += 2;
    assert_eq!(m.get(3), Some(&7));
    assert_eq!(m.get(7), Some(&1));
    *m.get_mut(7) = 9;
    assert_eq!(m.get(7), Some(&9));
    assert_eq!(m.remove(3), 7);
    assert_eq!(m.get(3), None);
    assert_eq!(m.items.len(), 1);
}

#[test]
fn vec_map_keeps_insertion_order() {
    let mut m: VecMap<isize> = VecMap::default();
    *m.get_mut_or_insert_default(10) = -1;
    *m.get_mut_or_insert_default(2) = 4;
    *m.get_mut_or_insert_default(10) = 3;
    assert_eq!(m.items, vec![(10, 3), (2, 4)]);
}

#[test]
fn vec_map_nested_defaults_are_empty() {
    let mut m: VecMap<VecMap<usize>> = VecMap::new();
    *m.get_mut_or_insert_default(1).get_mut_or_insert_default(0) += 1;
    m.get_mut_or_insert_default(2);
    assert_eq!(m.get(1).unwrap().get(0), Some(&1));
    assert!(m.get(2).unwrap().items.is_empty());
}
