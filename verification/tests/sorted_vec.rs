use rdf_glance::SortedVec;

#[test]
fn sorted_vec_keeps_values_ascending_and_unique() {
    let mut v = SortedVec::new();
    v.add(5);
    v.add(1);
    v.add(3);
    v.add(5);
    assert_eq!(v.data, vec![1, 3, 5]);
    assert!(v.contains(3));
    assert!(!v.contains(4));
}

#[test]
fn sorted_vec_remove() {
    let mut v = SortedVec::new();
    for x in [7, 2, 9] {
        v.add(x);
    }
    v.remove(2);
    v.remove(8);
    assert_eq!(v.data, vec![7, 9]);
    assert!(!v.contains(2));
}

#[test]
fn add_then_remove_restores_the_vector() {
    let mut s = SortedVec::new();
    for v in [5, 1, 9, 3] {
        s.add(v);
    }
    let before = s.data.clone();
    s.add(4);
    s.remove(4);
    assert_eq!(s.data, before);
    assert!(!s.contains(4));
}
