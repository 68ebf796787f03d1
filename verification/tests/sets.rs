use std::collections::HashMap;

use m6algs::custom_hash_set::{CustomHashSet, HashKey};
use m6algs::easycoll::{EasyCollAPush, EasyCollGet, EasyCollInsert, M1, M2, MV};

#[test]
fn custom_hash_set_insert_contains_remove() {
    let mut s: CustomHashSet<u64, HashKey> = CustomHashSet::new(None);
    assert!(s.is_empty());
    for i in 0..50u64 {
        s.insert(i);
        s.insert(i);
    }
    assert_eq!(s.len(), 50);
    assert!(s.contains(&7));
    assert!(!s.contains(&70));
    assert!(s.remove(&7));
    assert!(!s.remove(&7));
    assert_eq!(s.take(&8), Some(8));
    assert_eq!(s.take(&8), None);
    assert_eq!(s.get(&9), Some(&9));
    assert_eq!(s.len(), 48);
    let mut drained = s.drain();
    let mut n = 0;
    while let Some(_) = drained.next() {
        n += 1;
    }
    assert_eq!(n, 48);
    assert!(s.is_empty());
}

#[test]
fn custom_hash_set_combinations() {
    let mut a: CustomHashSet<u64, HashKey> = CustomHashSet::new(Some(HashKey));
    let mut b: CustomHashSet<u64, HashKey> = CustomHashSet::new(None);
    for i in 0..10u64 {
        a.insert(i);
    }
    for i in 5..15u64 {
        b.insert(i);
    }
    // `intersection` keeps the items of both, `union` those of `a` that `b` holds.
    let both = a.intersection(&b);
    assert_eq!(both.len(), 15);
    let common = a.union(&b);
    assert_eq!(common.len(), 5);
    assert!(common.contains(&5) && common.contains(&9) && !common.contains(&4));
    let only_a = a.difference(&b);
    assert_eq!(only_a.len(), 5);
    assert!(only_a.contains(&0) && !only_a.contains(&5));
    let sym = a.symmetric_difference(&b);
    assert_eq!(sym.len(), 10);
    assert!(sym.contains(&0) && sym.contains(&14) && !sym.contains(&7));
    assert!(!a.is_disjoint(&b));
    assert!(only_a.is_disjoint(&b));
    assert!(common.is_subset(&a) && common.is_subset(&b));
    assert!(a.is_superset(&common));
    assert!(!a.is_subset(&b));
    let mut items = a.iter();
    items.sort();
    assert_eq!(items, (0..10u64).collect::<Vec<_>>());
}

#[test]
fn easycoll_maps() {
    let mut m1: M1<u64, u64> = M1::new();
    assert_eq!(EasyCollInsert::insert(&mut m1, 1, 10), None);
    assert_eq!(EasyCollInsert::insert(&mut m1, 1, 11), Some(10));
    assert_eq!(EasyCollGet::get(&m1, &1), Some(11));
    assert_eq!(EasyCollGet::get(&m1, &2), None);

    let mut m2: M2<u64, u64, u64> = M2::new();
    assert_eq!(EasyCollInsert::insert(&mut m2, (1, 2), 3), None);
    assert_eq!(EasyCollInsert::insert(&mut m2, (1, 2), 4), Some(3));
    assert_eq!(EasyCollInsert::insert(&mut m2, (1, 5), 6), None);
    assert_eq!(EasyCollGet::get(&m2, &(1, 2)), Some(4));
    assert_eq!(EasyCollGet::get(&m2, &(2, 2)), None);

    let mut mv: MV<u64, u64> = MV::new();
    mv.apush(1, 10);
    mv.apush(1, 20);
    assert_eq!(EasyCollGet::<(u64, usize), Vec<u64>>::get(&mv, &(1, 1)), Some(20));
    assert_eq!(EasyCollGet::<u64, Vec<u64>>::get(&mv, &1), Some(vec![10, 20]));
    assert_eq!(EasyCollInsert::<(u64, usize), u64>::insert(&mut mv, (1, 2), 30), Some(30));
    assert_eq!(EasyCollInsert::<(u64, usize), u64>::insert(&mut mv, (1, 0), 99), None);
    assert_eq!(EasyCollGet::<u64, Vec<u64>>::get(&mv, &1), Some(vec![10, 20, 30]));
    assert_eq!(EasyCollInsert::<u64, Vec<u64>>::insert(&mut mv, 2, vec![1]), None);
    let _unused: HashMap<u64, u64> = HashMap::new();
}
