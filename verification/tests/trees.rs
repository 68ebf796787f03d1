use std::collections::BTreeMap;

use m6algs::aa::AA;
use m6algs::b3::{B3Node, B3};
use m6algs::avl::{AVLNode, AVL};
use m6algs::llrb::LLRB;
use m6algs::rb::RB;
use m6algs::sg::SG;
use m6algs::rawst::RawST;
use m6algs::splay::Splay;
use m6algs::treap::Treap;

struct Gen(u64);

impl Gen {
    fn next(&mut self) -> u64 {
        let mut x = self.0;
        x ^= x << 13;
        x ^= x >> 7;
        x ^= x << 17;
        self.0 = x;
        x
    }
}

/// A shuffled sequence of distinct keys below `n`.
fn shuffled(n: u32, seed: u64) -> Vec<u32> {
    let mut g = Gen(seed);
    let mut v: Vec<u32> = (0..n).collect();
    for i in (1..v.len()).rev() {
        let j = (g.next() % (i as u64 + 1)) as usize;
        v.swap(i, j);
    }
    v
}

#[test]
fn test_avl2_case_1() {
    let mut dict = AVL::<u16, ()>::new();

    dict.insert(52, ());
    assert!(dict.get(&52).is_some());

    dict.insert(47, ());
    assert!(dict.get(&47).is_some());

    dict.insert(3, ());
    assert!(dict.get(&3).is_some());

    dict.insert(35, ());
    assert!(dict.get(&35).is_some());

    dict.insert(24, ());
    assert!(dict.get(&24).is_some());
}

#[test]
fn test_avl2_random() {
    let mut dict = AVL::<u32, u32>::new();
    let mut model = BTreeMap::new();
    for (i, k) in shuffled(1000, 11).into_iter().enumerate() {
        assert_eq!(dict.insert(k, i as u32), model.insert(k, i as u32));
        assert_eq!(dict.get(&k), Some(&(i as u32)));
    }
    for k in shuffled(1000, 12) {
        assert_eq!(dict.insert(k, k), model.insert(k, k));
    }
    for k in shuffled(1200, 13) {
        assert_eq!(dict.remove(&k), model.remove(&k));
        assert_eq!(dict.get(&k), None);
    }
}

#[test]
fn avl_test_avl_randomdata() {
    let mut dict = AVL::<u16, u32>::new();
    let mut model = BTreeMap::new();
    for k in shuffled(2000, 21) {
        let k = k as u16;
        assert_eq!(dict.insert(k, k as u32 * 3), model.insert(k, k as u32 * 3));
    }
    for k in 0..2000u16 {
        assert_eq!(dict.get(&k), model.get(&k));
    }
    for k in shuffled(2000, 22) {
        let k = k as u16;
        assert_eq!(dict.remove(&k), model.remove(&k));
    }
}

#[test]
fn avl_test_avl_fixeddata_case_1() {
    let mut avl = AVL::<u16, ()>::new();

    avl.insert(52, ());
    assert!(avl.get(&52).is_some());

    avl.insert(47, ());
    assert!(avl.get(&47).is_some());

    avl.insert(3, ());
    assert!(avl.get(&3).is_some());

    avl.insert(35, ());
    assert!(avl.get(&35).is_some());

    avl.insert(24, ());
    assert!(avl.get(&24).is_some());
}

#[test]
fn avl_test_avl_fixeddata_case_2() {
    let mut avl = AVL::<u16, ()>::new();

    avl.insert(6, ());
    avl.insert(29, ());
    avl.insert(26, ());
    avl.insert(10, ());
    avl.insert(17, ());
    avl.insert(18, ());
    avl.insert(12, ());
    for k in [6, 29, 26, 10, 17, 18, 12] {
        assert!(avl.get(&k).is_some());
    }
}

#[test]
fn avl_node_validates_balance() {
    let n: AVLNode<u16, ()> = AVLNode::new(1, ());
    assert!(n.self_validate().is_ok());
}

#[test]
fn test_bst2_splay_case_1() {
    let mut dict = Splay::<u16, ()>::new();

    dict.insert(52, ());
    assert!(dict.get(&52).is_some());

    dict.insert(47, ());
    assert!(dict.get(&47).is_some());

    dict.insert(3, ());
    assert!(dict.get(&3).is_some());

    dict.insert(35, ());
    assert!(dict.get(&35).is_some());

    dict.insert(24, ());
    assert!(dict.get(&24).is_some());
}

#[test]
fn test_bst2_splay_random() {
    let mut dict = Splay::<u32, u32>::new();
    let mut model = BTreeMap::new();
    for (i, k) in shuffled(800, 31).into_iter().enumerate() {
        assert_eq!(dict.insert(k, i as u32), model.insert(k, i as u32));
    }
    for k in shuffled(900, 32) {
        assert_eq!(dict.get(&k), model.get(&k));
    }
    for k in shuffled(900, 33) {
        assert_eq!(dict.remove(&k), model.remove(&k));
        assert_eq!(dict.get(&k), None);
    }
}

#[test]
fn test_splay_randomdata() {
    let mut dict = Splay::<u32, u32>::new();
    for k in shuffled(500, 41) {
        assert_eq!(dict.insert(k, k + 1), None);
    }
    for k in shuffled(500, 42) {
        assert_eq!(dict.insert(k, k + 2), Some(k + 1));
    }
    for k in shuffled(500, 43) {
        assert_eq!(dict.remove(&k), Some(k + 2));
    }
}

#[test]
fn test_rawst_randomdata() {
    let mut dict = RawST::<u32, u32>::new();
    let mut model = BTreeMap::new();
    for k in shuffled(1000, 51) {
        let fresh = !model.contains_key(&k);
        assert_eq!(dict.insert(k, k * 2), fresh);
        model.insert(k, k * 2);
        assert!(!dict.insert(k, 0));
    }
    for k in shuffled(1000, 52) {
        assert!(dict.modify(&k, k + 7));
        model.insert(k, k + 7);
    }
    for k in shuffled(1100, 53) {
        assert_eq!(dict.lookup(&k), model.get(&k));
        assert_eq!(dict.remove(&k), model.remove(&k));
        assert_eq!(dict.lookup(&k), None);
    }
}

#[test]
fn test_llrb_randomdata() {
    let mut dict = LLRB::<u32, u32>::new();
    let mut model = BTreeMap::new();
    for k in shuffled(1000, 61) {
        assert!(dict.insert(k, k));
        model.insert(k, k);
        assert!(!dict.insert(k, 1));
    }
    for k in shuffled(1100, 62) {
        assert_eq!(dict.lookup(&k), model.get(&k));
    }
    for k in shuffled(1100, 63) {
        assert_eq!(dict.remove(&k), model.remove(&k));
        assert_eq!(dict.lookup(&k), None);
    }
}

#[test]
fn test_aa_randomdata() {
    let mut dict = AA::<u32, u32>::new();
    let mut model = BTreeMap::new();
    for k in shuffled(1000, 71) {
        assert_eq!(dict.insert(k, k), model.insert(k, k));
    }
    for k in shuffled(1000, 72) {
        assert_eq!(dict.insert(k, k + 5), model.insert(k, k + 5));
    }
    for k in shuffled(1100, 73) {
        assert_eq!(dict.get(&k), model.get(&k));
        assert_eq!(dict.remove(&k), model.remove(&k));
        assert_eq!(dict.get(&k), None);
    }
}

#[test]
fn test_treap_randomdata() {
    let mut dict = Treap::<u32, u32>::new();
    assert!(dict.is_empty());
    let mut model = BTreeMap::new();
    for k in shuffled(1000, 81) {
        assert!(dict.insert(k, k * 3));
        model.insert(k, k * 3);
        assert!(!dict.insert(k, 0));
    }
    assert!(!dict.is_empty());
    for k in shuffled(1000, 82) {
        assert!(dict.modify(&k, k + 1));
        model.insert(k, k + 1);
    }
    for k in shuffled(1100, 83) {
        assert_eq!(dict.lookup(&k), model.get(&k));
        assert_eq!(dict.remove(&k), model.remove(&k));
        assert_eq!(dict.lookup(&k), None);
    }
    assert!(dict.is_empty());
}

#[test]
fn treap_with_fixed_weights_keeps_every_entry() {
    let mut t = Treap::<i32, ()>::new();
    for (i, k) in [5, 3, 8, 1, 4, 7, 9].iter().enumerate() {
        assert!(t.insert_with_weight(*k, (), (i as u64) * 7 % 5));
    }
    for k in [5, 3, 8, 1, 4, 7, 9] {
        assert!(t.lookup(&k).is_some());
    }
    assert_eq!(t.remove(&1), Some(()));
    assert_eq!(t.remove(&1), None);
    assert_eq!(t.lookup(&4), Some(&()));
}

#[test]
fn test_avl_randomdata() {
    let mut dict = AVL::<u32, u32>::new();
    let mut model = BTreeMap::new();
    for k in shuffled(3000, 31) {
        assert_eq!(dict.insert(k, k + 1), model.insert(k, k + 1));
    }
    for k in shuffled(3500, 32) {
        assert_eq!(dict.get(&k), model.get(&k));
        assert_eq!(dict.remove(&k), model.remove(&k));
        assert_eq!(dict.get(&k), None);
    }
}

#[test]
fn test_rb2_case_1() {
    let mut dict = RB::<u16, ()>::new();

    dict.insert(52, ());
    assert!(dict.get(&52).is_some());

    dict.insert(47, ());
    assert!(dict.get(&47).is_some());

    dict.insert(3, ());
    assert!(dict.get(&3).is_some());

    dict.insert(35, ());
    assert!(dict.get(&35).is_some());

    dict.insert(24, ());
    assert!(dict.get(&24).is_some());

    assert!(dict.balance_validation());
}

#[test]
fn test_rb2_random() {
    let mut dict = RB::<u32, u32>::new();
    let mut model = BTreeMap::new();
    for (i, k) in shuffled(1000, 31).into_iter().enumerate() {
        assert_eq!(dict.insert(k, i as u32), model.insert(k, i as u32));
        assert_eq!(dict.get(&k), Some(&(i as u32)));
    }
    assert!(dict.balance_validation());
    for k in shuffled(1000, 32) {
        assert_eq!(dict.insert(k, k), model.insert(k, k));
    }
    for k in shuffled(1200, 33) {
        assert_eq!(dict.remove(&k), model.remove(&k));
        assert_eq!(dict.get(&k), None);
        if k % 50 == 0 {
            assert!(dict.balance_validation());
        }
    }
    assert!(dict.balance_validation());
}

#[test]
fn rb_remove_keeps_colour_rules() {
    let mut dict = RB::<u32, ()>::new();
    for k in shuffled(300, 41) {
        dict.insert(k, ());
    }
    for k in shuffled(300, 42).into_iter().take(150) {
        assert_eq!(dict.remove(&k), Some(()));
        assert!(dict.balance_validation());
    }
}

#[test]
fn test_b3_fixeddata_case_0() {
    let mut dict = B3::<i32, ()>::new();

    for k in [92, 917, 765, 901, 345, 645, 794, 643, 540, 81, 174, 340, 923, 88, 226, 126, 784, 943, 332, 885] {
        assert!(dict.insert(k, ()));
    }

    for k in [794, 81, 901, 643, 345, 645, 92, 784, 885, 332] {
        assert!(dict.remove(&k).is_some());
        assert!(dict.lookup(&k).is_none());
    }
    for k in [917, 765, 540, 174, 340, 923, 88, 226, 126, 943] {
        assert!(dict.lookup(&k).is_some());
    }
}

#[test]
fn test_b3_fixeddata_case_1() {
    let mut dict = B3::<i32, ()>::new();

    for k in [75, 60, 98, 91, 59, 92, 45, 2, 4, 13] {
        dict.insert(k, ());
    }

    assert!(dict.lookup(&75).is_some());
    assert!(dict.remove(&75).is_some());
    assert!(dict.lookup(&75).is_none());

    for k in [60, 98, 59, 92, 45, 2, 4, 13] {
        assert!(dict.remove(&k).is_some());
    }
    assert!(dict.lookup(&91).is_some());
    assert!(dict.remove(&91).is_some());
    assert!(dict.remove(&91).is_none());
}

#[test]
fn test_b3_randomdata() {
    let mut dict = B3::<u32, u32>::new();
    let mut model = BTreeMap::new();
    for k in shuffled(1000, 81) {
        assert!(dict.insert(k, k));
        model.insert(k, k);
        assert!(!dict.insert(k, 1));
    }
    for k in shuffled(1100, 82) {
        assert_eq!(dict.lookup(&k), model.get(&k));
        let found = model.contains_key(&k);
        assert_eq!(dict.modify(&k, k + 7), found);
        if found {
            model.insert(k, k + 7);
        }
    }
    for k in shuffled(1100, 83) {
        assert_eq!(dict.lookup(&k), model.get(&k));
        assert_eq!(dict.remove(&k), model.remove(&k));
        assert_eq!(dict.lookup(&k), None);
    }
}

#[test]
fn test_b3_bulk_load() {
    let seq: Vec<(i32, ())> = (10..110).step_by(10).map(|n| (n, ())).collect();

    let b3 = B3::<i32, ()>::bulk_load(seq);

    for n in (10..110).step_by(10) {
        assert!(b3.lookup(&n).is_some());
        assert!(b3.lookup(&(n + 1)).is_none());
    }
}

#[test]
fn b3_node_constructors() {
    let a = B3Node::<u32, u32>::new_value(3, 4);
    let b = B3Node::<u32, u32>::new_ptr(Box::new(3), Box::new(4));
    match (a, b) {
        (B3Node::Two { key: k1, val: v1, .. }, B3Node::Two { key: k2, val: v2, .. }) => {
            assert_eq!((k1, v1), (3, 4));
            assert_eq!((k2, v2), (3, 4));
        },
        _ => panic!("a new node holds one entry"),
    }
}

#[test]
fn test_sg2_case_1() {
    let mut dict = SG::<i32, ()>::new(7, 10);

    dict.insert(52, ());
    assert!(dict.get(&52).is_some());

    dict.insert(47, ());
    assert!(dict.get(&47).is_some());

    dict.insert(3, ());
    assert!(dict.get(&3).is_some());

    dict.insert(35, ());
    assert!(dict.get(&35).is_some());

    dict.insert(24, ());
    assert!(dict.get(&24).is_some());
}

#[test]
fn test_sg2_random() {
    let mut dict = SG::<u32, u32>::new(3, 5);
    let mut model = BTreeMap::new();
    for (i, k) in shuffled(1000, 91).into_iter().enumerate() {
        assert_eq!(dict.insert(k, i as u32), model.insert(k, i as u32));
        assert_eq!(dict.get(&k), Some(&(i as u32)));
    }
    for k in shuffled(1000, 92) {
        assert_eq!(dict.insert(k, k), model.insert(k, k));
    }
    for k in shuffled(1200, 93) {
        assert_eq!(dict.remove(&k), model.remove(&k));
        assert_eq!(dict.get(&k), None);
    }
}

#[test]
fn sg_sorted_inserts_stay_searchable() {
    let mut dict = SG::<u32, u32>::new(1, 2);
    for k in 0..2000u32 {
        assert_eq!(dict.insert(k, k * 2), None);
    }
    for k in 0..2000u32 {
        assert_eq!(dict.get(&k), Some(&(k * 2)));
    }
    assert_eq!(dict.insert(5, 1), Some(10));
    assert_eq!(dict.remove(&5), Some(1));
    assert_eq!(dict.remove(&5), None);
}

#[test]
fn test_bst() {
    test_avl_randomdata();
    test_rawst_randomdata();
}

#[test]
fn test_bt() {
    test_bst()
}

#[test]
fn test_aa_fixeddata_case_0() {
    let mut aa = AA::<i32, ()>::new();

    aa.insert(87, ());
    assert!(aa.self_validate().is_ok());

    for k in [40, 89, 39, 24, 70, 9, 2, 67] {
        aa.insert(k, ());
        aa.self_validate().unwrap();
    }

    assert!(aa.insert(67, ()).is_some());
    aa.self_validate().unwrap();

    assert!(aa.insert(24, ()).is_some());
    aa.self_validate().unwrap();

    assert!(aa.insert(9, ()).is_some());
    aa.self_validate().unwrap();
}

#[test]
fn test_aa_fixeddata_case_1() {
    let mut aa = AA::<i32, ()>::new();

    aa.insert(255, ());
    aa.insert(242, ());
    aa.insert(393, ());

    assert!(aa.remove(&255).is_some());
    aa.self_validate().unwrap();
}

#[test]
fn test_llrb_fixeddata_case_0() {
    let mut llrb = LLRB::<i32, ()>::new();

    for k in [18, 24, 13, 75, 95, 79, 96] {
        llrb.insert(k, ());
    }

    assert!(llrb.remove(&13).is_some());

    llrb.self_validate().unwrap();
}

#[test]
fn test_llrb_fixeddata_case_1() {
    let mut llrb = LLRB::<i32, ()>::new();

    for k in [2, 22, 14, 92, 3, 28, 14, 35, 14, 58] {
        llrb.insert(k, ());
    }

    for k in [22, 14, 92, 58, 14, 35, 14] {
        llrb.remove(&k);
    }
    llrb.self_validate().unwrap();
}

#[test]
fn test_treap_fixeddata_case_0() {
    let mut treap = Treap::<i32, ()>::new();

    treap.insert(87, ());
    assert!(treap.self_validate().is_ok());

    for k in [40, 89, 39, 24, 70, 9, 2, 67] {
        treap.insert(k, ());
        treap.self_validate().unwrap();
    }

    assert!(!treap.insert(67, ()));
    treap.self_validate().unwrap();

    assert!(!treap.insert(24, ()));
    treap.self_validate().unwrap();

    assert!(!treap.insert(9, ()));
    treap.self_validate().unwrap();
}

#[test]
fn test_treap_fixeddata_case_1() {
    let mut treap = Treap::<i32, ()>::new();

    treap.insert(6, ());
    treap.insert(52, ());
    treap.insert(40, ());
    treap.insert(18, ());

    assert!(treap.remove(&40).is_some());
    assert!(treap.lookup(&40).is_none());
    treap.self_validate().unwrap();

    assert!(treap.remove(&6).is_some());
    assert!(treap.lookup(&6).is_none());
    treap.self_validate().unwrap();

    assert!(treap.remove(&18).is_some());
    assert!(treap.lookup(&18).is_none());
    treap.self_validate().unwrap();
}

#[test]
fn test_treap_fixeddata_case_2() {
    let mut treap = Treap::<i32, ()>::new();

    treap.insert_with_weight(6, (), 14);
    treap.insert_with_weight(52, (), 21);
    treap.insert_with_weight(40, (), 82);
    treap.insert_with_weight(18, (), 22);

    assert!(treap.remove(&40).is_some());
    assert!(treap.remove(&6).is_some());
    assert!(treap.remove(&18).is_some());
    assert!(treap.lookup(&18).is_none());

    treap.self_validate().unwrap();
}

#[test]
fn aa_and_llrb_keep_their_rules_under_random_changes() {
    let mut aa = AA::<u32, ()>::new();
    let mut llrb = LLRB::<u32, ()>::new();
    for k in shuffled(300, 91) {
        aa.insert(k, ());
        llrb.insert(k, ());
        aa.self_validate().unwrap();
        llrb.self_validate().unwrap();
    }
    for k in shuffled(300, 92) {
        aa.remove(&k);
        llrb.remove(&k);
        aa.self_validate().unwrap();
        llrb.self_validate().unwrap();
    }
}

#[test]
fn avl_new_node_has_height_zero() {
    let n: AVLNode<u16, ()> = AVLNode::new(7, ());
    assert_eq!(n.aux, 0);
    let mut t = AVL::<u32, ()>::new();
    for k in 0..1000u32 {
        t.insert(k, ());
    }
    for k in 0..1000u32 {
        assert!(t.get(&k).is_some());
    }
}

#[test]
fn test_treap_heap() {
    let mut heap = Treap::<u64, ()>::new();
    assert_eq!(heap.top(), None);
    assert_eq!(heap.pop(), None);

    let mut weights: Vec<u64> = Vec::new();
    let mut g = Gen(0x9e3779b97f4a7c15);
    for _ in 0..500 {
        let w = g.next() % 1000;
        heap.push(w);
        weights.push(w);
        assert_eq!(heap.top(), weights.iter().max().copied());
        heap.self_validate().unwrap();
    }

    weights.sort_unstable_by(|a, b| b.cmp(a));
    for w in weights {
        assert_eq!(heap.top(), Some(w));
        assert_eq!(heap.pop(), Some(w));
        heap.self_validate().unwrap();
    }
    assert_eq!(heap.top(), None);
    assert!(heap.is_empty());
}
