use std::cmp::Ordering;

use m6algs::algs::lexi_cmp;
use m6algs::math::{split_improved, split_simple, sum_scan, task_split_improved, task_split_simple};
use m6algs::sort::{counting_sort, heapsort, merge_sort};
use rand::seq::SliceRandom;
use rand::thread_rng;

struct Gen(u64);

impl Gen {
    fn next(&mut self) -> u64 {
        let mut x = self.0;
        x ^= x << 13;
        x ^= x >> 7;
        x ^= x << 17;
        self.0 = x;
        x
    }
}

/// Vectors of assorted lengths and contents, duplicates included.
fn gen_test_case() -> Vec<Vec<u64>> {
    let mut g = Gen(0x2545_f491_4f6c_dd1d);
    let mut cases = vec![];
    for len in 1..200usize {
        let range = 1 + g.next() % 1000;
        cases.push((0..len).map(|_| g.next() % range).collect());
    }
    cases
}

fn is_sorted(v: &[u64]) -> bool {
    v.windows(2).all(|w| w[0] <= w[1])
}

fn same_items(a: &[u64], b: &[u64]) -> bool {
    let mut a = a.to_vec();
    let mut b = b.to_vec();
    a.sort();
    b.sort();
    a == b
}

#[test]
fn test_heapsort_sort() {
    for pat in gen_test_case() {
        let mut res = pat.clone();
        heapsort(&mut res[..]);
        assert!(is_sorted(&res));
        assert!(same_items(&res, &pat));
    }
}

#[test]
fn test_merge_sort() {
    for pat in gen_test_case() {
        let mut res = pat.clone();
        merge_sort(&mut res[..]);
        assert!(is_sorted(&res));
        assert!(same_items(&res, &pat));
    }
}

#[test]
fn heapsort_handles_empty_and_single() {
    let mut e: Vec<u64> = vec![];
    heapsort(&mut e[..]);
    assert_eq!(e, Vec::<u64>::new());
    let mut one = vec![7u64];
    heapsort(&mut one[..]);
    assert_eq!(one, vec![7]);
}

#[test]
fn test_task_split() {
    assert_eq!(sum_scan(&[1, 2, 3]), [1, 3, 6]);

    assert_eq!(task_split_simple(5, 2), [2, 3]);
    assert_eq!(task_split_improved(5, 2), [3, 2]);

    println!("{:?}", split_simple(&['a', 'b', 'c', 'd', 'e'], 3));
    println!("{:?}", split_improved(&['a', 'b', 'c', 'd', 'e'], 3));
}

#[test]
fn split_keeps_every_item_in_order() {
    let s = ['a', 'b', 'c', 'd', 'e'];
    assert_eq!(split_simple(&s, 3), vec![vec!['a'], vec!['b'], vec!['c', 'd', 'e']]);
    assert_eq!(split_improved(&s, 3), vec![vec!['a', 'b'], vec!['c', 'd'], vec!['e']]);
    assert_eq!(task_split_simple(7, 3), [2, 2, 3]);
    assert_eq!(task_split_improved(7, 3), [3, 2, 2]);
}

#[test]
fn test_lexi_cmp_works_basic() {
    assert_eq!(lexi_cmp(&[1, 2, 3][..], &[1, 2][..]), Ordering::Greater);
    assert_eq!(lexi_cmp(&vec![1, 2, 3][..], &vec![1, 2, 4][..]), Ordering::Less);
    assert_eq!(lexi_cmp(&vec![1, 2, 3][..], &vec![1, 2, 3][..]), Ordering::Equal);
    assert_eq!(lexi_cmp(&vec![4, 2, 3][..], &vec![4, 3, 2][..]), Ordering::Less);
}

#[test]
fn test_counting_sort() {
    let mut rng = thread_rng();

    for _round in 0..100 {
        for len in 1..100 {
            let mut origin: Vec<usize> = (0..len).collect();
            origin.shuffle(&mut rng);

            counting_sort(&mut origin, (0, len));

            assert!(origin.windows(2).all(|w| w[0] <= w[1]));
        }
    }
}

#[test]
fn counting_sort_with_repeats_and_offset() {
    let mut v: Vec<usize> = vec![12, 10, 15, 10, 12, 12, 11];
    let r = counting_sort(&mut v, (10, 15));
    assert_eq!(*r, vec![10, 10, 11, 12, 12, 12, 15]);
    assert_eq!(v, vec![10, 10, 11, 12, 12, 12, 15]);

    let mut e: Vec<usize> = vec![];
    counting_sort(&mut e, (3, 3));
    assert!(e.is_empty());

    let mut same: Vec<usize> = vec![4, 4, 4];
    counting_sort(&mut same, (4, 4));
    assert_eq!(same, vec![4, 4, 4]);
}
