use m6algs::bloom_filter::{BloomFilter, BytesBloomFilter, BytesBloomFilter64};
use m6algs::bytes_set::BytesSet;
use m6algs::collections::SimpleBloomFilter;
use m6algs::roadmap::RoadMap;

#[test]
fn bytes_set_op_works() {
    let mut bs = BytesSet::new();
    for i in 0..255 {
        bs.insert(&i);

        assert!(bs.contains(&i));
        assert!(!bs.contains(&(i + 1)));
    }
}

#[test]
fn bloom_filter_simple_bloom_works() {}

#[test]
fn simple_bloom_filter_has_no_false_negatives() {
    let mut sbf = SimpleBloomFilter::new();
    for i in 0..=255u8 {
        sbf.add(&i);
        for j in 0..=i {
            assert!(sbf.contains(&j));
        }
    }
    let mut one = SimpleBloomFilter::new();
    one.add(&3);
    assert!(one.contains(&131));
    assert!(!one.contains(&4));
}

#[test]
fn bytes_bloom_filters_answer_for_inserted_bytes() {
    let mut f = BytesBloomFilter::new();
    f.insert(&70);
    assert!(f.contains(&70));
    assert!(f.contains(&6));
    assert!(!f.contains(&7));

    let mut g = BytesBloomFilter64::with_k(3);
    g.insert(&10);
    assert!(g.contains(&10));
    assert!(!g.contains(&20));
}

#[test]
fn test_roadmap() {
    let mut rm = RoadMap::empty();
    rm.push(0);
    rm.push(1);
    rm.push(2);

    println!("{}", rm.to_string());
    assert_eq!(rm.to_string(), "0-1-2");
    let longer = rm.ppush(-4);
    assert_eq!(longer.to_string(), "0-1-2--4");
    assert_eq!(rm.len(), 3);
    assert_eq!(longer.index(3), -4);
}

#[test]
fn simple_bloom_filter_finds_every_added_byte() {
    let mut f = SimpleBloomFilter::new();
    let bytes = [3u8, 200, 77, 3, 255, 0, 128];
    for b in bytes {
        f.add(&b);
    }
    for b in bytes {
        assert!(f.contains(&b));
    }
}

#[test]
fn bytes_set_holds_exactly_what_was_inserted() {
    let mut s = BytesSet::new();
    let inserted = [5u8, 127, 128, 255, 5, 0];
    for b in inserted {
        s.insert(&b);
    }
    for y in 0..=255u8 {
        assert_eq!(s.contains(&y), inserted.contains(&y));
    }
}
