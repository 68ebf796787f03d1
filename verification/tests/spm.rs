use m6algs::b5s::B5STimePattern;
use m6algs::horspool::HorsPoolPattern;
use m6algs::kmp::{ComputeNext, KMPPattern};
use m6algs::spm_bm::{BMPattern, SimplifiedBMPattern};
use m6algs::sunday::SundayPattern;
use m6algs::z::compute_z_naive;

/// A small deterministic generator of pseudo-random numbers (xorshift).
struct Gen(u64);

impl Gen {
    fn next(&mut self) -> u64 {
        let mut x = self.0;
        x ^= x << 13;
        x ^= x >> 7;
        x ^= x << 17;
        self.0 = x;
        x
    }

    fn below(&mut self, n: u64) -> u64 {
        self.next() % n
    }
}

fn naive_find_all(pat: &str, text: &str) -> Vec<usize> {
    let p = pat.as_bytes();
    let t = text.as_bytes();
    let mut r = vec![];
    if p.len() > t.len() {
        return r;
    }
    for i in 0..=t.len() - p.len() {
        if &t[i..i + p.len()] == p {
            r.push(i);
        }
    }
    r
}

/// Patterns and texts over small alphabets, with the positions where each pattern occurs.
fn gen_test_case() -> Vec<(String, String, Vec<usize>)> {
    let mut g = Gen(0x9e37_79b9_7f4a_7c15);
    let mut cases = vec![];
    for _ in 0..300 {
        let alpha = 1 + g.below(4) as u8;
        let patlen = 1 + g.below(8) as usize;
        let textlen = g.below(200) as usize;
        let pat: String = (0..patlen).map(|_| (b'a' + g.below(alpha as u64) as u8) as char).collect();
        let text: String = (0..textlen).map(|_| (b'a' + g.below(alpha as u64) as u8) as char).collect();
        let result = naive_find_all(&pat, &text);
        cases.push((pat, text, result));
    }
    cases
}

#[test]
fn horspool_find_all_fixeddata_works() {
    let p1 = HorsPoolPattern::new("abbaaba");
    assert_eq!(p1.find_all("abbaabbaababbaaba"), vec![4, 10]);

    let p2 = HorsPoolPattern::new("aaa");
    assert_eq!(p2.find_all("aaaaa"), vec![0, 1, 2]);

    let p3 = HorsPoolPattern::new("b");
    assert_eq!(p3.find_all("aaaaa"), vec![]);
}

#[test]
fn horspool_find_all_randomdata_works() {
    for (pat, text, result) in gen_test_case() {
        assert_eq!(HorsPoolPattern::new(pat.as_str()).find_all(text.as_str()), result)
    }
}

#[test]
fn sunday_find_all_fixeddata_works() {
    let p1 = SundayPattern::new("abbaaba");
    assert_eq!(p1.find_all("abbaabbaababbaaba"), vec![4, 10]);

    let p2 = SundayPattern::new("aaa");
    assert_eq!(p2.find_all("aaaaa"), vec![0, 1, 2]);

    let p3 = SundayPattern::new("b");
    assert_eq!(p3.find_all("aaaaa"), vec![]);
}

#[test]
fn sunday_find_all_randomdata_works() {
    for (pat, text, result) in gen_test_case() {
        assert_eq!(SundayPattern::new(pat.as_str()).find_all(text.as_str()), result)
    }
}

#[test]
fn b5s_time_find_all_fixeddata_works() {
    let p1 = B5STimePattern::new("abbaaba");
    assert_eq!(p1.find_all("abbaabbaababbaaba"), vec![4, 10]);

    let p2 = B5STimePattern::new("aaa");
    assert_eq!(p2.find_all("aaaaa"), vec![0, 1, 2]);

    let p3 = B5STimePattern::new("b");
    assert_eq!(p3.find_all("aaaaa"), vec![]);
}

#[test]
fn b5s_time_find_all_randomdata_works() {
    for (pat, text, result) in gen_test_case() {
        assert_eq!(B5STimePattern::new(pat.as_str()).find_all(text.as_str()), result)
    }
}

#[test]
fn bm_delta2_table_built_correctly() {
    let mut p;

    p = BMPattern::new("ABCXXXABC");
    assert_eq!(p.delta2_table(), vec![13, 12, 11, 10, 9, 8, 10, 9, 0]);

    p = BMPattern::new("ABYXCDEYX");
    assert_eq!(p.delta2_table(), vec![16, 15, 14, 13, 12, 11, 6, 9, 0]);

    p = BMPattern::new("abbaaba");
    assert_eq!(p.delta2_table(), vec![11, 10, 9, 8, 4, 2, 0]);

    p = BMPattern::new("abaabaabaa");
    assert_eq!(p.delta2_table(), vec![11, 10, 9, 11, 10, 9, 11, 10, 1, 0]);

    p = BMPattern::new("aaa");
    assert_eq!(p.delta2_table(), vec![2, 2, 0]);
}

#[test]
fn bm_find_all_fixeddata_works() {
    let mut p;

    p = BMPattern::new("abbaaba");
    assert_eq!(p.find_all("abbaabbaababbaaba"), vec![4, 10]);

    p = BMPattern::new("aaa");
    assert_eq!(p.find_all("aaaaa"), vec![0, 1, 2]);

    p = BMPattern::new("a");
    assert_eq!(p.find_all("a"), vec![0]);

    p = BMPattern::new("abcd");
    assert_eq!(p.find_all("abcdabcdabcabcd"), vec![0, 4, 11]);
}

#[test]
fn bm_find_all_randomdata_works() {
    for (pat, text, result) in gen_test_case() {
        assert_eq!(BMPattern::new(pat.as_str()).find_all(text.as_str()), result)
    }
}

#[test]
fn simplified_bm_find_all_fixeddata_works() {
    let p1 = SimplifiedBMPattern::new("abbaaba");
    assert_eq!(p1.find_all("abbaabbaababbaaba"), vec![4, 10]);

    let p2 = SimplifiedBMPattern::new("aaa");
    assert_eq!(p2.find_all("aaaaa"), vec![0, 1, 2]);

    let p3 = SimplifiedBMPattern::new("a");
    assert_eq!(p3.find_all("a"), vec![0]);
}

#[test]
fn simplified_bm_find_all_randomdata_works() {
    for (pat, text, result) in gen_test_case() {
        assert_eq!(SimplifiedBMPattern::new(pat.as_str()).find_all(text.as_str()), result)
    }
}

#[test]
fn calc_right_next() {
    for flag in [ComputeNext::Naive, ComputeNext::Improved].iter() {
        assert_eq!(
            KMPPattern::new("abababzabababa", *flag).next_table(),
            vec![-1, 0, 0, 1, 2, 3, 4, 0, 1, 2, 3, 4, 5, 6]
        );

        assert_eq!(KMPPattern::new("aaaaa", *flag).next_table(), vec![-1, 0, 1, 2, 3]);

        assert_eq!(KMPPattern::new("aaabaab", *flag).next_table(), vec![-1, 0, 1, 2, 0, 1, 2]);

        assert_eq!(
            KMPPattern::new("hi哦啦，hi哦啦", *flag).next_table(),
            vec![-1, 0, 0, 0, 0, 0, 1, 2, 3]
        );
    }
}

#[test]
fn find_all_works() {
    let p1 = KMPPattern::new("abbaaba", ComputeNext::Naive);
    assert_eq!(p1.find_all("abbaabbaababbaaba"), vec![4, 10]);

    let p2 = KMPPattern::new("aaa", ComputeNext::Naive);
    assert_eq!(p2.find_all("aaaaa"), vec![0, 1, 2]);
}

#[test]
fn kmp_find_all_reports_byte_offsets() {
    let p = KMPPattern::new("哦啦", ComputeNext::Improved);
    assert_eq!(p.find_all("hi哦啦，哦啦"), vec![2, 11]);
}

#[test]
fn get_correct_z_function_static_check() {
    let mut pat = "aaaaa";
    assert_eq!(compute_z_naive(pat.as_bytes()), vec![0, 4, 3, 2, 1]);

    pat = "aaabaab";
    assert_eq!(compute_z_naive(pat.as_bytes()), vec![0, 2, 1, 0, 2, 1, 0]);

    pat = "abacaba";
    assert_eq!(compute_z_naive(pat.as_bytes()), vec![0, 0, 1, 0, 3, 0, 1]);
}

#[test]
fn get_correct_z_function_dyn_check() {}

#[test]
fn find_works() {
    let test = |pattern: &str, text: &str, v: Vec<usize>| {
        let p = KMPPattern::new(pattern, ComputeNext::Naive);
        let mut gen_p = p.find(text);
        let mut myv = vec![];
        while let Some(j) = gen_p.next() {
            myv.push(j);
        }
        assert_eq!(myv, v)
    };

    test("abbaaba", "abbaabbaababbaaba", vec![4, 10]);
    test("aaa", "aaaaa", vec![0, 1, 2]);
}
