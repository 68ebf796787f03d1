use m6algs::sa::{compute_suffix_array_naive, suffix_array_bl, suffix_array_bl_radix, suffix_array_bl_radix_improved};
use m6algs::sais::suffix_array_sais;
use m6algs::sa16::suffix_array_16;

struct Gen(u64);

impl Gen {
    fn next(&mut self) -> u64 {
        let mut x = self.0;
        x ^= x << 13;
        x ^= x >> 7;
        x ^= x << 17;
        self.0 = x;
        x
    }
}

fn reference_sa(pat: &[u8]) -> Vec<usize> {
    let mut v: Vec<usize> = (0..pat.len()).collect();
    v.sort_by(|&a, &b| pat[a..].cmp(&pat[b..]));
    v
}

/// Random texts over small alphabets (without the byte 0), with their suffix arrays.
fn gen_sa_test_case() -> Vec<(String, Vec<usize>)> {
    let mut g = Gen(0xdead_beef_cafe_f00d);
    let mut cases = vec![];
    for _ in 0..200 {
        let alpha = 1 + g.next() % 5;
        let len = 1 + (g.next() % 120) as usize;
        let s: String = (0..len).map(|_| (b'a' + (g.next() % alpha) as u8) as char).collect();
        let res = reference_sa(s.as_bytes());
        cases.push((s, res));
    }
    cases
}

#[test]
fn sa_ensure_compute_sa_correctly_fixeddata() {
    for (pat, res) in [
        ("aabaaaab", vec![3, 4, 5, 0, 6, 1, 7, 2]),
        ("abaab", vec![2, 3, 0, 4, 1]),
        ("banana$", vec![6, 5, 3, 1, 0, 4, 2]),
        ("ba", vec![1, 0]),
        ("b", vec![0]),
    ]
    .iter()
    {
        assert_eq!(compute_suffix_array_naive(pat.as_bytes()), res.clone());
        assert_eq!(suffix_array_bl(pat.as_bytes()), res.clone());
        assert_eq!(suffix_array_bl_radix(pat.as_bytes()), res.clone());
        assert_eq!(suffix_array_bl_radix_improved(pat.as_bytes()), res.clone());
    }
}

#[test]
fn sa_ensure_compute_sa_correctly_randomdata() {
    for (pat, res) in gen_sa_test_case() {
        assert_eq!(compute_suffix_array_naive(pat.as_bytes()), res.clone());
        assert_eq!(suffix_array_bl(pat.as_bytes()), res.clone());
        assert_eq!(suffix_array_bl_radix(pat.as_bytes()), res.clone());
        assert_eq!(suffix_array_bl_radix_improved(pat.as_bytes()), res.clone());
    }
}

#[test]
fn sais_ensure_compute_sa_correctly_fixeddata() {
    for (pat, res) in [
        ("aabaaaab", vec![3, 4, 5, 0, 6, 1, 7, 2]),
        ("abaab", vec![2, 3, 0, 4, 1]),
        ("banana$", vec![6, 5, 3, 1, 0, 4, 2]),
        ("ba", vec![1, 0]),
        ("b", vec![0]),
    ]
    .iter()
    {
        assert_eq!(suffix_array_sais(pat.as_bytes()), res.clone());
    }
}

#[test]
fn sais_ensure_compute_sa_correctly_randomdata() {
    for (pat, res) in gen_sa_test_case() {
        assert_eq!(suffix_array_sais(pat.as_bytes()), res.clone());
    }
}

#[test]
fn suffix_arrays_of_empty_text() {
    assert_eq!(compute_suffix_array_naive(b""), Vec::<usize>::new());
    assert_eq!(suffix_array_bl(b""), Vec::<usize>::new());
    assert_eq!(suffix_array_sais(b""), Vec::<usize>::new());
}

#[test]
fn ensure_compute_sa16_correctly_fixeddata() {
    for (pat, res) in [
        ("aabaaaab", vec![3, 4, 5, 0, 6, 1, 7, 2]),
        ("abaab", vec![2, 3, 0, 4, 1]),
        ("banana$", vec![6, 5, 3, 1, 0, 4, 2]),
        ("ba", vec![1, 0]),
        ("b", vec![0]),
    ]
    .iter()
    {
        assert_eq!(suffix_array_16(pat.as_bytes()), res.clone());
    }
}

#[test]
fn ensure_compute_sa16_correctly_randomdata() {
    for (pat, res) in gen_sa_test_case() {
        assert_eq!(suffix_array_16(pat.as_bytes()), res.clone());
    }
}
