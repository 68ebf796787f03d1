use m6algs::inf_sieve::{e_inc_sieve_inf, factorization};
use m6algs::wheel::wheel_sieve;
use m6algs::number::{ilog2, is_perfect_square, is_prime_trial, isqrt_ceil};
use m6algs::gcd::{ext_gcd, gcd_brute, gcd_mod, gcd_rem, gcd_sub, lcm, lcm_brute};
use m6algs::mairson::mairson_sieve;
use m6algs::sundaram::{sundaram_sieve, sundaram_sieve_improved};
use m6algs::fixed_wheel::{fixed_wheel_seg_sieve, fixed_wheel_seg_sieve_p, wheel_struct};
use m6algs::prime_sieves::{
    e_inc_sieve, e_seg_sieve, e_seg_sieve_p, e_sieve, subtask_ranges, mairson_dual_sieve, mairson_dual_sieve_factorization,
    wheel_seg_sieve,
};

struct Gen(u64);

impl Gen {
    fn next(&mut self) -> u64 {
        let mut x = self.0;
        x ^= x << 13;
        x ^= x >> 7;
        x ^= x << 17;
        self.0 = x;
        x
    }
}

fn is_prime_naive(n: usize) -> bool {
    n >= 2 && (2..n).take_while(|d| d * d <= n).all(|d| n % d != 0)
}

#[test]
fn test_factorization() {
    let n = 16800;
    let lpf = mairson_dual_sieve_factorization(n).1;
    let mut g = Gen(0x1234_5678_9abc_def1);

    for _ in 0..100 {
        let v = 2 + (g.next() % (n as u64 - 1)) as usize;

        let ans = {
            let mut v = v;
            let mut ans = vec![];

            while lpf[v] < v {
                ans.push(lpf[v]);
                v /= lpf[v];
            }

            ans.push(v);

            ans
        };

        assert_eq!(factorization(v), ans);
    }
}

#[test]
fn factorization_examples() {
    assert_eq!(factorization(18), vec![2, 3, 3]);
    assert_eq!(factorization(3), vec![3]);
    assert_eq!(factorization(0), Vec::<usize>::new());
    assert_eq!(factorization(1), Vec::<usize>::new());
    assert_eq!(factorization(1 << 20), vec![2; 20]);
    assert_eq!(factorization(999_983 * 2), vec![2, 999_983]);
}

#[test]
fn inf_sieve_hands_out_the_primes_in_order() {
    let mut s = e_inc_sieve_inf();
    let expected: Vec<usize> = (0..3000).filter(|&k| is_prime_naive(k)).collect();
    for &p in &expected {
        assert_eq!(s.next(), Some(p));
    }
}

#[test]
fn sieves_agree_with_trial_division() {
    for n in [0usize, 1, 2, 3, 4, 10, 97, 100, 1690] {
        let expected: Vec<usize> = (0..=n).filter(|&k| is_prime_naive(k)).collect();
        assert_eq!(e_sieve(n), expected);
        assert_eq!(e_seg_sieve(n), expected);
        assert_eq!(e_inc_sieve(n), expected);
        assert_eq!(mairson_dual_sieve(n), expected);
        assert_eq!(mairson_dual_sieve_factorization(n).0, expected);
    }
}

#[test]
fn wheel_sieve_agrees_with_trial_division() {
    for n in 0..400usize {
        let expected: Vec<usize> = (0..=n).filter(|&k| is_prime_naive(k)).collect();
        assert_eq!(wheel_sieve(n), expected);
    }
    assert_eq!(wheel_sieve(100).len(), 25);
    assert_eq!(wheel_sieve(16900), e_sieve(16900));
    assert_eq!(*wheel_sieve(30030).last().unwrap(), 30029);
}

#[test]
fn mairson_sieve_agrees_with_trial_division() {
    for n in 0..400usize {
        let expected: Vec<usize> = (0..=n).filter(|&k| is_prime_naive(k)).collect();
        assert_eq!(mairson_sieve(n), expected);
    }
    assert_eq!(mairson_sieve(16900), e_sieve(16900));
    assert_eq!(mairson_sieve(100).len(), 25);
}

#[test]
fn fixed_wheel_sieves_agree_with_trial_division() {
    for n in (0..1000usize).chain([1681, 16900, 30031, 100000, 1000003]) {
        let expected = e_sieve(n);
        assert_eq!(fixed_wheel_seg_sieve(n), expected, "n = {}", n);
        assert_eq!(fixed_wheel_seg_sieve_p(n), expected, "n = {}", n);
    }
    assert_eq!(fixed_wheel_seg_sieve(100).len(), 25);
}

#[test]
fn wheel_struct_of_seven_primes() {
    let w = wheel_struct(7);
    assert_eq!(w.prod, 510510);
    assert_eq!(w.primes, vec![2, 3, 5, 7, 11, 13, 17]);
    assert_eq!(w.next_prime, 19);
    assert_eq!(w.wheel.len(), 92160);
    assert_eq!(w.wheel[0], 1);
    assert_eq!(w.wheel[1], 19);
    assert_eq!(*w.wheel.last().unwrap(), 510509);
    assert_eq!(w.wheel_gap[0], 18);
    assert_eq!(*w.wheel_gap.last().unwrap(), 2);
    assert_eq!(subtask_ranges(100, 10), vec![(10, 50), (50, 90), (90, 100)]);
}

#[test]
fn number_test_gcd() {
    for i in 0..=1000u64 {
        for j in 0..=1000u64 {
            let r1 = gcd_mod(i, j);
            let r2 = gcd_sub(i, j);
            let r3 = gcd_rem(i, j);

            let (r4, x, y) = ext_gcd(i as i64, j as i64);
            assert_eq!(x * i as i64 + y * j as i64, r4);

            assert_eq!(r1, r2);
            assert_eq!(r2, r3);
            assert_eq!(r4 as u64, r3);
        }
    }
}

#[test]
fn test_lcm() {
    for i in 0..=100u64 {
        for j in 0..=100u64 {
            let r1 = lcm(i, j);
            let r2 = lcm_brute(i, j);

            assert_eq!(r1, r2);
        }
    }
}

#[test]
fn mod_test_gcd() {
    for i in 0..=1000u64 {
        for j in 0..=1000u64 {
            let r1 = gcd_rem(i, j);
            let r2 = gcd_sub(i, j);

            let (r4, x, y) = ext_gcd(i as i64, j as i64);
            assert_eq!(x * i as i64 + y * j as i64, r4);

            assert_eq!(r1, r2);
            assert_eq!(r4 as u64, r2);
        }
    }
}

#[test]
fn gcd_examples() {
    assert_eq!(gcd_mod(240, 46), 2);
    assert_eq!(ext_gcd(240, 46), (2, -9, 47));
    assert_eq!(gcd_brute(12, 18), 6);
    assert_eq!(gcd_brute(0, 18), 0);
    assert_eq!(gcd_brute(18, 0), 18);
    assert_eq!(gcd_rem(0, 0), 0);
    assert_eq!(lcm(4, 6), 12);
    assert_eq!(lcm(0, 6), 0);
    assert_eq!(lcm_brute(21, 6), 42);
}

#[test]
fn number_test_prime() {
    let sieves: Vec<fn(usize) -> Vec<usize>> = vec![
        e_sieve,
        e_seg_sieve,
        wheel_sieve,
        mairson_sieve,
        mairson_dual_sieve,
        e_inc_sieve,
        fixed_wheel_seg_sieve,
        fixed_wheel_seg_sieve_p,
        e_seg_sieve_p,
        sundaram_sieve,
        sundaram_sieve_improved,
    ];
    for sieve in sieves.iter() {
        for n in [0, 1] {
            assert!(sieve(n).is_empty());
        }
        assert_eq!(sieve(2), vec![2]);
        for n in [3, 4] {
            assert_eq!(sieve(n), vec![2, 3]);
        }
        let found = sieve(1690);
        for i in 1..=1690usize {
            assert_eq!(is_prime_trial(i), found.contains(&i), "{i}");
        }
    }
    let reference = e_sieve(16900);
    let mut inf = e_inc_sieve_inf();
    let mut taken = vec![];
    for _ in 0..reference.len() {
        taken.push(inf.next().unwrap());
    }
    assert_eq!(taken, reference);
}

#[test]
fn number_helpers() {
    for n in 0..2000usize {
        assert_eq!(is_prime_trial(n), is_prime_naive(n), "{n}");
        let r = (n as f64).sqrt() as usize;
        assert_eq!(is_perfect_square(n), r * r == n);
        let c = isqrt_ceil(n);
        assert!(n <= c * c && (c == 0 || (c - 1) * (c - 1) < n));
    }
    assert_eq!(ilog2(1), 1);
    assert_eq!(ilog2(2), 2);
    assert_eq!(ilog2(255), 8);
    assert_eq!(ilog2(256), 9);
    assert_eq!(ilog2(usize::MAX), usize::BITS);
}

#[test]
fn sundaram_sieves_agree_with_trial_division() {
    for n in 0..600usize {
        let expected: Vec<usize> = (0..=n).filter(|&k| is_prime_naive(k)).collect();
        assert_eq!(sundaram_sieve(n), expected, "n = {}", n);
        assert_eq!(sundaram_sieve_improved(n), expected, "n = {}", n);
    }
    assert_eq!(sundaram_sieve_improved(16900), e_sieve(16900));
}

#[test]
fn wheel_seg_sieve_lists_the_primes() {
    for n in (0..600usize).chain([16900, 30031]) {
        assert_eq!(wheel_seg_sieve(n), e_sieve(n), "n = {}", n);
    }
    assert_eq!(wheel_seg_sieve(30), vec![2, 3, 5, 7, 11, 13, 17, 19, 23, 29]);
}
