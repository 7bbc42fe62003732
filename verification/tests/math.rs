use cplib::min_prime_factor::MinPrimeFactor;

fn naive_sieve(n: usize) -> Vec<u32> {
    // least prime factor by a plain sieve; 0 for 0 and 1
    let mut lpf = vec![0u32; n];
    for i in 2..n {
        if lpf[i] == 0 {
            let mut j = i;
            while j < n {
                if lpf[j] == 0 {
                    lpf[j] = i as u32;
                }
                j += i;
            }
        }
    }
    lpf
}

#[test]
fn min_prime_factor_small() {
    let mpf = MinPrimeFactor::new(100);
    assert!(mpf.is_prime(2) && mpf.is_prime(3) && mpf.is_prime(5) && mpf.is_prime(7));
    assert!(mpf.is_prime(97));
    assert!(!mpf.is_prime(91));
    assert!(!mpf.is_prime(1));
    assert!(!mpf.is_prime(0));
    assert!(!mpf.is_prime(49));
    assert!(!mpf.is_prime(4));
    assert_eq!(mpf.factorize(360), vec![(2, 3), (3, 2), (5, 1)]);
    assert_eq!(mpf.factorize(1), vec![]);
    assert_eq!(mpf.factorize(97), vec![(97, 1)]);
    assert_eq!(MinPrimeFactor::new(1000).factorize(637), vec![(7, 2), (13, 1)]);
    // only the part coprime to 30 needs the table
    assert_eq!(mpf.factorize(1 << 31), vec![(2, 31)]);
}

#[test]
fn min_prime_factor_matches_a_plain_sieve_across_chunks() {
    let n = 100_000usize;
    let mpf = MinPrimeFactor::new(n as u32);
    let lpf = naive_sieve(n);
    for v in 0..n {
        assert_eq!(mpf.is_prime(v as u32), v >= 2 && lpf[v] == v as u32, "{}", v);
    }
    for v in (1..n).step_by(97) {
        let f = mpf.factorize(v as u32);
        let mut prod: u64 = 1;
        for &(p, e) in f.iter() {
            assert_eq!(lpf[p as usize], p);
            prod *= (p as u64).pow(e as u32);
        }
        assert_eq!(prod, v as u64);
        if v > 1 {
            assert_eq!(f[0].0, lpf[v]);
        }
    }
}

#[test]
fn min_prime_factor_edge_bounds() {
    let mpf = MinPrimeFactor::new(0);
    assert!(mpf.is_prime(29));
    assert!(!mpf.is_prime(25));
    let mpf = MinPrimeFactor::new(31);
    assert!(mpf.is_prime(31));
    assert!(mpf.is_prime(59));
}

use cplib::factorial::Factorial;

#[test]
fn binomials_modulo_a_prime() {
    let f = Factorial::<998_244_353>::with_inverse(100_000);
    assert_eq!(f.binom(5, 2).value(), 10);
    assert_eq!(f.binom(10, 3).value(), 120);
    assert_eq!(f.binom(10, 0).value(), 1);
    assert_eq!(f.binom(10, 10).value(), 1);
    assert_eq!(f.binom(2, 5).value(), 0);
    assert_eq!(f.binom(100_000, 50_000).value(), 710_154_335);
}

#[test]
fn binomials_modulo_a_small_prime() {
    let f = Factorial::<7>::with_inverse(6);
    assert_eq!(f.binom(6, 3).value(), 6);
    for n in 0..=6usize {
        let mut row = vec![1u64];
        for k in 1..=n {
            row.push(row[k - 1] * (n + 1 - k) as u64 / k as u64);
        }
        for k in 0..=n {
            assert_eq!(f.binom(n, k).value() as u64, row[k] % 7);
        }
    }
}

use cplib::floor_sum::floor_sum;

fn floor_sum_naive(n: i64, m: i64, a: i64, b: i64) -> i64 {
    let mut s: i128 = 0;
    for i in 0..n as i128 {
        let x = a as i128 * i + b as i128;
        let q = if m > 0 { x.div_euclid(m as i128) } else { (-x).div_euclid(-(m as i128)) };
        s += q;
    }
    s as i64
}

#[test]
fn floor_sum_small_cases() {
    assert_eq!(floor_sum(4, 10, 6, 3), 3);
    assert_eq!(floor_sum(6, 5, 4, 3), 13);
    assert_eq!(floor_sum(1, 1, 0, 0), 0);
    assert_eq!(floor_sum(31415, 92653, 58979, 32384), 314095480);
    assert_eq!(floor_sum(1000000000, 1000000000, 999999999, 999999999), 499999999500000000);
    assert_eq!(floor_sum(0, 7, 3, 5), 0);
    assert_eq!(floor_sum(3, -2, 1, 0), -2);
}

#[test]
fn floor_sum_matches_naive() {
    let mut state: u64 = 7;
    let mut next = |r: i64| {
        state = state.wrapping_mul(6364136223846793005).wrapping_add(1442695040888963407);
        ((state >> 33) as i64).rem_euclid(2 * r + 1) - r
    };
    for _ in 0..3000 {
        let n = next(20).abs();
        let mut m = next(30);
        if m == 0 {
            m = 1;
        }
        let a = next(100);
        let b = next(100);
        assert_eq!(floor_sum(n, m, a, b), floor_sum_naive(n, m, a, b), "{} {} {} {}", n, m, a, b);
    }
}

#[test]
fn floor_sum_large_modulus() {
    assert_eq!(floor_sum(1, 1 << 40, 0, 5), 0);
    assert_eq!(floor_sum(4, 3, 2, 1), 4);
    assert_eq!(floor_sum(1, -2, 0, 1), -1);
    assert_eq!(floor_sum(3, i64::MAX, i64::MAX, 0), 3);
    assert_eq!(floor_sum(2, i64::MIN, 1, 0), -1);
}
