use rand::Rng;
use cplib::kmp::kmp;
use cplib::manacher::manacher;
use cplib::z_algorithm::z_algorithm;

#[test]
fn lib_handmade() {
    let len = kmp(b"abc abcd abc ");
    assert_eq!(len, vec![0, 0, 0, 0, 1, 2, 3, 0, 0, 1, 2, 3, 4]);

    let str = b"abcdabcaba";
    let lcp = vec![10, 0, 0, 0, 3, 0, 0, 2, 0, 1];
    assert_eq!(z_algorithm(str), lcp)
}

/// Longest proper border of `s[..=i]` by brute force.
fn brute_force_kmp(str: &[u8]) -> Vec<usize> {
    let mut res = Vec::with_capacity(str.len());
    for i in 0..str.len() {
        let x = (1..=i)
            .rfind(|&len| str[..len] == str[i - len + 1..=i])
            .unwrap_or(0);
        res.push(x);
    }
    res
}

fn brute_force_z(str: &[u8]) -> Vec<usize> {
    let mut lcp = Vec::with_capacity(str.len());
    for i in 0..str.len() {
        lcp.push(
            str.iter()
                .zip(str[i..].iter())
                .take_while(|(a, b)| a == b)
                .count(),
        );
    }
    lcp
}

#[test]
fn kmp_and_z_match_brute_force() {
    // deterministic pseudo-random strings over a small alphabet
    let mut state: u64 = 12345;
    for n in 0..80 {
        let s: Vec<u8> = (0..n)
            .map(|_| {
                state = state.wrapping_mul(6364136223846793005).wrapping_add(1442695040888963407);
                ((state >> 33) % 3) as u8
            })
            .collect();
        assert_eq!(kmp(&s), brute_force_kmp(&s));
        assert_eq!(z_algorithm(&s), brute_force_z(&s));
    }
}

#[test]
fn empty_strings() {
    assert_eq!(kmp::<u8>(&[]), Vec::<usize>::new());
    assert_eq!(z_algorithm::<u8>(&[]), Vec::<usize>::new());
}

#[test]
fn lib_random() {
    let mut rng = rand::rng();
    for n in 50..100 {
        let str = Vec::from_iter((0..n).map(|_| rng.random_range(0u8..4)));
        assert_eq!(kmp(&str), brute_force_kmp(&str))
    }
    for n in 400..600 {
        let str = Vec::from_iter((0..n).map(|_| rng.random_range(0u8..4)));
        assert_eq!(z_algorithm(&str), brute_force_z(&str))
    }
    for n in 400..600 {
        let s: Vec<u8> = (0..n).map(|_| rng.random_range(0..4)).collect();
        assert_eq!(manacher(&s), brute_force_manacher(&s))
    }
}

fn brute_force_manacher<T: Eq>(str: &[T]) -> Vec<usize> {
    let mut res = Vec::with_capacity(str.len() * 2);
    for i in 0..str.len() {
        let odd_r = (0..=i)
            .take_while(|r| str.get(i - r) == str.get(i + r))
            .count();
        res.push(odd_r * 2 - 1);

        let even_r = (0..=i)
            .take_while(|r| str.get(i - r) == str.get(i + r + 1))
            .count();
        res.push(even_r * 2);
    }
    res.pop();

    res
}

#[test]
fn manacher_handmade() {
    assert_eq!(manacher(b"abaaba"), vec![1, 0, 3, 0, 1, 6, 1, 0, 3, 0, 1]);
    assert_eq!(manacher(b"a"), vec![1]);
    assert_eq!(manacher::<u8>(&[]), Vec::<usize>::new());
    assert_eq!(manacher(b"aaaa"), vec![1, 2, 3, 4, 3, 2, 1]);
    assert_eq!(manacher(b"abc"), brute_force_manacher(b"abc"));
}

use cplib::suffix_automaton::{SuffixAutomaton, Transition};

#[derive(Clone, Default)]
struct ByteMap(Vec<(u8, usize)>);

impl Transition for ByteMap {
    type Char = u8;

    fn get(&self, c: u8) -> Option<usize> {
        self.0.iter().find(|(d, _)| *d == c).map(|(_, t)| *t)
    }

    fn set(&mut self, c: u8, target: usize) {
        match self.0.iter_mut().find(|(d, _)| *d == c) {
            Some(e) => e.1 = target,
            None => self.0.push((c, target)),
        }
    }

    fn iter(&self) -> Vec<(u8, usize)> {
        self.0.clone()
    }
}

#[test]
fn suffix_automaton_starts_from_the_root() {
    let _sa: SuffixAutomaton<ByteMap> = SuffixAutomaton::from_str(b"abcab");
    let mut m = ByteMap::default();
    m.set(b'a', 3);
    assert_eq!(m.get(b'a'), Some(3));
    assert_eq!(m.iter(), vec![(b'a', 3)]);
}

use cplib::suffix_array::suffix_array_brute_force;

#[test]
fn suffix_array_brute_force_example() {
    let str = [2usize, 1, 1, 3, 3, 1, 1, 3, 3, 1, 2, 1, 0];
    let mut sa = vec![0; str.len()];
    suffix_array_brute_force(&str, &mut sa);
    let mut expect: Vec<usize> = (0..str.len()).collect();
    expect.sort_by_key(|&i| &str[i..]);
    assert_eq!(sa, expect);
    assert_eq!(sa[0], 12);

    let text = b"banana";
    let mut sa = vec![0; text.len()];
    suffix_array_brute_force(&text[..], &mut sa);
    assert_eq!(sa, vec![5, 3, 1, 0, 4, 2]);
}
