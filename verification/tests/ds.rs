use rand::Rng;
use cplib::disjoint_sparse_table::DisjointSparseTable;
use cplib::fenwick::FenwickTree;
use cplib::ops::{Additive, Max, Min};
use cplib::rectangle::NDArray;
use cplib::rollback_union_find::RollbackUnionFind;
use cplib::sparse_table::SparseTable;
use cplib::union_find::UnionFind;
use cplib::union_find_with_potential::UnionFindWithPotential;

fn template(n: usize) {
    let value = Vec::from_iter(0..n as i32);
    let dst = DisjointSparseTable::<Additive<i32>>::from(value);

    for l in 0..n {
        for r in l..n {
            assert_eq!(
                dst.range_query(l..r + 1).unwrap() as usize,
                (l + r) * (r - l + 1) / 2,
                "{:?}",
                l..=r
            )
        }
    }
}

#[test]
fn pow_two() {
    for i in 5..10 {
        template(1 << i);
    }
}

#[test]
fn disjoint_sparse_table_odd_sizes_and_empty_ranges() {
    for n in [0usize, 1, 2, 3, 5, 7, 33, 100] {
        let value: Vec<u64> = (0..n as u64).map(|v| v * v + 1).collect();
        let dst = DisjointSparseTable::<Max<u64>>::from(value.clone());
        for l in 0..=n {
            assert_eq!(dst.range_query(l..l), None);
            for r in l + 1..=n {
                assert_eq!(dst.range_query(l..r), value[l..r].iter().copied().max());
            }
        }
    }
}

#[test]
fn sparse_table_matches_min() {
    let value: Vec<u32> = vec![5, 3, 8, 1, 9, 2, 7, 4, 6];
    let st = SparseTable::<Min<u32>>::from(value.clone());
    for l in 0..value.len() {
        assert_eq!(st.range_query(l..l), None);
        for r in l + 1..=value.len() {
            assert_eq!(st.range_query(l..r), value[l..r].iter().copied().min());
        }
    }
}

#[test]
fn fenwick_prefix_and_range() {
    let values: Vec<u64> = vec![3, 1, 4, 1, 5, 9, 2, 6, 5, 3, 5];
    let mut ft = FenwickTree::<Additive<u64>>::from(values.clone());
    for n in 0..=values.len() {
        assert_eq!(ft.prefix_query(n), values[..n].iter().sum::<u64>());
    }
    for l in 0..=values.len() {
        for r in l..=values.len() {
            assert_eq!(ft.range_query(l..r), values[l..r].iter().sum::<u64>());
        }
    }
    // the difference of prefixes when the range is reversed
    assert_eq!(ft.range_query(5..2), 0u64.wrapping_sub(4 + 1 + 5));

    let mut expected = values.clone();
    for (i, add) in [(0usize, 10u64), (4, 7), (10, 1), (7, 100)] {
        ft.point_update(i, add);
        expected[i] += add;
        for n in 0..=expected.len() {
            assert_eq!(ft.prefix_query(n), expected[..n].iter().sum::<u64>());
        }
    }

    let zero = FenwickTree::<Additive<i64>>::new(6);
    assert_eq!(zero.prefix_query(6), 0);
}

#[test]
fn union_find_merges_and_sizes() {
    let mut uf = UnionFind::<Additive<u32>>::with_values(vec![1, 2, 4, 8, 16]);
    assert!(uf.union(0, 1));
    assert!(uf.union(3, 4));
    assert!(!uf.union(1, 0));
    assert!(uf.same(0, 1));
    assert!(!uf.same(1, 3));
    assert_eq!(uf.size(1), 2);
    assert_eq!(uf.find_value(0), 3);
    assert_eq!(uf.find_value(4), 24);
    assert!(uf.union(0, 4));
    assert_eq!(uf.size(3), 4);
    assert_eq!(uf.find_value(1), 27);
    assert_eq!(uf.find_value(2), 4);
}

#[test]
fn potentials_follow_relations() {
    let mut uf = UnionFindWithPotential::<Additive<i64>>::new(5);
    // P(1) = P(0) + 3, P(2) = P(1) + 4
    assert_eq!(uf.union(1, 0, 3), Ok(true));
    assert_eq!(uf.union(2, 1, 4), Ok(true));
    assert_eq!(uf.potential(1, 0), Some(3));
    assert_eq!(uf.potential(0, 1), Some(-3));
    assert_eq!(uf.potential(2, 0), Some(7));
    assert_eq!(uf.potential(3, 0), None);
    assert_eq!(uf.union(2, 0, 7), Ok(false));
    assert_eq!(uf.union(2, 0, 8), Err(()));
    // P(4) = P(3) - 2, then join the two sets: P(3) = P(2) + 1
    assert_eq!(uf.union(4, 3, -2), Ok(true));
    assert_eq!(uf.union(3, 2, 1), Ok(true));
    assert_eq!(uf.potential(4, 0), Some(6));
    assert_eq!(uf.potential(0, 4), Some(-6));
    assert!(uf.same(0, 4));
    assert_eq!(uf.size(4), 5);
    assert_eq!(uf.find(4), uf.find(0));
}

#[test]
fn rollback_example() {
    let mut ruf = RollbackUnionFind::<()>::new(3);

    assert!(ruf.merge(0, 1)); // (0) + (1) + (2) -> (0, 1) + (2)
    let key_oox = ruf.get_key();
    assert!(ruf.merge(0, 2)); // (0, 1) + (2) -> (0, 1, 2)
    let key_ooo = ruf.get_key();

    // rollback to (0, 1) + (2)
    ruf.rollback(&key_oox);
    assert!(key_oox.is_valid(&ruf) && !key_ooo.is_valid(&ruf));
    assert!(ruf.same(0, 1) && !ruf.same(1, 2));
}

#[test]
fn rollback_undo_restores_leaders() {
    let mut ruf = RollbackUnionFind::<Additive<u32>>::with_values(vec![1, 2, 3, 4]);
    let initial = ruf.leaders();
    assert!(ruf.merge(0, 1));
    assert!(ruf.merge(2, 3));
    assert!(!ruf.merge(3, 2));
    assert_eq!(ruf.size_value(3), (2, 7));
    let two = ruf.leaders();
    assert!(ruf.merge(1, 3));
    assert_eq!(ruf.size_value(0), (4, 10));
    ruf.undo();
    assert_eq!(ruf.leaders(), two);
    ruf.undo();
    ruf.undo();
    assert_eq!(ruf.leaders(), initial);
    ruf.undo();
    assert_eq!(ruf.leaders(), initial);
}

#[test]
fn ndarray_repeat_fill_index() {
    let mut a = NDArray::<u32, 3>::repeat([2, 3, 4], 7);
    assert_eq!(*a.index([1, 2, 3]), 7);
    *a.index_mut([1, 0, 2]) = 5;
    assert_eq!(*a.index([1, 0, 2]), 5);
    assert_eq!(*a.index([0, 0, 2]), 7);
    a.fill(9);
    assert_eq!(*a.index([1, 0, 2]), 9);
}

use cplib::segtree::Segtree;

#[test]
fn partition_left() {
    let n = 300;
    let segtree = Segtree::<Additive<u32>>::from(vec![1; n]);
    for r in 0..n {
        for sum in 0..=r as u32 {
            let l = segtree.partition_left(r, |v| v <= sum);
            assert_eq!(l, r - sum as usize);
            assert!((l..r).all(|l| segtree.range_query(l..r) <= sum));
            assert!((0..l).all(|l| segtree.range_query(l..r) > sum));
        }
    }
}

#[test]
fn segtree_partition_right_and_updates() {
    let values = vec![3u32, 1, 4, 1, 5, 9, 2, 6, 5];
    let mut seg = Segtree::<Additive<u32>>::from(values.clone());
    assert_eq!(seg.range_full_query(), 36);
    assert_eq!(seg.range_query(2..5), 10);
    assert_eq!(seg.range_query(4..4), 0);
    assert_eq!(seg.range_query(0..9), 36);
    // prefix sums from 0: 3 4 8 9 14 23 25 31 36
    assert_eq!(seg.partition_right(0, |v| v <= 9), 4);
    assert_eq!(seg.partition_right(0, |v| v <= 100), 9);
    assert_eq!(seg.partition_right(0, |v| v <= 2), 0);
    assert_eq!(seg.partition_right(5, |v| v <= 17), 8);
    assert_eq!(seg.partition_right(9, |v| v <= 0), 9);
    seg.point_update_with(5, |v| v - 9);
    assert_eq!(seg.range_full_query(), 27);
    assert_eq!(seg.range_query(4..7), 7);
    assert_eq!(seg.partition_left(9, |v| v <= 13), 5);
    assert_eq!(seg.partition_left(0, |v| v <= 0), 0);

    let mins = Segtree::<Min<u32>>::from(vec![5, 3, 8, 6, 2, 7, 4, 1]);
    assert_eq!(mins.range_query(0..4), 3);
    assert_eq!(mins.range_query(5..8), 1);
    assert_eq!(mins.range_full_query(), 1);
    assert_eq!(mins.partition_right(0, |v| v >= 3), 4);
    assert_eq!(mins.partition_left(8, |v| v >= 4), 8);
    assert_eq!(mins.partition_left(7, |v| v >= 4), 5);

    let single = Segtree::<Additive<u32>>::from(vec![7]);
    assert_eq!(single.partition_right(0, |v| v <= 3), 0);
    assert_eq!(single.partition_right(0, |v| v <= 7), 1);
    assert_eq!(single.partition_left(1, |v| v <= 3), 1);
    assert_eq!(single.partition_left(1, |v| v <= 7), 0);
}

#[test]
fn segtree_matches_brute_force() {
    for n in 1..40usize {
        let values: Vec<u32> = (0..n as u32).map(|i| (i * 7 + 3) % 11).collect();
        let seg = Segtree::<Additive<u32>>::from(values.clone());
        for l in 0..=n {
            for r in l..=n {
                assert_eq!(seg.range_query(l..r), values[l..r].iter().sum::<u32>());
            }
        }
        for l in 0..=n {
            for cap in [0u32, 5, 20, 1000] {
                let got = seg.partition_right(l, |v| v <= cap);
                let mut want = l;
                while want < n && values[l..want + 1].iter().sum::<u32>() <= cap {
                    want += 1;
                }
                assert_eq!(got, want, "{} {} {}", n, l, cap);
            }
        }
        for r in 0..=n {
            for cap in [0u32, 5, 20, 1000] {
                let got = seg.partition_left(r, |v| v <= cap);
                let mut want = r;
                while want > 0 && values[want - 1..r].iter().sum::<u32>() <= cap {
                    want -= 1;
                }
                assert_eq!(got, want, "{} {} {}", n, r, cap);
            }
        }
    }
}

#[test]
fn dst_random() {
    let mut rng = rand::rng();
    for _ in 0..10 {
        template(rng.random_range(1 << 5..1 << 10));
    }
}

#[test]
fn undo_random() {
    let mut rng = rand::rng();
    let mut test_once = |n: usize, q: usize, p: f64| {
        let mut dsu = RollbackUnionFind::<()>::new(n);
        let mut stack = Vec::with_capacity(q);
        for _ in 0..q {
            match rng.random_bool(p) {
                true => {
                    dsu.undo();
                    stack.pop();
                }
                false => {
                    let (x, y) = (rng.random_range(..n), rng.random_range(..n));
                    if dsu.merge(x, y) {
                        stack.push((x, y));
                    }
                }
            }

            let l = dsu.leaders();

            let mut dsu2 = RollbackUnionFind::<()>::new(n);
            stack.iter().for_each(|(x, y)| {
                dsu2.merge(*x, *y);
            });
            let l2 = dsu2.leaders();

            assert_eq!(l, l2, "{:?}", &stack);
        }
    };

    let n = 1 << 8;
    let q = 1 << 10;
    for p in rand::rng().random_iter::<u8>().take(100) {
        test_once(n, q, p as f64 / u8::MAX as f64);
    }
}

#[test]
fn rollback_to_key_before_any_merge() {
    let mut ruf = RollbackUnionFind::<()>::new(3);
    let start = ruf.get_key();
    assert!(start.is_valid(&ruf));
    assert!(ruf.merge(0, 1));
    assert!(ruf.merge(1, 2));
    let all = ruf.get_key();
    ruf.rollback(&start);
    assert!(start.is_valid(&ruf));
    assert!(!all.is_valid(&ruf));
    assert!(!ruf.same(0, 1) && !ruf.same(1, 2));
    assert!(ruf.merge(0, 2));
    assert!(!all.is_valid(&ruf));
}

#[test]
fn fenwick_partition_point() {
    let prefix_sum = FenwickTree::<Additive<u32>>::from((0..10).collect::<Vec<u32>>());

    let a = 0 + 1 + 2 + 3 + 4;
    let (i, sum) = prefix_sum.partition_point(|v: &u32| *v <= a);
    assert_eq!(i, 5);
    assert_eq!(sum, 0 + 1 + 2 + 3 + 4);

    let (i, sum) = prefix_sum.partition_point(|v: &u32| *v < 1_000_000);
    assert_eq!(i, 10);
    assert_eq!(sum, 45);

    let (i, sum) = prefix_sum.partition_point(|v: &u32| *v < 1);
    assert_eq!(i, 1);
    assert_eq!(sum, 0);

    let ones = FenwickTree::<Additive<u32>>::from(vec![1; 7]);
    for k in 0..=7u32 {
        assert_eq!(ones.partition_point(|v: &u32| *v <= k), (k as usize, k));
    }
}

#[test]
fn fenwick_update_moves_covering_prefixes() {
    let mut ft = FenwickTree::<Additive<u32>>::from(vec![1, 2, 3, 4, 5]);
    let before: Vec<u32> = (0..=5).map(|n| ft.prefix_query(n)).collect();
    ft.point_update(2, 10);
    for n in 0..=5 {
        let expected = if n > 2 { before[n] + 10 } else { before[n] };
        assert_eq!(ft.prefix_query(n), expected);
    }
}
