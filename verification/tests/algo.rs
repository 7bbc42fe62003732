use cplib::compress::compress;

#[test]
fn compress_ranks_distinct_values() {
    let (c, r) = compress::<0>(&[5, 3, 5, 10]);
    assert_eq!(c, vec![1, 0, 1, 2]);
    assert_eq!(r, vec![3, 5, 10]);
}

#[test]
fn compress_with_offset_and_large_values() {
    let text = [u32::MAX, 0, 0x0100_0000, 0xff, u32::MAX, 0x100];
    let (c, r) = compress::<1>(&text);
    assert_eq!(c, vec![5, 1, 4, 2, 5, 3]);
    assert_eq!(r, vec![0, 0xff, 0x100, 0x0100_0000, u32::MAX]);
    for (i, &v) in text.iter().enumerate() {
        assert_eq!(r[(c[i] - 1) as usize], v);
    }
}

#[test]
fn compress_empty_and_single() {
    let (c, r) = compress::<7>(&[]);
    assert!(c.is_empty() && r.is_empty());
    let (c, r) = compress::<7>(&[42, 42, 42]);
    assert_eq!(c, vec![7, 7, 7]);
    assert_eq!(r, vec![42]);
}

use cplib::hilbert_sort::{hilbert_sort_2d, Query};

#[test]
fn hilbert_8x8() {
    let mut vec = Vec::with_capacity(8 * 8);
    for x in 0..8 {
        for y in 0..8 {
            vec.push(Query { x, y, data: () });
        }
    }

    hilbert_sort_2d::<u32, ()>(&mut vec);

    let mut order = [[!0; 8]; 8];
    for (i, q) in vec.into_iter().enumerate() {
        order[q.y as usize][q.x as usize] = i;
    }

    for row in order {
        println!("{:?}", row)
    }
}

#[test]
fn hilbert_walk_moves_one_step_at_a_time() {
    for size in [1u64, 2, 4, 8, 16, 32] {
        let mut vec = Vec::new();
        for x in 0..size {
            for y in 0..size {
                vec.push(Query { x: x as u64, y: y as u64, data: (x, y) });
            }
        }
        hilbert_sort_2d::<u64, (u64, u64)>(&mut vec);
        assert_eq!(vec.len() as u64, size * size);
        for q in &vec {
            assert_eq!((q.x, q.y), q.data);
        }
        for w in vec.windows(2) {
            let d = w[0].x.abs_diff(w[1].x) + w[0].y.abs_diff(w[1].y);
            assert_eq!(d, 1);
        }
        let mut seen: Vec<(u64, u64)> = vec.iter().map(|q| q.data).collect();
        seen.sort();
        seen.dedup();
        assert_eq!(seen.len() as u64, size * size);
    }
}

#[test]
fn hilbert_small_types_and_duplicates() {
    let mut v: Vec<Query<u8, usize>> = [(3u8, 0u8), (0, 0), (3, 0), (1, 1), (0, 0)]
        .iter()
        .enumerate()
        .map(|(i, &(x, y))| Query { x, y, data: i })
        .collect();
    hilbert_sort_2d(&mut v);
    let pts: Vec<(u8, u8)> = v.iter().map(|q| (q.x, q.y)).collect();
    assert_eq!(pts, vec![(0, 0), (0, 0), (1, 1), (3, 0), (3, 0)]);
}

use cplib::radix_sort::RadixSort;

#[test]
fn radix_sort_matches_std_sort() {
    let mut state: u64 = 99;
    for n in [0usize, 1, 2, 7, 100, 1000] {
        let mut v: Vec<u32> = (0..n)
            .map(|_| {
                state = state.wrapping_mul(6364136223846793005).wrapping_add(1442695040888963407);
                (state >> 32) as u32 >> (state % 29)
            })
            .collect();
        let mut expect = v.clone();
        expect.sort();
        v.as_mut_slice().radix_sort();
        assert_eq!(v, expect);
    }
    let mut w = vec![3u32, u32::MAX, 0, 3, 256, 255];
    w.as_mut_slice().radix_sort();
    assert_eq!(w, vec![0, 3, 3, 255, 256, u32::MAX]);
}

#[test]
fn radix_sort_narrow_types() {
    let mut a: Vec<u16> = vec![500, 3, u16::MAX, 0, 3, 256, 255];
    a.as_mut_slice().radix_sort();
    assert_eq!(a, vec![0, 3, 3, 255, 256, 500, u16::MAX]);
    let mut b: Vec<u8> = vec![9, 200, 0, 9, 255, 1];
    b.as_mut_slice().radix_sort();
    assert_eq!(b, vec![0, 1, 9, 9, 200, 255]);
    let mut e: Vec<u8> = Vec::new();
    e.as_mut_slice().radix_sort();
    assert!(e.is_empty());
}
