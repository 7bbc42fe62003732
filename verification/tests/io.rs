use rand::Rng;
use cplib::from_bytes::FromBytes;
use cplib::input::FastInput;
use cplib::output::IntBuffer;

#[test]
fn empty() {
    assert_eq!(u64::from_bytes(b"").ok(), None)
}

#[test]
fn overflow() {
    assert!(u64::from_bytes("1".repeat(1000).as_bytes()).is_err());
    assert!(i64::from_bytes("1".repeat(1000).as_bytes()).is_err());
}

#[test]
fn min_max() {
    let s = i8::MAX.to_string();
    assert_eq!(i8::from_bytes(s.as_bytes()).ok(), Some(i8::MAX));
    let s = i8::MIN.to_string();
    assert_eq!(i8::from_bytes(s.as_bytes()).ok(), Some(i8::MIN));
    let s = u8::MAX.to_string();
    assert_eq!(u8::from_bytes(s.as_bytes()).ok(), Some(u8::MAX));
    let s = u8::MIN.to_string();
    assert_eq!(u8::from_bytes(s.as_bytes()).ok(), Some(u8::MIN));
    let s = i16::MAX.to_string();
    assert_eq!(i16::from_bytes(s.as_bytes()).ok(), Some(i16::MAX));
    let s = i16::MIN.to_string();
    assert_eq!(i16::from_bytes(s.as_bytes()).ok(), Some(i16::MIN));
    let s = u16::MAX.to_string();
    assert_eq!(u16::from_bytes(s.as_bytes()).ok(), Some(u16::MAX));
    let s = u16::MIN.to_string();
    assert_eq!(u16::from_bytes(s.as_bytes()).ok(), Some(u16::MIN));
    let s = i32::MAX.to_string();
    assert_eq!(i32::from_bytes(s.as_bytes()).ok(), Some(i32::MAX));
    let s = i32::MIN.to_string();
    assert_eq!(i32::from_bytes(s.as_bytes()).ok(), Some(i32::MIN));
    let s = u32::MAX.to_string();
    assert_eq!(u32::from_bytes(s.as_bytes()).ok(), Some(u32::MAX));
    let s = u32::MIN.to_string();
    assert_eq!(u32::from_bytes(s.as_bytes()).ok(), Some(u32::MIN));
    let s = i64::MAX.to_string();
    assert_eq!(i64::from_bytes(s.as_bytes()).ok(), Some(i64::MAX));
    let s = i64::MIN.to_string();
    assert_eq!(i64::from_bytes(s.as_bytes()).ok(), Some(i64::MIN));
    let s = u64::MAX.to_string();
    assert_eq!(u64::from_bytes(s.as_bytes()).ok(), Some(u64::MAX));
    let s = u64::MIN.to_string();
    assert_eq!(u64::from_bytes(s.as_bytes()).ok(), Some(u64::MIN));
    let s = i128::MAX.to_string();
    assert_eq!(i128::from_bytes(s.as_bytes()).ok(), Some(i128::MAX));
    let s = i128::MIN.to_string();
    assert_eq!(i128::from_bytes(s.as_bytes()).ok(), Some(i128::MIN));
    let s = u128::MAX.to_string();
    assert_eq!(u128::from_bytes(s.as_bytes()).ok(), Some(u128::MAX));
    let s = u128::MIN.to_string();
    assert_eq!(u128::from_bytes(s.as_bytes()).ok(), Some(u128::MIN));
    let s = isize::MAX.to_string();
    assert_eq!(isize::from_bytes(s.as_bytes()).ok(), Some(isize::MAX));
    let s = isize::MIN.to_string();
    assert_eq!(isize::from_bytes(s.as_bytes()).ok(), Some(isize::MIN));
    let s = usize::MAX.to_string();
    assert_eq!(usize::from_bytes(s.as_bytes()).ok(), Some(usize::MAX));
    let s = usize::MIN.to_string();
    assert_eq!(usize::from_bytes(s.as_bytes()).ok(), Some(usize::MIN));
}

#[test]
fn sign_and_garbage() {
    assert_eq!(u64::from_bytes(b"+42").ok(), Some(42));
    assert_eq!(i64::from_bytes(b"-0").ok(), Some(0));
    assert_eq!(i64::from_bytes(b"+-1").ok(), None);
    assert_eq!(u8::from_bytes(b"256").ok(), None);
    assert_eq!(u8::from_bytes(b"0000255").ok(), Some(255));
    assert_eq!(i8::from_bytes(b"-129").ok(), None);
    assert_eq!(u32::from_bytes(b"12a").ok(), None);
    assert_eq!(u32::from_bytes(b"-1").ok(), None);
    assert_eq!(u32::from_bytes(b"+").ok(), None);
}

#[test]
fn extract_bytes() {
    let lorem_ipsum = br"
        Lorem ipsum dolor sit amet, consectetur adipiscing elit, sed do eiusmod tempor incididunt ut labore et dolore magna aliqua. Ut enim ad minim veniam, quis nostrud exercitation
        ullamco laboris nisi ut aliquip ex ea commodo consequat. Duis aute irure dolor in
        reprehenderit in voluptate velit esse cillum dolore eu fugiat nulla pariatur. Excepteur
        sint occaecat cupidatat non proident, sunt in culpa qui officia deserunt mollit anim id est
        laborum.";

    let mut input = FastInput::new(&lorem_ipsum[..]);

    let mut buf = Vec::new();
    for token in lorem_ipsum
        .split(|b| b.is_ascii_whitespace())
        .filter(|v| !v.is_empty())
    {
        input.next_bytes(&mut buf).unwrap();
        assert_eq!(buf, token);

        buf.clear();
    }
    assert!({
        input.next_bytes(&mut buf).unwrap();
        buf.is_empty()
    });
}

#[test]
fn extract_token() {
    let mut input = FastInput::new(
        &br"1 2
11 22
1000000000000000000 1000000000000000000"[..],
    );

    let num: Vec<u64> = std::iter::from_fn(|| input.next_token()).collect();
    assert_eq!(
        num,
        vec![1, 2, 11, 22, 1000000000000000000, 1000000000000000000]
    );
    assert!(input.next_token::<u64>().is_none());
}

#[test]
fn lib_vec() {
    let mut input = FastInput::new(&b"1 2"[..]);
    let x = (0..2).map(|_| input.next_token::<u8>().unwrap()).collect::<Vec<_>>();
    assert_eq!(x, vec![1, 2]);
}

#[test]
fn lib_vec_with_runtime_specified_len() {
    let mut input = FastInput::new(&b"3 1 2 3"[..]);
    let n = input.next_token::<u8>().unwrap();
    let x = (0..n).map(|_| input.next_token::<u8>().unwrap()).collect::<Vec<_>>();
    assert_eq!(x, vec![1, 2, 3]);
}

#[test]
fn lib_nested_vec1() {
    let mut input = FastInput::new(&b"1 2 3 4"[..]);
    let x = (0..2)
        .map(|_| (0..2).map(|_| input.next_token::<u8>().unwrap()).collect::<Vec<_>>())
        .collect::<Vec<_>>();
    assert_eq!(x, vec![vec![1, 2], vec![3, 4]]);
}

#[test]
fn lib_nested_vec2() {
    let mut input = FastInput::new(&b"1 2 3 4 5 6 7 8"[..]);
    let x = (0..2)
        .map(|_| {
            (0..2)
                .map(|_| (0..2).map(|_| input.next_token::<u8>().unwrap()).collect::<Vec<_>>())
                .collect::<Vec<_>>()
        })
        .collect::<Vec<_>>();
    assert_eq!(
        x,
        vec![vec![vec![1, 2], vec![3, 4]], vec![vec![5, 6], vec![7, 8]]]
    );
}

#[test]
fn lib_tuple() {
    let mut input = FastInput::new(&b"1 2"[..]);
    let x = (input.next_token::<u8>().unwrap(), input.next_token::<u8>().unwrap());
    assert_eq!(x, (1, 2));
}

#[test]
fn lib_nested_tuple1() {
    let mut input = FastInput::new(&b"1 2 3"[..]);
    let a = input.next_token::<u8>().unwrap();
    let b = input.next_token::<u8>().unwrap();
    let c = input.next_token::<u8>().unwrap();
    let x = (a, (b, c));
    assert_eq!(x, (1, (2, 3)));
}

#[test]
fn lib_nested_tuple2() {
    let mut input = FastInput::new(&b"1 2 3"[..]);
    let a = input.next_token::<u8>().unwrap();
    let b = input.next_token::<u8>().unwrap();
    let c = input.next_token::<u8>().unwrap();
    let x = ((a, b), c);
    assert_eq!(x, ((1, 2), 3));
}

#[test]
fn lib_nested_tuple3() {
    let mut input = FastInput::new(&b"1 2 3 4 5 6"[..]);
    let mut v = Vec::new();
    for _ in 0..6 {
        v.push(input.next_token::<u8>().unwrap());
    }
    let x = (((v[0], v[1]), v[2], (v[3],)), (v[4], v[5]));
    assert_eq!(x, (((1, 2), 3, (4,)), (5, 6)));
}

#[test]
fn lib_tuple_in_vec() {
    let mut input = FastInput::new(&b"1 2 3 4"[..]);
    let x = (0..2)
        .map(|_| (input.next_token::<u8>().unwrap(), input.next_token::<u8>().unwrap()))
        .collect::<Vec<_>>();
    assert_eq!(x, vec![(1, 2), (3, 4)])
}

#[test]
fn lib_vec_in_tuple() {
    let mut input = FastInput::new(&b"1 2 3 4 5"[..]);
    let a = input.next_token_vec::<u8>(2).unwrap();
    let b = input.next_token_vec::<u8>(3).unwrap();
    let x = (a, b);
    assert_eq!(x, (vec![1, 2], vec![3, 4, 5]))
}

#[test]
fn lib_bytes() {
    let mut input = FastInput::new(&b"abcde"[..]);
    let mut x = Vec::new();
    input.next_bytes(&mut x).unwrap();
    assert_eq!(x, b"abcde")
}

#[test]
fn lib_bytes_with_capacity() {
    let mut input = FastInput::new(&b"5 abcde"[..]);
    let n = input.next_token::<u8>().unwrap();
    let mut x = Vec::with_capacity(n as usize);
    input.next_bytes(&mut x).unwrap();
    assert_eq!(x, b"abcde")
}

#[test]
fn lib_string() {
    let mut input = FastInput::new(&b"abcde"[..]);
    let mut bytes = Vec::new();
    input.next_bytes(&mut bytes).unwrap();
    let x = String::from_utf8(bytes).unwrap();
    assert_eq!(x, "abcde".to_string())
}

#[test]
fn lib_single() {
    let mut input = FastInput::new(&b"1"[..]);
    let x = input.next_token::<u8>().unwrap();
    assert_eq!(x, 1)
}

#[test]
fn lib_mutability() {
    let mut input = FastInput::new(&b"1 2"[..]);
    let mut x = input.next_token::<u8>().unwrap();
    let y = input.next_token::<u8>().unwrap();
    x += 1;
    assert_eq!(x, y)
}

#[test]
fn lib_multiple_variables() {
    let mut input = FastInput::new(&b"1 2 3 4 5 6 "[..]);
    let x = (input.next_token::<u8>().unwrap(), input.next_token::<u8>().unwrap());
    let y = input.next_token::<u8>().unwrap();
    let z = (0..y).map(|_| input.next_token::<u8>().unwrap()).collect::<Vec<_>>();

    assert_eq!(x, (1, 2));
    assert_eq!(y, 3);
    assert_eq!(z, vec![4, 5, 6])
}

#[test]
fn token_vec_failure() {
    let mut input = FastInput::new(&b"1 x 3"[..]);
    assert_eq!(input.next_token_vec::<u32>(3), None);
    let mut input = FastInput::new(&b"  7\t8\n"[..]);
    assert_eq!(input.next_token_vec::<u32>(2), Some(vec![7, 8]));
    assert_eq!(input.next_token::<u32>(), None);
}

#[test]
fn signed() {
    let mut buf = IntBuffer::new();

    assert_eq!(buf.format(-00i8), "0");
    assert_eq!(buf.format(-1i8), "-1");
    assert_eq!(buf.format(i32::MIN), i32::MIN.to_string().as_str());
    assert_eq!(buf.format(i32::MAX), i32::MAX.to_string().as_str());
}

#[test]
fn iter() {
    let mut buf = IntBuffer::new();
    let mut output = Vec::new();

    buf.write_iter(&mut output, (-5..=5).collect::<Vec<i32>>(), " ").unwrap();
    assert_eq!(output, b"-5 -4 -3 -2 -1 0 1 2 3 4 5")
}

#[test]
fn unsigned_format() {
    let mut buf = IntBuffer::new();
    assert_eq!(buf.format(0u64), "0");
    assert_eq!(buf.format(u64::MAX), "18446744073709551615");
    assert_eq!(buf.format(1000u16), "1000");
}

#[test]
fn from_bytes_random() {
    let mut rng = rand::rng();
    for _ in 0..1 << 20 {
        let n: u64 = rng.random();
        let s = n.to_string().clone();
        assert_eq!(u64::from_bytes(s.as_bytes()).ok(), Some(n))
    }
}

use cplib::reader::FastBufReader;

/// Drives the token buffer over `input`, handing it at most `chunk` bytes per read.
fn tokens_by_chunks<const N: usize>(input: &[u8], chunk: usize, count: usize) -> Vec<Vec<u8>> {
    let mut core = FastBufReader::<N>::new();
    let mut pos = 0;
    let mut fill = |core: &mut FastBufReader<N>| -> usize {
        core.compact();
        let room = core.spare_len();
        let n = room.min(chunk).min(input.len() - pos);
        core.accept(&input[pos..pos + n]);
        pos += n;
        n
    };
    let mut out = Vec::new();
    for _ in 0..count {
        core.skip_until_ascii_whitespace();
        if core.wants_refill() {
            fill(&mut core);
            core.skip_until_ascii_whitespace();
        }
        let mut tok = Vec::new();
        loop {
            if core.take_token(&mut tok) {
                break;
            }
            if fill(&mut core) == 0 {
                break;
            }
        }
        out.push(tok);
    }
    out
}

#[test]
fn token_buffer_cuts_tokens() {
    let input = b"12 345\r\n6789\n  abc\n";
    let expect: Vec<Vec<u8>> = vec![b"12".to_vec(), b"345".to_vec(), b"6789".to_vec(), b"abc".to_vec()];
    assert_eq!(tokens_by_chunks::<64>(input, 64, 4), expect);
    assert_eq!(tokens_by_chunks::<64>(input, 5, 4), expect);
    assert_eq!(tokens_by_chunks::<8>(input, 3, 4), expect);
}

#[test]
fn token_buffer_long_tokens_and_end_of_input() {
    let long: Vec<u8> = (0..1000).map(|i| b'a' + (i % 26) as u8).collect();
    let mut input = long.clone();
    input.push(b' ');
    input.extend_from_slice(b"tail");
    let toks = tokens_by_chunks::<16>(&input, 7, 2);
    assert_eq!(toks[0], long);
    assert_eq!(toks[1], b"tail".to_vec());
    assert_eq!(u64::from_bytes(b"tail").ok(), None);
}

#[test]
fn skip_stops_at_first_non_whitespace() {
    let mut core = FastBufReader::<16>::new();
    core.accept(b" \t\n\x0c\r12 3");
    let spare = core.spare_len();
    core.skip_until_ascii_whitespace();
    assert_eq!(core.spare_len(), spare);
    let mut tok = Vec::new();
    assert!(core.take_token(&mut tok));
    assert_eq!(tok, b"12");
    core.skip_until_ascii_whitespace();
    let mut tok = Vec::new();
    assert!(!core.take_token(&mut tok));
    assert_eq!(tok, b"3");
}

#[test]
fn format_through_references() {
    let mut buf = IntBuffer::new();
    let x: i64 = -1234;
    assert_eq!(buf.format(&x), "-1234");
    let mut y: u32 = 987;
    assert_eq!(buf.format(&mut y), "987");
    let mut out = Vec::new();
    let v = vec![1u8, 20, 255];
    let refs: Vec<&u8> = v.iter().collect();
    assert!(buf.write_iter(&mut out, refs, ", ").is_ok());
    assert_eq!(out, b"1, 20, 255");
}
