use stream::buf::Buf;
use stream::io::BytesReader;
use stream::io::SmallByteReader;
use stream::io::VecSink;

fn read_all_small(b: &mut Buf, expect: &[u8]) {
    // pull in small, varying steps, as a slow consumer would
    let mut data: Vec<u8> = Vec::new();
    let mut n: usize = 0;
    loop {
        n = (n % 3) + 1;
        let part = b.read(n);
        if part.is_empty() {
            break;
        }
        data.extend_from_slice(&part);
    }
    assert_eq!(data, expect);
}

#[test]
fn test_buf_read() {
    const N: usize = 4096;
    const CONTENT: &str = "hello, world!";
    let mut b = Buf::new(N);
    b.write(CONTENT.as_bytes(), 0);
    let zero = b.read(0);
    assert_eq!(zero.len(), 0);
    read_all_small(&mut b, CONTENT.as_bytes());
    assert_eq!(b.read(10).len(), 0);
}

#[test]
fn test_buf_read_from_write_to() {
    const N: usize = 4096;
    let mut b = Buf::from_elem(42u8, N);

    let src = vec![42u8; N];
    let mut rd = BytesReader::new(src.clone());
    let nr = b.read_from(&mut rd).unwrap();
    assert_eq!(nr, N);
    assert_eq!(b.remaining_slice(), src);

    let mut sink = VecSink::new();
    let nw = b.write_to(&mut sink).unwrap();
    assert_eq!(nw, N);
    assert_eq!(sink.len(), N);
}

#[test]
fn test_buf_truncate_and_reset() {
    let mut b = Buf::new(8);
    let took = b.write(&[1, 2, 3, 4, 5], 0);
    assert_eq!(took, 5);
    b.truncate(3);
    assert_eq!(b.remaining_slice(), vec![1, 2, 3]);
    assert_eq!(b.len(), 3);
    assert!(!b.is_empty());
    b.truncate(0);
    assert!(b.is_empty());
    let took = b.write(&[9; 12], 0);
    assert_eq!(took, 8);
    assert!(b.is_full());
    b.reset();
    assert!(b.is_empty());
}

#[test]
fn test_buf_fills_from_slow_source() {
    let content: Vec<u8> = (0..=255u8).collect();
    let mut b = Buf::new(256);
    let mut src = SmallByteReader::new(content.clone());
    let n = b.read_from(&mut src).unwrap();
    assert_eq!(n, 256);
    assert_eq!(b.remaining_slice(), content);
}
