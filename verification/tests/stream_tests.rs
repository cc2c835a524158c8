use rand_core::OsRng;
use rand_core::RngCore;

use stream::error::Error;
use stream::io::BytesReader;
use stream::io::SmallByteReader;
use stream::io::VecSink;
use stream::reader::decrypt_to_vec;
use stream::reader::Reader;
use stream::reader::ReaderOpts;
use stream::version::Version;
use stream::writer::encrypt_to_vec;
use stream::writer::size;
use stream::writer::Writer;
use stream::writer::WriterOpts;

fn rand_bytes(n: usize) -> Vec<u8> {
    let mut b = vec![0u8; n];
    OsRng.fill_bytes(&mut b);
    b
}

const HEADER: usize = 4 + 32 + 19;

#[test]
fn test_basic() {
    const C: usize = 65536;
    const N: usize = (C * 5) + (C / 2);

    let plaintext = rand_bytes(N);
    let key = rand_bytes(32);

    let mut sink = VecSink::new();
    let mut wr = Writer::new(sink, &key).unwrap();
    wr.write(&plaintext).unwrap();
    wr.flush().unwrap();
    sink = wr.into_inner();
    let ciphertext = sink.into_vec();

    let src = BytesReader::new(ciphertext);
    let mut rd = Reader::new(src, &key).unwrap();
    let got = rd.read_to_end().unwrap();
    assert_eq!(got, plaintext);
}

#[test]
fn test_v1_zero_size_eof() {
    const C: usize = 1;
    const N: usize = 2;

    let plaintext = rand_bytes(N);
    let key = rand_bytes(32);
    let opts = WriterOpts::new().with_version(Version::One).build();

    let ciphertext = encrypt_to_vec(&key, &opts, C, &plaintext).unwrap();
    assert_eq!(ciphertext.len(), size(N, C, &opts));
    assert_eq!(ciphertext.len(), HEADER + 2 + 2 * 16);

    let got = decrypt_to_vec(&key, &ReaderOpts::new(), C, &ciphertext).unwrap();
    assert_eq!(got, plaintext);
}

#[test]
fn test_v2_zero_size_eof() {
    const C: usize = 1;
    const N: usize = 2;

    let plaintext = rand_bytes(N);
    let key = rand_bytes(32);
    let opts = WriterOpts::new().with_version(Version::Two).build();

    let ciphertext = encrypt_to_vec(&key, &opts, C, &plaintext).unwrap();
    assert_eq!(ciphertext.len(), size(N, C, &opts));
    assert_eq!(ciphertext.len(), HEADER + 2 + 3 * 16);

    let got = decrypt_to_vec(&key, &ReaderOpts::new(), C, &ciphertext).unwrap();
    assert_eq!(got, plaintext);
}

#[test]
fn test_empty_stream_both_versions() {
    let key = rand_bytes(32);
    for v in [Version::One, Version::Two] {
        let opts = WriterOpts::new().with_version(v).build();
        let ciphertext = encrypt_to_vec(&key, &opts, 65536, &[]).unwrap();
        assert_eq!(ciphertext.len(), HEADER + 16);
        let got = decrypt_to_vec(&key, &ReaderOpts::new(), 65536, &ciphertext).unwrap();
        assert_eq!(got.len(), 0);
    }
}

#[test]
fn test_round_trip_many_shapes() {
    let key = rand_bytes(32);
    for v in [Version::One, Version::Two] {
        for c in [1usize, 2, 3, 16, 64] {
            for n in [0usize, 1, 2, 3, 5, 16, 17, 64, 128, 129] {
                let opts = WriterOpts::new().with_version(v).build();
                let plaintext = rand_bytes(n);
                let ciphertext = encrypt_to_vec(&key, &opts, c, &plaintext).unwrap();
                assert_eq!(ciphertext.len(), size(n, c, &opts));
                let got = decrypt_to_vec(&key, &ReaderOpts::new(), c, &ciphertext).unwrap();
                assert_eq!(got, plaintext);
            }
        }
    }
}

#[test]
fn test_truncation_detected() {
    let key = rand_bytes(32);
    let plaintext = rand_bytes(100);
    let opts = WriterOpts::new().build();
    let ciphertext = encrypt_to_vec(&key, &opts, 64, &plaintext).unwrap();

    // dropping the final byte
    let cut = &ciphertext[..ciphertext.len() - 1];
    let r = decrypt_to_vec(&key, &ReaderOpts::new(), 64, cut);
    assert!(matches!(r, Err(Error::Authentication)));

    // dropping the whole terminal chunk
    let cut = &ciphertext[..ciphertext.len() - (36 + 16)];
    let r = decrypt_to_vec(&key, &ReaderOpts::new(), 64, cut);
    assert!(matches!(r, Err(Error::Authentication)));

    // truncating inside the header
    let r = decrypt_to_vec(&key, &ReaderOpts::new(), 64, &ciphertext[..30]);
    assert!(matches!(r, Err(Error::UnexpectedEof(_))));
    let r = decrypt_to_vec(&key, &ReaderOpts::new(), 64, &ciphertext[..2]);
    assert!(matches!(r, Err(Error::UnexpectedEof(2))));
}

#[test]
fn test_bit_flips_detected() {
    let key = rand_bytes(32);
    let plaintext = rand_bytes(40);
    let opts = WriterOpts::new().build();
    let ciphertext = encrypt_to_vec(&key, &opts, 16, &plaintext).unwrap();

    // a flip in every region after the version field: salt, prefix, chunk
    // ciphertext, chunk tag
    for idx in [4, 20, 36, 54, HEADER, HEADER + 3, HEADER + 16, ciphertext.len() - 1] {
        let mut bad = ciphertext.clone();
        bad[idx] ^= 0x01;
        let r = decrypt_to_vec(&key, &ReaderOpts::new(), 16, &bad);
        assert!(matches!(r, Err(Error::Authentication)));
    }
}

#[test]
fn test_reordering_detected() {
    let key = rand_bytes(32);
    let plaintext = rand_bytes(2);
    let opts = WriterOpts::new().with_version(Version::Two).build();
    let ciphertext = encrypt_to_vec(&key, &opts, 1, &plaintext).unwrap();
    // two equal-length chunks of 1 + 16 bytes each follow the header
    let mut bad = ciphertext.clone();
    for i in 0..17 {
        bad.swap(HEADER + i, HEADER + 17 + i);
    }
    let r = decrypt_to_vec(&key, &ReaderOpts::new(), 1, &bad);
    assert!(matches!(r, Err(Error::Authentication)));
}

#[test]
fn test_cross_key_isolation() {
    let key = rand_bytes(32);
    let mut other = key.clone();
    other[0] ^= 0xff;
    let plaintext = rand_bytes(10);
    let opts = WriterOpts::new().build();
    let ciphertext = encrypt_to_vec(&key, &opts, 16, &plaintext).unwrap();

    let r = decrypt_to_vec(&other, &ReaderOpts::new(), 16, &ciphertext);
    assert!(matches!(r, Err(Error::Authentication)));

    // and a different key-derivation context
    let wopts = WriterOpts::new().with_info(b"ctx-a".to_vec()).build();
    let ciphertext = encrypt_to_vec(&key, &wopts, 16, &plaintext).unwrap();
    let ropts = ReaderOpts::new().with_info(b"ctx-b".to_vec()).build();
    let r = decrypt_to_vec(&key, &ropts, 16, &ciphertext);
    assert!(matches!(r, Err(Error::Authentication)));
}

#[test]
fn test_cross_ad() {
    let key = rand_bytes(32);
    let plaintext = rand_bytes(10);
    let wopts = WriterOpts::new().with_additional_data(b"A".to_vec()).build();
    let ciphertext = encrypt_to_vec(&key, &wopts, 16, &plaintext).unwrap();

    let ropts = ReaderOpts::new().with_additional_data(b"B".to_vec()).build();
    let r = decrypt_to_vec(&key, &ropts, 16, &ciphertext);
    assert!(matches!(r, Err(Error::Authentication)));

    let ropts = ReaderOpts::new().with_additional_data(b"A".to_vec()).build();
    let got = decrypt_to_vec(&key, &ropts, 16, &ciphertext).unwrap();
    assert_eq!(got, plaintext);
}

#[test]
fn test_no_delivery_from_unverified_chunk() {
    let key = rand_bytes(32);
    let plaintext = rand_bytes(40);
    let opts = WriterOpts::new().build();
    let ciphertext = encrypt_to_vec(&key, &opts, 16, &plaintext).unwrap();

    // corrupt the terminal chunk's tag
    let mut bad = ciphertext.clone();
    let last = bad.len() - 1;
    bad[last] ^= 0x80;

    let src = BytesReader::new(bad);
    let mut rd = Reader::new_with(src, &key, &ReaderOpts::new(), 16).unwrap();
    let mut delivered: Vec<u8> = Vec::new();
    let err = loop {
        match rd.read(16) {
            Ok(part) => {
                if part.is_empty() {
                    panic!("corrupted stream ended without an error");
                }
                delivered.extend_from_slice(&part);
            },
            Err(e) => break e,
        }
    };
    assert!(matches!(err, Error::Authentication));
    // the intact chunks may have been delivered, the corrupted final
    // chunk's bytes never are
    assert!(delivered.len() <= 32);
    assert_eq!(delivered, plaintext[..delivered.len()]);
}

#[test]
fn test_zero_length_read_is_noop() {
    let key = rand_bytes(32);
    let plaintext = rand_bytes(24);
    let opts = WriterOpts::new().build();
    let ciphertext = encrypt_to_vec(&key, &opts, 16, &plaintext).unwrap();

    let src = BytesReader::new(ciphertext);
    let mut rd = Reader::new_with(src, &key, &ReaderOpts::new(), 16).unwrap();
    let empty = rd.read(0).unwrap();
    assert_eq!(empty.len(), 0);
    let empty = rd.read(0).unwrap();
    assert_eq!(empty.len(), 0);
    let got = rd.read_to_end().unwrap();
    assert_eq!(got, plaintext);
}

#[test]
fn test_invalid_version_rejected() {
    let key = rand_bytes(32);
    let mut bytes = vec![0u8, 0, 0, 9];
    bytes.extend_from_slice(&rand_bytes(60));
    let r = decrypt_to_vec(&key, &ReaderOpts::new(), 16, &bytes);
    assert!(matches!(r, Err(Error::InvalidVersion(9))));
}

#[test]
fn test_version_encoding() {
    assert_eq!(Version::One.to_bytes(), vec![0, 0, 0, 1]);
    assert_eq!(Version::Two.to_bytes(), vec![0, 0, 0, 2]);
    assert!(matches!(Version::try_from(1), Ok(Version::One)));
    assert!(matches!(Version::try_from(2), Ok(Version::Two)));
    assert!(matches!(Version::try_from(3), Err(Error::InvalidVersion(3))));
    assert!(matches!(Version::try_from(0), Err(Error::InvalidVersion(0))));
}

#[test]
fn test_size_formula() {
    let v1 = WriterOpts::new().with_version(Version::One).build();
    let v2 = WriterOpts::new().with_version(Version::Two).build();
    assert_eq!(size(2, 1, &v1), 89);
    assert_eq!(size(2, 1, &v2), 105);
    assert_eq!(size(0, 65536, &v1), HEADER + 16);
    assert_eq!(size(0, 65536, &v2), HEADER + 16);
    assert_eq!(size(65536, 65536, &v1), HEADER + 65536 + 16);
    assert_eq!(size(65536, 65536, &v2), HEADER + 65536 + 2 * 16);
    assert_eq!(size(100, 64, &v2), HEADER + 100 + 2 * 16);
}

#[test]
fn test_fresh_randomness_per_stream() {
    let key = rand_bytes(32);
    let plaintext = rand_bytes(10);
    let opts = WriterOpts::new().build();
    let a = encrypt_to_vec(&key, &opts, 16, &plaintext).unwrap();
    let b = encrypt_to_vec(&key, &opts, 16, &plaintext).unwrap();
    // the salt and nonce prefix are drawn fresh for every stream
    assert_ne!(a, b);
}

#[test]
fn test_incremental_writes_match_single_write() {
    let key = rand_bytes(32);
    let plaintext = rand_bytes(50);
    for v in [Version::One, Version::Two] {
        let opts = WriterOpts::new().with_version(v).build();
        let sink = VecSink::new();
        let mut wr = Writer::new_with(sink, &key, &opts, 16).unwrap();
        for chunk in plaintext.chunks(7) {
            wr.write(chunk).unwrap();
        }
        wr.flush().unwrap();
        let ciphertext = wr.into_inner().into_vec();
        assert_eq!(ciphertext.len(), size(50, 16, &opts));
        let got = decrypt_to_vec(&key, &ReaderOpts::new(), 16, &ciphertext).unwrap();
        assert_eq!(got, plaintext);
    }
}

#[test]
fn test_missing_flush_is_truncation() {
    let key = rand_bytes(32);
    let plaintext = rand_bytes(32);
    let opts = WriterOpts::new().build();
    let sink = VecSink::new();
    let mut wr = Writer::new_with(sink, &key, &opts, 16).unwrap();
    wr.write(&plaintext).unwrap();
    // no flush: the terminal chunk is missing
    let ciphertext = wr.into_inner().into_vec();
    let r = decrypt_to_vec(&key, &ReaderOpts::new(), 16, &ciphertext);
    assert!(matches!(r, Err(Error::Authentication)));
}

#[test]
fn test_decrypt_over_partial_reads() {
    let key = rand_bytes(32);
    let plaintext = rand_bytes(100);
    let opts = WriterOpts::new().build();
    let ciphertext = encrypt_to_vec(&key, &opts, 16, &plaintext).unwrap();

    // a source that hands out one to three bytes at a time
    let src = SmallByteReader::new(ciphertext);
    let mut rd = Reader::new_with(src, &key, &ReaderOpts::new(), 16).unwrap();
    let got = rd.read_to_end().unwrap();
    assert_eq!(got, plaintext);
}
