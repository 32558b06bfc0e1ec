use std::io::Write;

use unalz::crypto::ZipCrypto;
use unalz::decompress::bits::{BitReader, BitWriter};
use unalz::decompress::deflate::{extract_deflate, judge_outcome};
use unalz::decompress::raw::extract_raw;
use unalz::error::AlzError;

fn sample(n: usize) -> Vec<u8> {
    (0..n).map(|i| (i * 31 % 253) as u8).collect()
}

fn encrypted(password: &[u8], data: &[u8]) -> Vec<u8> {
    let mut c = ZipCrypto::new(password);
    data.iter()
        .map(|&plain| {
            let b = plain ^ c.decrypt_byte();
            c.update_keys(plain);
            b
        })
        .collect()
}

fn deflated(data: &[u8]) -> Vec<u8> {
    let mut enc = flate2::write::DeflateEncoder::new(Vec::new(), flate2::Compression::default());
    enc.write_all(data).unwrap();
    enc.finish().unwrap()
}

#[test]
fn stored_bytes_are_copied() {
    let data = sample(100_000);
    let mut out = vec![1, 2];
    assert_eq!(extract_raw(&data, &mut out, 70_000, 70_000, None).unwrap(), crc32fast::hash(&data[..70_000]));
    assert_eq!(out, [&[1, 2], &data[..70_000]].concat());
}

#[test]
fn stored_bytes_are_decrypted() {
    let data = sample(70_000);
    let mut c = ZipCrypto::new(b"pw");
    let mut out = Vec::new();
    let crc = extract_raw(&encrypted(b"pw", &data), &mut out, 70_000, 70_000, Some(&mut c)).unwrap();
    assert_eq!(out, data);
    assert_eq!(crc, crc32fast::hash(&data));
}

#[test]
fn missing_stored_bytes_are_truncation() {
    let data = sample(40_000);
    let mut out = Vec::new();
    let e = extract_raw(&data, &mut out, 50_000, 50_000, None).unwrap_err();
    assert!(e.is_truncation());
    // The whole buffers before the end are there.
    assert_eq!(out, data[..32768]);
}

#[test]
fn too_many_stored_bytes_are_an_error() {
    let data = sample(40_000);
    let mut out = Vec::new();
    let r = extract_raw(&data, &mut out, 40_000, 39_999, None);
    assert!(matches!(r, Err(AlzError::UncompressedSizeExceeded { limit: 39_999 })));
    assert_eq!(out, data[..32768]);
}

#[test]
fn deflated_bytes_are_inflated() {
    for n in [0, 1, 65_535, 65_536, 65_537, 3_000_000] {
        let data = sample(n);
        let stream = deflated(&data);
        let mut out = Vec::new();
        let crc = extract_deflate(&stream, &mut out, stream.len() as u64, n as u64, None).unwrap();
        assert_eq!(out, data);
        assert_eq!(crc, crc32fast::hash(&data));
        // Bytes behind the stream do not matter.
        let mut out = Vec::new();
        let longer = [&stream[..], &[0xff; 10]].concat();
        extract_deflate(&longer, &mut out, longer.len() as u64, u64::MAX, None).unwrap();
        assert_eq!(out, data);
    }
}

#[test]
fn deflated_bytes_are_decrypted() {
    let data = sample(5000);
    let stream = encrypted(b"pw", &deflated(&data));
    let mut c = ZipCrypto::new(b"pw");
    let mut out = Vec::new();
    extract_deflate(&stream, &mut out, stream.len() as u64, 5000, Some(&mut c)).unwrap();
    assert_eq!(out, data);
}

#[test]
fn a_deflate_stream_has_its_errors() {
    let data = sample(200_000);
    let stream = deflated(&data);
    let half = stream.len() / 2;
    let mut out = Vec::new();
    let e = extract_deflate(&stream[..half], &mut out, stream.len() as u64, 200_000, None).unwrap_err();
    assert!(e.is_truncation());
    assert_eq!(out, data[..out.len()]);
    let mut out = Vec::new();
    let e = extract_deflate(&stream, &mut out, half as u64, 200_000, None).unwrap_err();
    assert!(e.is_truncation());
    let mut out = Vec::new();
    for limit in [0, 100, 65_536, 199_999] {
        let r = extract_deflate(&stream, &mut out, stream.len() as u64, limit, None);
        assert!(matches!(r, Err(AlzError::UncompressedSizeExceeded { limit: l }) if l == limit));
        assert!(out.is_empty());
    }
    let r = extract_deflate(&[0xff; 20], &mut out, 20, 100, None);
    assert!(matches!(r, Err(AlzError::InflateFailed(_))));
}

#[test]
fn outcomes_are_judged() {
    let mut out = Vec::new();
    assert_eq!(judge_outcome(b"abc".to_vec(), Some(true), 3, &mut out).unwrap(), crc32fast::hash(b"abc"));
    assert_eq!(out, b"abc");
    assert!(judge_outcome(b"abc".to_vec(), Some(false), 3, &mut out).unwrap_err().is_truncation());
    let r = judge_outcome(b"abc".to_vec(), Some(true), 2, &mut out);
    assert!(matches!(r, Err(AlzError::UncompressedSizeExceeded { limit: 2 })));
    match judge_outcome(b"x".to_vec(), None, 3, &mut out) {
        Err(AlzError::InflateFailed(message)) => assert_eq!(message, "corrupt deflate stream"),
        _ => panic!("expected an error"),
    }
    assert_eq!(out, b"abcabcx");
}

#[test]
fn bits_are_read_from_the_top() {
    let data = [0b1010_0001u8, 0b1111_0000];
    let mut r = BitReader::at(&data, 0);
    assert_eq!(r.bits_remaining(), 16);
    assert_eq!(r.read_bits(3).unwrap(), 0b101);
    assert_eq!(r.read_bit(), 0);
    assert_eq!(r.read_bits(8).unwrap(), 0b0001_1111);
    assert_eq!(r.bits_remaining(), 4);
    match r.read_bits(5) {
        Err(AlzError::Bzip2Failed(message)) => assert_eq!(message, "unexpected end of bzip2 data"),
        _ => panic!("expected an error"),
    }
    assert_eq!(r.read_bits(4).unwrap(), 0);
    assert!(BitReader::at(&data, 0).read_bits(33).is_err());
}

#[test]
fn written_bits_are_read_back() {
    let mut w = BitWriter::new();
    w.write_bits(0b101, 3);
    w.write_bytes(&[0xAB, 0xCD]);
    w.write_bits(0x12345678, 32);
    w.flush();
    let data = w.into_bytes();
    assert_eq!(data.len(), 7);
    let mut r = BitReader::at(&data, 0);
    assert_eq!(r.read_bits(3).unwrap(), 0b101);
    assert_eq!(r.read_bits(16).unwrap(), 0xABCD);
    assert_eq!(r.read_bits(32).unwrap(), 0x12345678);
    assert_eq!(r.read_bits(5).unwrap(), 0);
}
