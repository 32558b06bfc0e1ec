//! Multi-block ALZ bzip2 extraction.
//!
//! ALZ bzip2 files larger than one bzip2 block (~900 KB uncompressed) span
//! multiple blocks. The tests put such a file together: they compress data with
//! the standard `bzip2` crate, convert that standard stream into ALZ bzip2
//! framing (the inverse of what the extractor reconstructs), and check that the
//! extractor gives the data back byte for byte, in one case with a compressed
//! payload that happens to contain a false "DLZ" marker.

use std::io::Write;

use unalz::crypto::ZipCrypto;
use unalz::decompress::bzip2::{
    decode_probe, extract_bzip2, judge_cut, judge_piece, next_marker, peek32, CutVerdict,
    PieceVerdict,
};
use unalz::error::AlzError;

const BZ_BLOCK_MAGIC: u64 = 0x314159265359; // 48-bit
const BZ_EOS_MAGIC: u64 = 0x177245385090; // 48-bit

struct BitReader<'a> {
    data: &'a [u8],
    bit: usize,
}
impl<'a> BitReader<'a> {
    fn new(d: &'a [u8]) -> Self {
        Self { data: d, bit: 0 }
    }
    fn remaining(&self) -> usize {
        self.data.len() * 8 - self.bit
    }
    fn read1(&mut self) -> u8 {
        let b = (self.data[self.bit / 8] >> (7 - (self.bit % 8))) & 1;
        self.bit += 1;
        b
    }
    fn read(&mut self, n: usize) -> u64 {
        let mut v = 0u64;
        for _ in 0..n {
            v = (v << 1) | self.read1() as u64;
        }
        v
    }
    fn peek(&self, n: usize) -> u64 {
        let mut v = 0u64;
        for bit in self.bit..self.bit + n {
            v = (v << 1) | ((self.data[bit / 8] >> (7 - (bit % 8))) & 1) as u64;
        }
        v
    }
}
struct BitWriter {
    data: Vec<u8>,
    cur: u8,
    bit: u8,
}
impl BitWriter {
    fn new() -> Self {
        Self {
            data: Vec::new(),
            cur: 0,
            bit: 0,
        }
    }
    fn write(&mut self, val: u64, n: usize) {
        for i in (0..n).rev() {
            let b = ((val >> i) & 1) as u8;
            self.cur |= b << (7 - self.bit);
            self.bit += 1;
            if self.bit == 8 {
                self.data.push(self.cur);
                self.cur = 0;
                self.bit = 0;
            }
        }
    }
    fn flush(mut self) -> Vec<u8> {
        if self.bit > 0 {
            self.data.push(self.cur);
        }
        self.data
    }
}

/// standard bzip2 stream -> ALZ bzip2 framing.
fn std_to_alz(std: &[u8]) -> Vec<u8> {
    let mut r = BitReader::new(std);
    assert_eq!(r.read(24), 0x425a68, "not a BZh stream"); // "BZh"
    let _level = r.read(8);
    let mut w = BitWriter::new();
    loop {
        let magic = r.read(48);
        if magic == BZ_EOS_MAGIC {
            w.write(0x444C5A02, 32); // DLZ\x02
            break;
        }
        assert_eq!(magic, BZ_BLOCK_MAGIC, "expected block magic");
        let _crc = r.read(32);
        assert_eq!(r.read1(), 0, "randomised blocks unsupported");
        w.write(0x444C5A01, 32); // DLZ\x01
        loop {
            if r.remaining() < 48 {
                while r.remaining() > 0 {
                    let b = r.read1();
                    w.write(b as u64, 1);
                }
                return w.flush();
            }
            let p = r.peek(48);
            if p == BZ_BLOCK_MAGIC || p == BZ_EOS_MAGIC {
                break;
            }
            let b = r.read1();
            w.write(b as u64, 1);
        }
    }
    w.flush()
}

fn compress_std(data: &[u8]) -> Vec<u8> {
    
    let mut out = Vec::new();
    let mut enc = bzip2::write::BzEncoder::new(&mut out, bzip2::Compression::new(9));
    enc.write_all(data).unwrap();
    enc.finish().unwrap();
    out
}

fn gen_data(n: usize, seed: u32) -> Vec<u8> {
    let mut d = Vec::with_capacity(n);
    let mut x = seed;
    for i in 0..n {
        x = x.wrapping_mul(1103515245).wrapping_add(12345);
        // Mix runs and pseudo-random bytes: compressible, multi-block, varied.
        d.push(if i % 64 < 40 {
            (i / 997) as u8
        } else {
            (x >> 24) as u8
        });
    }
    d
}

fn roundtrip(data: &[u8]) -> Vec<u8> {
    let alz = std_to_alz(&compress_std(data));
    let mut out = Vec::new();
    let crc = extract_bzip2(&alz, &mut out, alz.len() as u64, u64::MAX, None).expect("extract_bzip2");
    assert_eq!(crc, crc32fast::hash(&out));
    out
}

#[test]
fn single_block_roundtrips() {
    let data = gen_data(50_000, 1);
    assert_eq!(roundtrip(&data), data);
}

#[test]
fn multi_block_roundtrips() {
    // ~2.4 MB spans multiple ~900 KB blocks. This seed's first block also
    // happens to contain a false "DLZ" marker in its payload, exercising the
    // decode-validated boundary search.
    let data = gen_data(2_400_000, 0x12345678);
    assert_eq!(roundtrip(&data), data);
}

#[test]
fn various_sizes_roundtrip() {
    for (i, &sz) in [900_001usize, 1_000_000, 1_800_050].iter().enumerate() {
        let data = gen_data(sz, 0xABCD00 + i as u32);
        assert_eq!(roundtrip(&data), data, "size {sz} failed to round-trip");
    }
}

#[test]
fn output_cap_is_enforced() {
    // Extraction must stop once more than the declared size is produced.
    let data = gen_data(2_000_000, 7);
    let alz = std_to_alz(&compress_std(&data));
    let mut out = Vec::new();
    let err = extract_bzip2(&alz, &mut out, alz.len() as u64, 1000, None).is_err();
    assert!(
        err,
        "expected UncompressedSizeExceeded when output exceeds cap"
    );
}

#[test]
fn the_exceeded_limit_is_the_declared_size() {
    // The first block fits, the second does not.
    let data = gen_data(2_000_000, 7);
    let alz = std_to_alz(&compress_std(&data));
    let mut out = Vec::new();
    let r = extract_bzip2(&alz, &mut out, alz.len() as u64, 1_000_000, None);
    assert!(matches!(r, Err(AlzError::UncompressedSizeExceeded { limit: 1_000_000 })));
    assert!(out.len() <= 1_000_000);
    assert_eq!(out, data[..out.len()]);
}

#[test]
fn encrypted_blocks_are_decrypted() {
    let data = gen_data(20_000, 3);
    let mut alz = std_to_alz(&compress_std(&data));
    let mut c = ZipCrypto::new(b"pw");
    for b in alz.iter_mut() {
        let plain = *b;
        *b = plain ^ c.decrypt_byte();
        c.update_keys(plain);
    }
    let mut out = Vec::new();
    let mut c = ZipCrypto::new(b"pw");
    extract_bzip2(&alz, &mut out, alz.len() as u64, u64::MAX, Some(&mut c)).unwrap();
    assert_eq!(out, data);
}

#[test]
fn what_is_no_block_is_an_error() {
    let mut out = Vec::new();
    match extract_bzip2(b"DLZ\x05....", &mut out, 8, 100, None) {
        Err(AlzError::Bzip2Failed(message)) => {
            assert_eq!(message, "expected ALZ block header, got 444c5a05");
        }
        _ => panic!("expected an error"),
    }
    match extract_bzip2(b"DLZ\x01 this is not a block", &mut out, 27, 100, None) {
        Err(AlzError::Bzip2Failed(message)) => {
            assert_eq!(message, "could not decode bzip2 block");
        }
        _ => panic!("expected an error"),
    }
    assert!(out.is_empty());
    // The end marker alone is an empty file.
    assert_eq!(extract_bzip2(b"DLZ\x02", &mut out, 4, 100, None).unwrap(), 0);
}

#[test]
fn a_cut_is_judged_by_its_output() {
    assert!(matches!(judge_cut(1, 10, 100), CutVerdict::Boundary));
    assert!(matches!(judge_cut(0, 10, 100), CutVerdict::TryNext));
    assert!(matches!(judge_cut(0, 100, 100), CutVerdict::Undecodable));
}

#[test]
fn pieces_are_judged() {
    assert_eq!(judge_piece(5, 3, Some(false), 3), PieceVerdict::More);
    assert_eq!(judge_piece(0, 3, Some(false), 3), PieceVerdict::More);
    assert_eq!(judge_piece(5, 0, Some(false), 0), PieceVerdict::More);
    assert_eq!(judge_piece(0, 0, Some(false), 3), PieceVerdict::Last);
    assert_eq!(judge_piece(5, 3, Some(true), 3), PieceVerdict::Last);
    assert_eq!(judge_piece(5, 3, None, 3), PieceVerdict::Last);
    assert_eq!(judge_piece(5, 4, None, 3), PieceVerdict::Exceeded);
}

#[test]
fn a_standard_stream_is_decoded_whole() {
    // Many blocks, and far more output than one call of the decoder gives.
    let data = vec![0u8; 60_000_000];
    let stream = compress_std(&data);
    let mut out = vec![7];
    assert_eq!(decode_probe(&stream, &mut out, u64::MAX).unwrap(), 60_000_000);
    assert_eq!(out.len(), 60_000_001);
    assert!(out[0] == 7 && out[1..].iter().all(|&b| b == 0));
    let mut out = Vec::new();
    assert_eq!(decode_probe(&stream, &mut out, 60_000_000).unwrap(), 60_000_000);
}

#[test]
fn a_probe_keeps_what_is_within_its_limit() {
    let data = gen_data(100_000, 5);
    let stream = compress_std(&data);
    for cap in [0, 32_767, 32_768, 70_000, 99_999] {
        let mut out = Vec::new();
        let r = decode_probe(&stream, &mut out, cap);
        assert!(matches!(r, Err(AlzError::UncompressedSizeExceeded { limit }) if limit == cap));
        assert!(out.len() as u64 <= cap);
        assert_eq!(out, data[..out.len()]);
    }
    // A block that is cut short emits nothing.
    let mut out = Vec::new();
    let cut = stream.len() / 2;
    assert_eq!(decode_probe(&stream[..cut], &mut out, 100_000).unwrap(), 0);
    assert_eq!(decode_probe(&[], &mut out, 100_000).unwrap(), 0);
    assert!(out.is_empty());
}

#[test]
fn markers_are_found_at_any_bit() {
    let mut w = BitWriter::new();
    w.write(0b101, 3);
    w.write(0x444C5A01, 32);
    w.write(0x1f, 5);
    w.write(0x444C5A02, 32);
    let data = w.flush();
    assert_eq!(peek32(&data, 3), Some(0x444C5A01));
    assert_eq!(peek32(&data, 70), None);
    assert_eq!(next_marker(&data, 0), Some(3));
    assert_eq!(next_marker(&data, 4), Some(40));
    assert_eq!(next_marker(&data, 41), None);
}
