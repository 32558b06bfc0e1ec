//! Archives put together from the bytes of their records.

use std::io::Write;

use unalz::archive::{AlzArchive, CompressionMethod, ATTR_ARCHIVE, ATTR_DIRECTORY};
use unalz::crypto::ZipCrypto;
use unalz::error::AlzError;
use unalz::extract::{decompress_to, extract_all, extract_entry, extract_files, has_unsafe_components, prepare_entry};

/// (name, length) of the files that the archives contain.
const SOURCE: &[(&str, usize)] = &[
    ("binary.bin", 1024),
    ("empty.txt", 0),
    ("euckr_content.txt", 71),
    ("hello.txt", 131),
    ("large.txt", 131364),
    ("repeated.txt", 720),
    ("뷁테스트.txt", 72),
    ("한글파일.txt", 56),
    ("subdir/inner.txt", 28),
    ("subdir/nested/deep.txt", 20),
];

fn content(index: usize, len: usize) -> Vec<u8> {
    let mut x = index as u32 + 1;
    (0..len)
        .map(|i| {
            x = x.wrapping_mul(1103515245).wrapping_add(12345);
            if i % 64 < 40 { (i / 97) as u8 } else { (x >> 24) as u8 }
        })
        .collect()
}

fn contents() -> Vec<Vec<u8>> {
    SOURCE.iter().enumerate().map(|(i, (_, len))| content(i, *len)).collect()
}

/// An entry to be put into an archive.
struct Item<'a> {
    name: &'a [u8],
    attribute: u8,
    method: u8,
    stored: Vec<u8>,
    plain: &'a [u8],
    password: Option<&'a [u8]>,
}

fn encrypt(c: &mut ZipCrypto, data: &mut [u8]) {
    for b in data.iter_mut() {
        let plain = *b;
        *b = plain ^ c.decrypt_byte();
        c.update_keys(plain);
    }
}

fn local_entry(item: &Item) -> Vec<u8> {
    let crc = crc32fast::hash(item.plain);
    let mut out = b"BLZ\x01".to_vec();
    out.extend((item.name.len() as u16).to_le_bytes());
    out.push(item.attribute);
    out.extend(0x4E8C2209u32.to_le_bytes());
    out.push(0x40 | if item.password.is_some() { 1 } else { 0 });
    out.push(0);
    out.push(item.method);
    out.push(0);
    out.extend(crc.to_le_bytes());
    out.extend((item.stored.len() as u32).to_le_bytes());
    out.extend((item.plain.len() as u32).to_le_bytes());
    out.extend(item.name);
    let mut data = item.stored.clone();
    if let Some(password) = item.password {
        let mut header = [9u8; 12];
        header[11] = (crc >> 24) as u8;
        let mut c = ZipCrypto::new(password);
        encrypt(&mut c, &mut header);
        encrypt(&mut c, &mut data);
        out.extend(header);
    }
    out.extend(data);
    out
}

fn archive_of(items: &[Item]) -> Vec<u8> {
    let mut out = b"ALZ\x01\x0a\x00\x00\x00".to_vec();
    for item in items {
        out.extend(local_entry(item));
    }
    out.extend(b"CLZ\x01");
    out.extend([0; 12]);
    out.extend(b"CLZ\x02");
    out
}

/// Cut an archive into volumes of at most `size` bytes of data.
fn split(data: &[u8], size: usize) -> Vec<Vec<u8>> {
    let pieces: Vec<&[u8]> = data.chunks(size).collect();
    let mut volumes = Vec::new();
    for (i, piece) in pieces.iter().enumerate() {
        let mut v = Vec::new();
        if i > 0 {
            v.extend([0xEE; 8]);
        }
        v.extend_from_slice(piece);
        if i + 1 < pieces.len() {
            v.extend([0u8; 16]);
        }
        volumes.push(v);
    }
    volumes
}

fn deflated(data: &[u8], level: u32) -> Vec<u8> {
    let mut enc = flate2::write::DeflateEncoder::new(Vec::new(), flate2::Compression::new(level));
    enc.write_all(data).unwrap();
    enc.finish().unwrap()
}

/// The names of the files, in CP949 where that is not ASCII.
fn names() -> Vec<Vec<u8>> {
    SOURCE
        .iter()
        .map(|(name, _)| encoding_rs::EUC_KR.encode(name).0.into_owned())
        .collect()
}

fn sample(method: u8, level: u32, password: Option<&str>) -> Vec<u8> {
    let plain = contents();
    let names = names();
    let items: Vec<Item> = plain
        .iter()
        .zip(&names)
        .map(|(data, name)| {
            // An empty file is stored, and not encrypted.
            let empty = data.is_empty();
            Item {
                name,
                attribute: ATTR_ARCHIVE,
                method: if empty { 0 } else { method },
                stored: if method == 2 && !empty { deflated(data, level) } else { data.clone() },
                plain: data,
                password: if empty { None } else { password.map(|p| p.as_bytes()) },
            }
        })
        .collect();
    archive_of(&items)
}

fn extract_one(archive: &mut AlzArchive, name: &str, password: Option<&str>) -> Vec<u8> {
    let entry = archive.entries.iter().find(|e| e.file_name == name).unwrap().clone();
    let mut out = Vec::new();
    extract_entry(archive, &entry, password, &mut out).unwrap();
    out
}

fn verify(archive: &mut AlzArchive, password: Option<&str>) {
    for (i, (name, len)) in SOURCE.iter().enumerate() {
        let data = extract_one(archive, name, password);
        assert_eq!(data.len(), *len, "{name}: wrong length");
        assert_eq!(data, content(i, *len), "{name}: wrong data");
    }
    let mut out = Vec::new();
    let mut log = String::new();
    assert!(extract_all(archive, password, false, &mut out, &mut log).unwrap());
    assert_eq!(out, contents().concat());
    assert_eq!(log, "");
}

// --- Store ---

#[test]
fn store_list() {
    let archive = AlzArchive::from_bytes(sample(0, 0, None)).unwrap();
    assert_eq!(archive.entries.len(), 10);
    for entry in &archive.entries {
        assert_eq!(entry.compression_method, CompressionMethod::Store);
    }
    assert!(!archive.truncated);
}

#[test]
fn store_extract() {
    let mut archive = AlzArchive::from_bytes(sample(0, 0, None)).unwrap();
    verify(&mut archive, None);
}

// --- Deflate (normal) ---

#[test]
fn deflate_normal_list() {
    let archive = AlzArchive::from_bytes(sample(2, 6, None)).unwrap();
    assert_eq!(archive.entries.len(), 10);
    // empty.txt is Store, rest are Deflate
    let deflate_count = archive
        .entries
        .iter()
        .filter(|e| e.compression_method == CompressionMethod::Deflate)
        .count();
    assert!(deflate_count >= 9);
}

#[test]
fn deflate_normal_extract() {
    let mut archive = AlzArchive::from_bytes(sample(2, 6, None)).unwrap();
    verify(&mut archive, None);
}

// --- Deflate (low) ---

#[test]
fn deflate_low_extract() {
    let mut archive = AlzArchive::from_bytes(sample(2, 1, None)).unwrap();
    verify(&mut archive, None);
}

// --- Encrypted (zip2.0) ---

#[test]
fn encrypted_list() {
    let archive = AlzArchive::from_bytes(sample(2, 6, Some("test1234"))).unwrap();
    assert!(archive.is_encrypted);
    let encrypted_count = archive.entries.iter().filter(|e| e.is_encrypted()).count();
    // empty.txt is not encrypted (0 bytes), rest are
    assert!(encrypted_count >= 9);
}

#[test]
fn encrypted_extract() {
    let mut archive = AlzArchive::from_bytes(sample(2, 6, Some("test1234"))).unwrap();
    verify(&mut archive, Some("test1234"));
    let mut archive = AlzArchive::from_bytes(sample(0, 0, Some("test1234"))).unwrap();
    verify(&mut archive, Some("test1234"));
}

#[test]
fn encrypted_wrong_password() {
    let mut archive = AlzArchive::from_bytes(sample(2, 6, Some("test1234"))).unwrap();
    let mut out = Vec::new();
    let mut log = String::new();
    let result = extract_all(&mut archive, Some("wrong"), false, &mut out, &mut log);
    assert!(result.is_err());
}

#[test]
fn encrypted_without_password() {
    let mut archive = AlzArchive::from_bytes(sample(0, 0, Some("test1234"))).unwrap();
    let mut out = Vec::new();
    let mut log = String::new();
    let result = extract_all(&mut archive, None, false, &mut out, &mut log);
    assert!(matches!(result, Err(AlzError::PasswordNotSet)));
    assert!(out.is_empty());
    let result = extract_all(&mut archive, Some("wrong"), false, &mut out, &mut log);
    assert!(matches!(result, Err(AlzError::InvalidPassword)));
    assert!(out.is_empty());
}

#[test]
fn a_password_beyond_ascii_counts_as_cp949() {
    let plain = b"some text".to_vec();
    let data = archive_of(&[Item {
        name: b"a.txt",
        attribute: ATTR_ARCHIVE,
        method: 0,
        stored: plain.clone(),
        plain: &plain,
        password: Some(b"\xc7\xd1\xb1\xdb"),
    }]);
    let mut archive = AlzArchive::from_bytes(data).unwrap();
    assert_eq!(extract_one(&mut archive, "a.txt", Some("한글")), plain);
}

// --- Split (multi-volume) ---

/// The split archive carries a 10 MB variant of large.txt.
const SPLIT_LARGE: usize = 10_485_774;

fn split_sample() -> Vec<Vec<u8>> {
    let mut plain = contents();
    plain[4] = content(4, SPLIT_LARGE);
    let names = names();
    let items: Vec<Item> = plain
        .iter()
        .zip(&names)
        .map(|(data, name)| Item {
            name,
            attribute: ATTR_ARCHIVE,
            method: if data.is_empty() { 0 } else { 2 },
            stored: if data.is_empty() { Vec::new() } else { deflated(data, 6) },
            plain: data,
            password: None,
        })
        .collect();
    split(&archive_of(&items), 1_000_000)
}

#[test]
fn split_list() {
    let volumes = split_sample();
    assert!(volumes.len() > 2);
    let archive = AlzArchive::open("split.alz", volumes).unwrap();
    assert_eq!(archive.entries.len(), 10);
    // large.txt should be 10MB in split archive
    let large = archive
        .entries
        .iter()
        .find(|e| e.file_name == "large.txt")
        .unwrap();
    assert_eq!(large.uncompressed_size, 10485774);
}

#[test]
fn split_extract() {
    let mut archive = AlzArchive::open("split.alz", split_sample()).unwrap();
    for (i, (name, len)) in SOURCE.iter().enumerate().filter(|(_, (n, _))| *n != "large.txt") {
        assert_eq!(extract_one(&mut archive, name, None), content(i, *len), "{name}");
    }
    let large = extract_one(&mut archive, "large.txt", None);
    assert_eq!(large.len() as u64, 10_485_774);
    assert!(large == content(4, SPLIT_LARGE));
}

#[test]
fn any_split_extracts_as_the_whole() {
    let mut archive = AlzArchive::open("split.alz", split(&sample(2, 6, None), 10_000)).unwrap();
    verify(&mut archive, None);
    let mut archive = AlzArchive::open("split.alz", split(&sample(0, 0, None), 777)).unwrap();
    verify(&mut archive, None);
}

// --- Edge cases ---

#[test]
fn empty_file() {
    let mut archive = AlzArchive::from_bytes(sample(0, 0, None)).unwrap();
    let empty = extract_one(&mut archive, "empty.txt", None);
    assert!(empty.is_empty());
}

#[test]
fn cp949_extended_filename() {
    let archive = AlzArchive::from_bytes(sample(0, 0, None)).unwrap();
    // 뷁 is a CP949-only character not in EUC-KR
    assert!(archive.entries.iter().any(|e| e.file_name.contains("뷁")));
}

#[test]
fn nested_directories() {
    let mut archive = AlzArchive::from_bytes(sample(0, 0, None)).unwrap();
    let deep = archive
        .entries
        .iter()
        .find(|e| e.file_name == "subdir/nested/deep.txt")
        .unwrap()
        .clone();
    let (path, _) = prepare_entry(&deep, None).unwrap();
    assert_eq!(path, "subdir/nested/deep.txt");
    assert_eq!(extract_one(&mut archive, "subdir/nested/deep.txt", None).len(), 20);
}

#[test]
fn unsafe_components_are_rejected() {
    // Callers normalize '\\' to '/' before this check.
    for p in ["../etc", "a/../../b", "..", "a/..", "/etc/passwd"] {
        assert!(has_unsafe_components(p), "should reject {p}");
    }
    for p in ["a/b/c.txt", "한글.txt", "deep/dir/file", "a.b/c"] {
        assert!(!has_unsafe_components(p), "should allow {p}");
    }
}

#[test]
fn drives_are_rejected_and_dots_are_not() {
    for p in ["C:", "c:/x", "Z:file"] {
        assert!(has_unsafe_components(p), "should reject {p}");
    }
    for p in ["", "...", "a..b", "..a/b", "a/b..", "1:x", "."] {
        assert!(!has_unsafe_components(p), "should allow {p}");
    }
}

fn one(name: &'static [u8], attribute: u8, method: u8, data: &[u8]) -> Vec<u8> {
    archive_of(&[Item { name, attribute, method, stored: data.to_vec(), plain: data, password: None }])
}

#[test]
fn backslashes_separate_components() {
    let archive = AlzArchive::from_bytes(one(b"dir\\file.txt", 0, 0, b"x")).unwrap();
    let (path, cipher) = prepare_entry(&archive.entries[0], None).unwrap();
    assert_eq!(path, "dir/file.txt");
    assert!(cipher.is_none());
    let mut archive = AlzArchive::from_bytes(one(b"..\\up.txt", 0, 0, b"x")).unwrap();
    let entry = archive.entries[0].clone();
    let mut out = Vec::new();
    match extract_entry(&mut archive, &entry, None, &mut out) {
        Err(AlzError::PathTraversal(name)) => assert_eq!(name, "../up.txt"),
        _ => panic!("expected an error"),
    }
    assert!(out.is_empty());
}

#[test]
fn a_directory_writes_nothing() {
    let mut archive = AlzArchive::from_bytes(one(b"dir", ATTR_DIRECTORY, 0, b"x")).unwrap();
    assert!(archive.entries[0].is_directory());
    assert!(extract_one(&mut archive, "dir", None).is_empty());
}

#[test]
fn an_unknown_method_is_an_error() {
    let mut archive = AlzArchive::from_bytes(one(b"f", 0, 9, b"x")).unwrap();
    assert_eq!(archive.entries[0].compression_method, CompressionMethod::Unknown(9));
    assert_eq!(archive.entries[0].compression_method.name(), "Unknown(9)");
    let entry = archive.entries[0].clone();
    let r = extract_entry(&mut archive, &entry, None, &mut Vec::new());
    assert!(matches!(r, Err(AlzError::UnknownCompressionMethod(9))));
}

#[test]
fn a_wrong_crc_is_an_error() {
    let mut archive = AlzArchive::from_bytes(one(b"f", 0, 0, b"data")).unwrap();
    let mut entry = archive.entries[0].clone();
    entry.file_crc = 1;
    let mut out = Vec::new();
    match extract_entry(&mut archive, &entry, None, &mut out) {
        Err(AlzError::InvalidFileCrc { expected, got }) => {
            assert_eq!(expected, 1);
            assert_eq!(got, crc32fast::hash(b"data"));
        }
        _ => panic!("expected an error"),
    }
    assert_eq!(out, b"data");
}

#[test]
fn more_than_the_declared_size_is_an_error() {
    for method in [0, 2] {
        let data = content(3, 5000);
        let stored = if method == 2 { deflated(&data, 6) } else { data.clone() };
        let bytes = archive_of(&[Item {
            name: b"f",
            attribute: 0,
            method,
            stored,
            plain: &data,
            password: None,
        }]);
        let mut archive = AlzArchive::from_bytes(bytes).unwrap();
        let mut entry = archive.entries[0].clone();
        entry.uncompressed_size = 4999;
        let mut out = Vec::new();
        let r = extract_entry(&mut archive, &entry, None, &mut out);
        assert!(matches!(r, Err(AlzError::UncompressedSizeExceeded { limit: 4999 })));
        assert!(out.len() <= 4999);
    }
}

#[test]
fn files_are_extracted_by_name() {
    let mut archive = AlzArchive::from_bytes(sample(0, 0, None)).unwrap();
    let names = vec!["hello.txt".to_string(), "nothing".to_string(), "subdir/inner.txt".to_string()];
    let mut out = Vec::new();
    let mut log = String::new();
    let all = extract_files(&mut archive, &names, None, true, &mut out, &mut log).unwrap();
    assert!(!all);
    assert_eq!(out, [content(3, 131), content(8, 28)].concat());
    assert_eq!(
        log,
        "\nextracting : hello.txt (131bytes) .. ok\nfilename not matched : nothing\n\
         \nextracting : subdir/inner.txt (28bytes) .. ok"
    );
    let mut log = String::new();
    let names = vec!["hello.txt".to_string()];
    assert!(extract_files(&mut archive, &names, None, false, &mut out, &mut log).unwrap());
    assert_eq!(log, "");
}

#[test]
fn the_first_entry_with_a_name_counts() {
    let items = [
        Item { name: b"f", attribute: 0, method: 0, stored: b"one".to_vec(), plain: b"one", password: None },
        Item { name: b"f", attribute: 0, method: 0, stored: b"two".to_vec(), plain: b"two", password: None },
    ];
    let mut archive = AlzArchive::from_bytes(archive_of(&items)).unwrap();
    let mut out = Vec::new();
    let names = vec!["f".to_string()];
    assert!(extract_files(&mut archive, &names, None, false, &mut out, &mut String::new()).unwrap());
    assert_eq!(out, b"one");
}

// --- Truncation ---

#[test]
fn a_cut_inside_data_keeps_the_complete_files() {
    let whole = sample(0, 0, None);
    let full = AlzArchive::from_bytes(whole.clone()).unwrap();
    let large = &full.entries[4];
    let cut = large.data_pos as usize + 70_000;
    let mut archive = AlzArchive::from_bytes(whole[..cut].to_vec()).unwrap();
    assert!(archive.truncated);
    assert_eq!(archive.entries.len(), 5);
    let mut out = Vec::new();
    let mut log = String::new();
    let all = extract_all(&mut archive, None, false, &mut out, &mut log).unwrap();
    assert!(!all);
    assert_eq!(
        log,
        "\nwarning: archive truncated after 4 of 5 files (missing split volume?); \
         kept the complete files\n"
    );
    let complete = contents()[..4].concat();
    assert_eq!(&out[..complete.len()], &complete[..]);
    let names = vec!["large.txt".to_string()];
    let mut log = String::new();
    assert!(!extract_files(&mut archive, &names, None, true, &mut out, &mut log).unwrap());
    assert_eq!(
        log,
        "\nextracting : large.txt (131364bytes) \
         \nwarning: large.txt is truncated (missing split volume?); its data is incomplete\n"
    );
}

#[test]
fn a_cut_inside_deflated_data_is_truncation_too() {
    let whole = sample(2, 6, None);
    let full = AlzArchive::from_bytes(whole.clone()).unwrap();
    let large = &full.entries[4];
    let cut = (large.data_pos + large.compressed_size / 2) as usize;
    let mut archive = AlzArchive::from_bytes(whole[..cut].to_vec()).unwrap();
    let mut out = Vec::new();
    let mut log = String::new();
    assert!(!extract_all(&mut archive, None, false, &mut out, &mut log).unwrap());
    let complete = contents()[..4].concat();
    assert_eq!(&out[..complete.len()], &complete[..]);
}

#[test]
fn a_cut_inside_a_header_keeps_the_complete_files() {
    let whole = sample(0, 0, None);
    let full = AlzArchive::from_bytes(whole.clone()).unwrap();
    // Anywhere between the data of two entries.
    let from = (full.entries[7].data_pos + full.entries[7].compressed_size) as usize;
    for cut in from..full.entries[8].data_pos as usize {
        let mut archive = AlzArchive::from_bytes(whole[..cut].to_vec()).unwrap();
        assert!(archive.truncated);
        assert_eq!(archive.entries.len(), 8);
        let mut out = Vec::new();
        let mut log = String::new();
        assert!(!extract_all(&mut archive, None, false, &mut out, &mut log).unwrap());
        assert_eq!(out, contents()[..8].concat());
        assert_eq!(
            log,
            "\nwarning: archive truncated (missing split volume?); kept the 8 complete files\n"
        );
    }
}

#[test]
fn a_missing_volume_keeps_the_complete_files() {
    let volumes = split(&sample(0, 0, None), 50_000);
    assert_eq!(volumes.len(), 3);
    let mut archive = AlzArchive::open("x.alz", volumes[..2].to_vec()).unwrap();
    assert!(archive.truncated);
    assert_eq!(archive.entries.len(), 5);
    let mut out = Vec::new();
    assert!(!extract_all(&mut archive, None, false, &mut out, &mut String::new()).unwrap());
    let complete = contents()[..4].concat();
    assert_eq!(&out[..complete.len()], &complete[..]);
}

#[test]
fn corrupt_deflate_data_is_an_error() {
    let mut archive = AlzArchive::from_bytes(one(b"f", 0, 2, &[0xff; 40])).unwrap();
    let entry = archive.entries[0].clone();
    match extract_entry(&mut archive, &entry, None, &mut Vec::new()) {
        Err(AlzError::InflateFailed(message)) => assert_eq!(message, "corrupt deflate stream"),
        _ => panic!("expected an error"),
    }
}

#[test]
fn a_cut_inside_bzip2_data_is_truncation_too() {
    // A block whose end is missing.
    let data = one(b"f", 0, 1, b"DLZ\x01 some bits of a block");
    let cut = data.len() - 24;
    let mut archive = AlzArchive::from_bytes(data[..cut].to_vec()).unwrap();
    let entry = archive.entries[0].clone();
    let e = extract_entry(&mut archive, &entry, None, &mut Vec::new()).unwrap_err();
    assert!(e.is_truncation());
    // The same bits with nothing missing are no block.
    let mut archive = AlzArchive::from_bytes(data).unwrap();
    let r = extract_entry(&mut archive, &entry, None, &mut Vec::new());
    assert!(matches!(r, Err(AlzError::Bzip2Failed(_))));
}

#[test]
fn entries_are_in_the_order_of_their_data() {
    let archive = AlzArchive::from_bytes(sample(2, 6, Some("pw"))).unwrap();
    for pair in archive.entries.windows(2) {
        assert!(pair[0].data_pos + pair[0].compressed_size + 14 <= pair[1].data_pos);
    }
}

#[test]
fn the_cipher_moves_on_over_what_it_decrypts() {
    let archive = AlzArchive::from_bytes(one(b"f", 0, 9, b"some data")).unwrap();
    let mut entry = archive.entries[0].clone();
    let data = b"some data";
    let moved = |n: usize| {
        let mut c = ZipCrypto::new(b"pw");
        c.decrypt(&mut data[..n].to_vec());
        c.key
    };
    // An unknown method leaves the cipher alone.
    let mut c = ZipCrypto::new(b"pw");
    assert!(decompress_to(data, &mut Vec::new(), &entry, 9, Some(&mut c)).is_err());
    assert_eq!(c.key, moved(0));
    for method in [CompressionMethod::Store, CompressionMethod::Bzip2, CompressionMethod::Deflate] {
        entry.compression_method = method;
        let mut c = ZipCrypto::new(b"pw");
        let _ = decompress_to(data, &mut Vec::new(), &entry, 9, Some(&mut c));
        assert_eq!(c.key, moved(9), "{method:?}");
    }
}

#[test]
fn check_headers_are_on_encrypted_entries() {
    let archive = AlzArchive::from_bytes(sample(2, 6, Some("pw"))).unwrap();
    for entry in &archive.entries {
        assert_eq!(entry.enc_check.is_some(), entry.is_encrypted());
    }
}

/// Trailers that a volume may have in front of the next one.
fn trailers() -> Vec<[u8; 16]> {
    let mut split = [0; 16];
    split[..4].copy_from_slice(b"CLZ\x01");
    split[12..].copy_from_slice(b"CLZ\x03");
    let mut entry = [0xff; 16];
    entry[..4].copy_from_slice(b"BLZ\x01");
    vec![[0; 16], [0xff; 16], split, entry]
}

#[test]
fn volumes_may_end_anywhere() {
    // Whatever the last volume that is there ends in, the set opens, and what
    // is complete in it is kept.
    let whole = sample(0, 0, None);
    let full = AlzArchive::from_bytes(whole.clone()).unwrap();
    for trailer in trailers() {
        for cut in 4..2500 {
            let first = [&whole[..cut], &trailer[..]].concat();
            let mut archive = AlzArchive::open("x.alz", vec![first]).unwrap();
            assert!(archive.truncated, "cut at {cut}");
            let mut complete = 0;
            for (i, e) in full.entries.iter().enumerate() {
                if e.data_pos <= cut as u64 {
                    assert_eq!(archive.entries[i].file_name, e.file_name);
                    assert_eq!(archive.entries[i].data_pos, e.data_pos);
                }
                if e.data_pos + e.compressed_size <= cut as u64 {
                    complete = i + 1;
                }
            }
            let mut out = Vec::new();
            let r = extract_all(&mut archive, None, false, &mut out, &mut String::new());
            assert!(!matches!(r, Ok(true)));
            let files = contents()[..complete].concat();
            assert_eq!(&out[..files.len()], &files[..]);
        }
    }
}

#[test]
fn data_that_ends_in_a_trailer_is_truncation() {
    let data = b"exactly twenty bytes".to_vec();
    for (method, stored) in [(0, data.clone()), (2, deflated(&data, 6))] {
        let whole = archive_of(&[Item {
            name: b"f",
            attribute: 0,
            method,
            stored: stored.clone(),
            plain: &data,
            password: None,
        }]);
        let start = AlzArchive::from_bytes(whole.clone()).unwrap().entries[0].data_pos as usize;
        // All but the last bytes of the data are there; the trailer reads as
        // the rest of it.
        for missing in 1..stored.len() {
            let cut = start + stored.len() - missing;
            for trailer in trailers() {
                let first = [&whole[..cut], &trailer[..]].concat();
                let mut archive = AlzArchive::open("x.alz", vec![first]).unwrap();
                let mut log = String::new();
                let r = extract_all(&mut archive, None, false, &mut Vec::new(), &mut log);
                assert!(
                    matches!(r, Ok(false) | Err(AlzError::UncompressedSizeExceeded { .. })),
                    "{missing} bytes missing"
                );
            }
        }
    }
}

#[test]
fn a_split_marker_at_the_end_says_that_a_volume_is_missing() {
    let whole = sample(0, 0, None);
    let records = whole.len() - 20;
    for (marker, truncated) in [(b"CLZ\x02", false), (b"CLZ\x03", true), (b"\0\0\0\0", false)] {
        let mut data = whole[..records].to_vec();
        data.extend(b"CLZ\x01\0\0\0\0\0\0\0\0");
        data.extend(marker);
        let a = AlzArchive::from_bytes(data.clone()).unwrap();
        assert_eq!((a.truncated, a.entries.len()), (truncated, 10));
        let a = AlzArchive::open("x.alz", vec![data]).unwrap();
        assert_eq!((a.truncated, a.entries.len()), (truncated, 10));
    }
}

#[test]
fn broken_data_is_still_an_error() {
    let whole = sample(0, 0, None);
    let records = whole.len() - 20;
    // Broken in front of the last sixteen bytes.
    let data = [&whole[..records], &b"what"[..], &[0; 16][..]].concat();
    let r = AlzArchive::open("x.alz", vec![data]);
    assert!(matches!(r, Err(AlzError::CorruptedFile)));
    // Bytes that are not from a file have no trailer.
    let data = [&whole[..records], &[0; 16][..]].concat();
    assert!(matches!(AlzArchive::from_bytes(data.clone()), Err(AlzError::CorruptedFile)));
    assert!(AlzArchive::open("x.alz", vec![data]).unwrap().truncated);
    // Without the header of an archive it is none.
    let r = AlzArchive::open("x.alz", vec![b"hello".to_vec()]);
    assert!(matches!(r, Err(AlzError::NotAlzFile)));
    // A wrong CRC is an error where all the data is there.
    let mut data = whole.clone();
    data[8 + 4 + 9 + 2] ^= 1;
    let mut archive = AlzArchive::open("x.alz", vec![data]).unwrap();
    let r = extract_all(&mut archive, None, false, &mut Vec::new(), &mut String::new());
    assert!(matches!(r, Err(AlzError::InvalidFileCrc { .. })));
}

#[test]
fn corrupt_deflate_data_that_is_cut_is_truncation() {
    let data = one(b"f", 0, 2, &[0xff; 40]);
    let cut = data.len() - 30;
    let mut archive = AlzArchive::from_bytes(data[..cut].to_vec()).unwrap();
    let mut log = String::new();
    let r = extract_all(&mut archive, None, false, &mut Vec::new(), &mut log);
    assert!(matches!(r, Ok(false)));
    assert_eq!(
        log,
        "\nwarning: archive truncated after 0 of 1 files (missing split volume?); \
         kept the complete files\n"
    );
}
