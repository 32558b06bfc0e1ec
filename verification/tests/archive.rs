use unalz::archive::{
    archive_totals, le_number, max_entries_for, AlzArchive, AlzFileEntry, CompressionMethod,
};
use unalz::error::AlzError;

fn entry(uncompressed: u64, compressed: u64) -> AlzFileEntry {
    AlzFileEntry {
        file_name: String::new(),
        file_attribute: 0,
        file_time_date: 0,
        file_descriptor: 0,
        compression_method: CompressionMethod::Store,
        file_crc: 0,
        compressed_size: compressed,
        uncompressed_size: uncompressed,
        data_pos: 0,
        enc_check: None,
    }
}

#[test]
fn totals_saturate_instead_of_overflowing() {
    // Two u64::MAX entries must not panic under overflow-checks.
    let entries = [entry(u64::MAX, u64::MAX), entry(u64::MAX, u64::MAX)];
    let (u, c, n) = archive_totals(&entries);
    assert_eq!(u, u64::MAX);
    assert_eq!(c, u64::MAX);
    assert_eq!(n, 2);
}

#[test]
fn totals_normal() {
    let entries = [entry(100, 40), entry(200, 60)];
    assert_eq!(archive_totals(&entries), (300, 100, 2));
}

#[test]
fn entry_cap_bounds() {
    // Tiny archive: the physical bound dominates.
    assert_eq!(max_entries_for(0), 16);
    assert_eq!(max_entries_for(1400), 1400 / 14 + 16);
    // Huge archive: the absolute ceiling dominates.
    assert_eq!(max_entries_for(u64::MAX), 1_000_000);
    assert_eq!(max_entries_for(1_000_000_000), 1_000_000);
}

#[test]
fn descriptor_and_attribute_bits() {
    let mut e = entry(0, 0);
    assert!(!e.is_encrypted() && !e.is_directory() && !e.is_symlink() && !e.has_data_descriptor());
    e.file_descriptor = 0x01;
    assert!(e.is_encrypted() && !e.has_data_descriptor());
    e.file_descriptor = 0x08;
    assert!(!e.is_encrypted() && e.has_data_descriptor());
    e.file_attribute = 0x10;
    assert!(e.is_directory() && !e.is_symlink());
    e.file_attribute = 0x40;
    assert!(!e.is_directory() && e.is_symlink());
}

#[test]
fn method_names() {
    assert_eq!(CompressionMethod::Store.name(), "Store");
    assert_eq!(CompressionMethod::Bzip2.name(), "BZip2");
    assert_eq!(CompressionMethod::Deflate.name(), "Deflate");
    assert_eq!(CompressionMethod::Unknown(200).name(), "Unknown(200)");
}

#[test]
fn numbers_are_little_endian() {
    assert_eq!(le_number(&[]), 0);
    assert_eq!(le_number(&[0x41, 0x4c, 0x5a, 0x01]), 0x015a4c41);
    assert_eq!(le_number(&[0xff; 8]), u64::MAX);
}

fn header(name: &[u8], descriptor: u8, fields: &[u8]) -> Vec<u8> {
    let mut out = b"BLZ\x01".to_vec();
    out.extend((name.len() as u16).to_le_bytes());
    out.push(0x20);
    out.extend(0x4E8C2209u32.to_le_bytes());
    out.push(descriptor);
    out.push(0);
    out.extend(fields);
    out.extend(name);
    out
}

fn archive(records: &[u8]) -> Vec<u8> {
    [b"ALZ\x01\x0a\x00\x00\x00", records].concat()
}

/// End of an archive whose tail declares a comment section of `size` bytes.
fn ending(size: u32) -> Vec<u8> {
    let mut out = b"CLZ\x01".to_vec();
    out.extend([0; 4]);
    out.extend(size.to_le_bytes());
    out.extend([0; 4]);
    out.extend(b"CLZ\x02");
    out
}

#[test]
fn every_size_width_is_read() {
    for (width, bits) in [(1usize, 0x10u8), (2, 0x20), (4, 0x40), (8, 0x80)] {
        let mut fields = vec![2, 0, 0x78, 0x56, 0x34, 0x12];
        fields.extend(&[3u8, 0, 0, 0, 0, 0, 0, 0][..width]);
        fields.extend(&[200u8, 0, 0, 0, 0, 0, 0, 0][..width]);
        let mut records = header(b"n", bits, &fields);
        records.extend(b"abc");
        records.extend(ending(0));
        let a = AlzArchive::from_bytes(archive(&records)).unwrap();
        assert_eq!(a.entries.len(), 1);
        let e = &a.entries[0];
        assert_eq!(e.file_name, "n");
        assert_eq!(e.file_attribute, 0x20);
        assert_eq!(e.file_time_date, 0x4E8C2209);
        assert_eq!(e.compression_method, CompressionMethod::Deflate);
        assert_eq!(e.file_crc, 0x12345678);
        assert_eq!(e.compressed_size, 3);
        assert_eq!(e.uncompressed_size, 200);
        assert_eq!(e.data_pos, 8 + 4 + 9 + 6 + 2 * width as u64 + 1);
        assert!(e.enc_check.is_none());
        assert!(!a.truncated && !a.is_encrypted && !a.is_data_descr);
    }
}

#[test]
fn an_entry_without_sizes_is_empty() {
    let records = [header(b"n", 0x08, &[]), ending(0)].concat();
    let a = AlzArchive::from_bytes(archive(&records)).unwrap();
    let e = &a.entries[0];
    assert_eq!(e.compression_method, CompressionMethod::Store);
    assert_eq!((e.file_crc, e.compressed_size, e.uncompressed_size), (0, 0, 0));
    assert!(a.is_data_descr);
}

#[test]
fn an_encrypted_entry_has_its_check_header() {
    let mut records = header(b"n", 0x11, &[0, 0, 0, 0, 0, 0, 0, 0]);
    records.extend(1..=12u8);
    records.extend(ending(0));
    let a = AlzArchive::from_bytes(archive(&records)).unwrap();
    assert_eq!(a.entries[0].enc_check, Some([1, 2, 3, 4, 5, 6, 7, 8, 9, 10, 11, 12]));
    assert!(a.is_encrypted);
}

#[test]
fn bad_headers_are_errors() {
    let r = AlzArchive::from_bytes(archive(&header(b"n", 0x30, &[])));
    assert!(matches!(r, Err(AlzError::InvalidSizeFieldWidth(0x30))));
    let r = AlzArchive::from_bytes(archive(&header(b"", 0, &[])));
    assert!(matches!(r, Err(AlzError::InvalidFilenameLength)));
    let r = AlzArchive::from_bytes(archive(&header(&[b'x'; 4097], 0, &[])));
    assert!(matches!(r, Err(AlzError::InvalidFilenameLength)));
    assert!(AlzArchive::from_bytes(archive(&header(&[b'x'; 4096], 0, &[]))).is_ok());
    let mut fields = vec![0; 6];
    fields.extend([0xff; 8]);
    fields.extend([0; 8]);
    let r = AlzArchive::from_bytes(archive(&header(b"n", 0x80, &fields)));
    assert!(matches!(r, Err(AlzError::CorruptedFile)));
}

#[test]
fn other_files_are_told_from_broken_ones() {
    assert!(matches!(AlzArchive::from_bytes(b"PK\x03\x04....".to_vec()), Err(AlzError::NotAlzFile)));
    let r = AlzArchive::from_bytes(archive(b"what"));
    assert!(matches!(r, Err(AlzError::CorruptedFile)));
}

#[test]
fn comments_and_split_markers_are_skipped() {
    let mut records = b"ELZ\x01comment".to_vec();
    records.extend(b"CLZ\x03");
    records.extend(header(b"n", 0, &[]));
    records.extend(ending(11));
    let a = AlzArchive::from_bytes(archive(&records)).unwrap();
    assert_eq!(a.entries.len(), 1);
    assert!(!a.truncated);
    // Without its size the comment is taken for records.
    let mut records = b"ELZ\x01comment".to_vec();
    records.extend(ending(0));
    assert!(matches!(AlzArchive::from_bytes(archive(&records)), Err(AlzError::CorruptedFile)));
}

#[test]
fn too_many_entries_are_an_error() {
    let mut records = Vec::new();
    for _ in 0..1_000_000 {
        records.extend(header(b"n", 0, &[]));
    }
    let a = AlzArchive::from_bytes(archive(&[&records[..], &ending(0)[..]].concat())).unwrap();
    assert_eq!(a.entries.len(), 1_000_000);
    records.extend(header(b"n", 0, &[]));
    records.extend(ending(0));
    assert!(matches!(AlzArchive::from_bytes(archive(&records)), Err(AlzError::TooManyEntries)));
}

#[test]
fn an_archive_of_entries_alone_is_never_too_many() {
    let mut records = Vec::new();
    for _ in 0..5000 {
        records.extend(header(b"n", 0, &[]));
    }
    let a = AlzArchive::from_bytes(records).unwrap();
    assert_eq!(a.entries.len(), 5000);
    assert!(a.truncated);
}

#[test]
fn no_data_is_a_truncated_archive() {
    let a = AlzArchive::from_bytes(Vec::new()).unwrap();
    assert!(a.truncated && a.entries.is_empty());
}

#[test]
fn an_archive_is_complete_behind_its_central_directory() {
    let mut records = header(b"n", 0, &[]);
    let entry = 8 + records.len();
    records.extend(ending(0));
    let whole = archive(&records);
    // The end marker behind the directory need not be there.
    for cut in 0..=whole.len() {
        let a = AlzArchive::from_bytes(whole[..cut].to_vec()).unwrap();
        assert_eq!(a.truncated, cut < entry + 16, "cut at {cut}");
        assert_eq!(a.entries.len(), if cut < entry { 0 } else { 1 });
    }
}
