//! ALZ archive parsing: signatures, headers, and the file entry list.
use crate::crypto::ENCR_HEADER_LEN;
use crate::encoding::cp949_to_utf8;
use crate::error::{AlzError, AlzResult};
use crate::multivolume;
use crate::multivolume::{MultiVolumeReader, SeekFrom};
use crate::text;
use vstd::prelude::*;

verus! {

// ALZ signatures (little-endian u32)
pub const SIG_ALZ_FILE_HEADER: u32 = 0x015a4c41;  // "ALZ\x01"

pub const SIG_LOCAL_FILE_HEADER: u32 = 0x015a4c42;  // "BLZ\x01"

pub const SIG_CENTRAL_DIRECTORY: u32 = 0x015a4c43;  // "CLZ\x01"

pub const SIG_END_OF_CENTRAL_DIR: u32 = 0x025a4c43;  // "CLZ\x02"

pub const SIG_COMMENT: u32 = 0x015a4c45;  // "ELZ\x01"

pub const SIG_SPLIT_MARKER: u32 = 0x035a4c43;  // "CLZ\x03"

// File descriptor flags
pub const DESC_ENCRYPTED: u8 = 0x01;

pub const DESC_DATA_DESCR: u8 = 0x08;

// Entry attribute flags
pub const ATTR_READONLY: u8 = 0x01;

pub const ATTR_HIDDEN: u8 = 0x02;

pub const ATTR_SYSTEM: u8 = 0x04;

pub const ATTR_DIRECTORY: u8 = 0x10;

pub const ATTR_ARCHIVE: u8 = 0x20;

pub const ATTR_SYMLINK: u8 = 0x40;

/// The longest entry name, in bytes.
pub const MAX_NAME_LEN: usize = 4096;

/// The fewest bytes an entry takes: its signature, the fixed part of its
/// header and a name of one byte.
pub const MIN_ENTRY_ON_DISK: u64 = 14;

/// The most entries an archive of any size may have.
pub const MAX_ENTRIES: u64 = 1_000_000;

/// Compression method of an entry.
#[derive(Debug, Clone, Copy, PartialEq, Eq, Structural)]
pub enum CompressionMethod {
    /// No compression (method byte 0).
    Store,
    /// ALZ-modified bzip2 (method byte 1).
    Bzip2,
    /// Raw DEFLATE (method byte 2).
    Deflate,
    /// Unrecognized method byte.
    Unknown(u8),
}

/// The method that a method byte stands for.
pub open spec fn method_of(b: u8) -> CompressionMethod {
    if b == 0 {
        CompressionMethod::Store
    } else if b == 1 {
        CompressionMethod::Bzip2
    } else if b == 2 {
        CompressionMethod::Deflate
    } else {
        CompressionMethod::Unknown(b)
    }
}

impl CompressionMethod {
    /// The name of the method, for display.
    pub open spec fn label(self) -> Seq<char> {
        match self {
            CompressionMethod::Store => "Store"@,
            CompressionMethod::Bzip2 => "BZip2"@,
            CompressionMethod::Deflate => "Deflate"@,
            CompressionMethod::Unknown(n) => "Unknown("@ + text::decimal(n as nat) + ")"@,
        }
    }

    fn from_byte(b: u8) -> (m: Self)
        ensures
            m == method_of(b),
    {
        match b {
            0 => Self::Store,
            1 => Self::Bzip2,
            2 => Self::Deflate,
            n => Self::Unknown(n),
        }
    }

    /// The name of the method, for display.
    pub fn name(&self) -> (s: String)
        ensures
            s@ == self.label(),
    {
        match self {
            Self::Store => String::from_str("Store"),
            Self::Bzip2 => String::from_str("BZip2"),
            Self::Deflate => String::from_str("Deflate"),
            Self::Unknown(n) => {
                let mut s: String = String::from_str("Unknown(");
                text::push_number(&mut s, *n as u64, 10, 0, '0');
                s.append(")");
                s
            },
        }
    }
}

/// One file entry from the archive's local file headers.
#[derive(Debug, Clone)]
pub struct AlzFileEntry {
    /// Entry path, decoded from CP949 to UTF-8.
    pub file_name: String,
    /// `ATTR_*` attribute bits.
    pub file_attribute: u8,
    /// DOS packed modification date/time.
    pub file_time_date: u32,
    /// Descriptor bits (encryption, data descriptor).
    pub file_descriptor: u8,
    pub compression_method: CompressionMethod,
    /// CRC-32 of the uncompressed data.
    pub file_crc: u32,
    /// Size of the stored (compressed) data in bytes.
    pub compressed_size: u64,
    /// Declared size of the uncompressed data in bytes.
    pub uncompressed_size: u64,
    /// Offset of the entry data in the (virtual, joined) archive stream.
    pub data_pos: u64,
    /// Encryption check header, present on encrypted entries.
    pub enc_check: Option<[u8; ENCR_HEADER_LEN]>,
}

/// The model of an entry.
pub struct EntryView {
    pub file_name: Seq<char>,
    pub file_attribute: u8,
    pub file_time_date: u32,
    pub file_descriptor: u8,
    pub compression_method: CompressionMethod,
    pub file_crc: u32,
    pub compressed_size: u64,
    pub uncompressed_size: u64,
    pub data_pos: u64,
    pub enc_check: Option<Seq<u8>>,
}

impl EntryView {
    pub open spec fn is_encrypted(self) -> bool {
        self.file_descriptor & DESC_ENCRYPTED != 0
    }

    pub open spec fn is_directory(self) -> bool {
        self.file_attribute & ATTR_DIRECTORY != 0
    }

    pub open spec fn is_symlink(self) -> bool {
        self.file_attribute & ATTR_SYMLINK != 0
    }

    pub open spec fn has_data_descriptor(self) -> bool {
        self.file_descriptor & DESC_DATA_DESCR != 0
    }
}

impl View for AlzFileEntry {
    type V = EntryView;

    open spec fn view(&self) -> EntryView {
        EntryView {
            file_name: self.file_name@,
            file_attribute: self.file_attribute,
            file_time_date: self.file_time_date,
            file_descriptor: self.file_descriptor,
            compression_method: self.compression_method,
            file_crc: self.file_crc,
            compressed_size: self.compressed_size,
            uncompressed_size: self.uncompressed_size,
            data_pos: self.data_pos,
            enc_check: match self.enc_check {
                Some(header) => Some(header@),
                None => None,
            },
        }
    }
}

impl AlzFileEntry {
    pub fn is_encrypted(&self) -> (b: bool)
        ensures
            b == self@.is_encrypted(),
            b <==> self.file_descriptor & 1 != 0,
    {
        self.file_descriptor & DESC_ENCRYPTED != 0
    }

    pub fn is_directory(&self) -> (b: bool)
        ensures
            b == self@.is_directory(),
            b <==> self.file_attribute & 16 != 0,
    {
        self.file_attribute & ATTR_DIRECTORY != 0
    }

    pub fn is_symlink(&self) -> (b: bool)
        ensures
            b == self@.is_symlink(),
            b <==> self.file_attribute & 64 != 0,
    {
        self.file_attribute & ATTR_SYMLINK != 0
    }

    pub fn has_data_descriptor(&self) -> (b: bool)
        ensures
            b == self@.has_data_descriptor(),
            b <==> self.file_descriptor & 8 != 0,
    {
        self.file_descriptor & DESC_DATA_DESCR != 0
    }
}

/// The models of some entries.
pub open spec fn entry_views(entries: Seq<AlzFileEntry>) -> Seq<EntryView> {
    Seq::new(entries.len(), |i: int| entries[i]@)
}

/// Whether any entry is encrypted.
pub open spec fn any_encrypted(entries: Seq<EntryView>) -> bool {
    exists|i: int| 0 <= i < entries.len() && (#[trigger] entries[i]).is_encrypted()
}

/// Whether any entry uses a data descriptor.
pub open spec fn any_data_descriptor(entries: Seq<EntryView>) -> bool {
    exists|i: int| 0 <= i < entries.len() && (#[trigger] entries[i]).has_data_descriptor()
}

/// The number that some bytes hold, least significant byte first.
pub open spec fn le_value(bytes: Seq<u8>) -> nat
    decreases bytes.len(),
{
    if bytes.len() == 0 {
        0
    } else {
        bytes[0] as nat + 256 * le_value(bytes.drop_first())
    }
}

/// The number in the `n` bytes of the stream from `pos` on.
pub open spec fn number_at(stream: Seq<u8>, pos: nat, n: nat) -> nat {
    le_value(stream.subrange(pos as int, (pos + n) as int))
}

/// The width of the size fields that the upper bits of a descriptor declare.
pub open spec fn size_width(file_descriptor: u8) -> Option<nat> {
    let bits = file_descriptor & 0xF0;
    if bits == 0x00 {
        Some(0)
    } else if bits == 0x10 {
        Some(1)
    } else if bits == 0x20 {
        Some(2)
    } else if bits == 0x40 {
        Some(4)
    } else if bits == 0x80 {
        Some(8)
    } else {
        None
    }
}

/// What stands at a place of the stream where a record is due.
pub enum Record {
    /// The header of the archive.
    Start { next: nat },
    /// A file entry; the next record stands behind its data.
    Entry { entry: EntryView, next: nat },
    /// Any other record; a central directory that closes the archive is the
    /// last that there has to be.
    Other { next: nat, directory: bool },
    /// The end of the archive.
    End,
    /// The data ends inside the record.
    Cut,
    /// The record cannot be right, as the bytes before `at` show.
    Bad { error: crate::error::ErrorView, at: nat },
    /// No record starts like this.
    Alien,
}

/// What stands behind a record that takes the `len` bytes from `pos` on.
pub open spec fn fixed_record(stream: Seq<u8>, pos: nat, len: nat, whole: Record) -> Record {
    if pos + len > stream.len() {
        Record::Cut
    } else {
        whole
    }
}

/// A step of `len` bytes over what need not be there.
pub open spec fn skipped(pos: nat, len: nat) -> Record {
    if pos + len > u64::MAX {
        Record::Bad {
            error: crate::error::ErrorView::Io(crate::error::seek_range_error()),
            at: pos,
        }
    } else {
        Record::Other { next: pos + len, directory: false }
    }
}

/// The local file header whose fixed part starts at `pos`, behind its
/// signature: name length (2 bytes), attribute (1), time and date (4),
/// descriptor (1), one byte without meaning; where the descriptor declares a
/// width for sizes, method (1), one byte without meaning, CRC (4), compressed
/// and uncompressed size; then the name, the encryption header of an encrypted
/// entry, and the data.
#[verifier::opaque]
pub open spec fn local_header(stream: Seq<u8>, pos: nat) -> Record {
    let name_len = number_at(stream, pos, 2);
    let descriptor = stream[(pos + 7) as int];
    if pos + 9 > stream.len() {
        Record::Cut
    } else {
        match size_width(descriptor) {
            None => Record::Bad {
                error: crate::error::ErrorView::InvalidSizeFieldWidth(descriptor & 0xF0),
                at: pos + 9,
            },
            Some(width) => {
                let sized = width > 0;
                let name_pos: nat = if sized {
                    pos + 15 + 2 * width
                } else {
                    pos + 9
                };
                let encrypted = descriptor & DESC_ENCRYPTED != 0;
                let check_pos = name_pos + name_len;
                let data_pos: nat = if encrypted {
                    check_pos + ENCR_HEADER_LEN as nat
                } else {
                    check_pos
                };
                let compressed_size: nat = if sized {
                    number_at(stream, pos + 15, width)
                } else {
                    0
                };
                let uncompressed_size: nat = if sized {
                    number_at(stream, pos + 15 + width, width)
                } else {
                    0
                };
                if name_pos > stream.len() {
                    Record::Cut
                } else if name_len == 0 || name_len > MAX_NAME_LEN {
                    Record::Bad {
                        error: crate::error::ErrorView::InvalidFilenameLength,
                        at: name_pos,
                    }
                } else if data_pos > stream.len() {
                    Record::Cut
                } else if compressed_size > i64::MAX {
                    Record::Bad { error: crate::error::ErrorView::CorruptedFile, at: data_pos }
                } else if data_pos + compressed_size > u64::MAX {
                    Record::Bad {
                        error: crate::error::ErrorView::Io(crate::error::seek_range_error()),
                        at: data_pos,
                    }
                } else {
                    Record::Entry {
                        entry: EntryView {
                            file_name: crate::encoding::filename_text(
                                stream.subrange(name_pos as int, check_pos as int),
                            ),
                            file_attribute: stream[(pos + 2) as int],
                            file_time_date: number_at(stream, pos + 3, 4) as u32,
                            file_descriptor: descriptor,
                            compression_method: if sized {
                                method_of(stream[(pos + 9) as int])
                            } else {
                                CompressionMethod::Store
                            },
                            file_crc: if sized {
                                number_at(stream, pos + 11, 4) as u32
                            } else {
                                0
                            },
                            compressed_size: compressed_size as u64,
                            uncompressed_size: uncompressed_size as u64,
                            data_pos: data_pos as u64,
                            enc_check: if encrypted {
                                Some(stream.subrange(check_pos as int, data_pos as int))
                            } else {
                                None
                            },
                        },
                        next: data_pos + compressed_size,
                    }
                }
            },
        }
    }
}

/// Whether the central directory at `pos` closes the archive: it does not end
/// the stream with a split marker, behind which a volume is to follow.
pub open spec fn directory_closes(stream: Seq<u8>, pos: nat) -> bool {
    !(pos + 16 == stream.len() && number_at(stream, pos + 12, 4) == SIG_SPLIT_MARKER)
}

/// The record at `pos`. The size of the comment section, its signature
/// included, is not in the section itself.
pub open spec fn record_at(stream: Seq<u8>, comment_size: nat, pos: nat) -> Record {
    let sig = number_at(stream, pos, 4);
    let body = pos + 4;
    if body > stream.len() {
        Record::Cut
    } else if sig == SIG_ALZ_FILE_HEADER {
        fixed_record(stream, body, 4, Record::Start { next: body + 4 })
    } else if sig == SIG_LOCAL_FILE_HEADER {
        local_header(stream, body)
    } else if sig == SIG_CENTRAL_DIRECTORY {
        fixed_record(
            stream,
            body,
            12,
            Record::Other { next: body + 12, directory: directory_closes(stream, pos) },
        )
    } else if sig == SIG_END_OF_CENTRAL_DIR {
        Record::End
    } else if sig == SIG_COMMENT {
        if comment_size > 4 {
            skipped(body, (comment_size - 4) as nat)
        } else {
            Record::Other { next: body, directory: false }
        }
    } else if sig == SIG_SPLIT_MARKER {
        Record::Other { next: body, directory: false }
    } else {
        Record::Alien
    }
}

/// Whether a file entry is due at `pos`: its signature is there.
pub open spec fn entry_due(stream: Seq<u8>, pos: nat) -> bool {
    pos + 4 <= stream.len() && number_at(stream, pos, 4) == SIG_LOCAL_FILE_HEADER
}

/// What reading an archive gives: its entries and whether the data ended
/// before the end of the central directory, or an error.
pub type IndexView = Result<(Seq<EntryView>, bool), crate::error::ErrorView>;

pub open spec fn bytes_ahead(stream: Seq<u8>, pos: nat) -> nat {
    if pos < stream.len() {
        (stream.len() - pos) as nat
    } else {
        0
    }
}

/// What was seen of an archive, besides entries.
pub struct Seen {
    /// The header of the archive.
    pub start: bool,
    /// The central directory.
    pub directory: bool,
}

impl Seen {
    pub open spec fn with_start(self) -> Seen {
        Seen { start: true, ..self }
    }

    pub open spec fn with_directory(self, directory: bool) -> Seen {
        Seen { directory: self.directory || directory, ..self }
    }
}

/// At the front of an archive nothing was seen of it.
pub open spec fn nothing_seen() -> Seen {
    Seen { start: false, directory: false }
}

/// How an archive reads that is broken, as the bytes before `at` show: where
/// those are surely data that is an error, and else the end of the data.
pub open spec fn broken(
    error: crate::error::ErrorView,
    at: nat,
    solid: nat,
    seen: Seen,
    entries: Seq<EntryView>,
) -> IndexView {
    if seen.start && at > solid {
        Ok((entries, !seen.directory))
    } else {
        Err(error)
    }
}

/// The rest of the index, from the record at `pos` on, when `entries` were
/// found before it and `seen` tells what else was: only behind the archive
/// header is what follows a broken ALZ file rather than no ALZ file at all,
/// and only behind the central directory may the data end. What is broken
/// behind the part of the stream that is surely data is the trailer of a
/// volume: there the data ends.
pub open spec fn index_from(
    stream: Seq<u8>,
    solid: nat,
    comment_size: nat,
    max_entries: nat,
    pos: nat,
    seen: Seen,
    entries: Seq<EntryView>,
) -> IndexView
    decreases bytes_ahead(stream, pos),
{
    proof {
        lemma_record_advances(stream, comment_size, pos);
    }
    if entry_due(stream, pos) && entries.len() >= max_entries {
        broken(
            crate::error::ErrorView::TooManyEntries,
            pos + 4,
            solid,
            seen,
            entries,
        )
    } else {
        match record_at(stream, comment_size, pos) {
            Record::Start { next } => index_from(
                stream,
                solid,
                comment_size,
                max_entries,
                next,
                seen.with_start(),
                entries,
            ),
            Record::Entry { entry, next } => index_from(
                stream,
                solid,
                comment_size,
                max_entries,
                next,
                seen,
                entries.push(entry),
            ),
            Record::Other { next, directory } => index_from(
                stream,
                solid,
                comment_size,
                max_entries,
                next,
                seen.with_directory(directory),
                entries,
            ),
            Record::End => Ok((entries, false)),
            Record::Cut => Ok((entries, !seen.directory)),
            Record::Bad { error, at } => broken(error, at, solid, seen, entries),
            Record::Alien => broken(
                if seen.start {
                    crate::error::ErrorView::CorruptedFile
                } else {
                    crate::error::ErrorView::NotAlzFile
                },
                pos + 4,
                solid,
                seen,
                entries,
            ),
        }
    }
}

/// Every record takes up some of the stream, and an entry at least fourteen
/// bytes of it, before its data.
pub proof fn lemma_record_advances(stream: Seq<u8>, comment_size: nat, pos: nat)
    ensures
        match record_at(stream, comment_size, pos) {
            Record::Start { next } => pos + 4 <= stream.len() && next >= pos + 4,
            Record::Entry { entry, next } => pos + 14 <= stream.len() && next >= pos + 14,
            Record::Other { next, .. } => pos + 4 <= stream.len() && next >= pos + 4,
            _ => true,
        },
{
    reveal(local_header);
}

/// Whether an entry has an encryption header exactly where it is encrypted.
pub open spec fn header_fits(entry: EntryView) -> bool {
    &&& entry.enc_check is Some <==> entry.is_encrypted()
    &&& entry.enc_check matches Some(header) ==> header.len() == ENCR_HEADER_LEN
}

/// Every entry of an archive has an encryption header exactly where it is
/// encrypted.
pub proof fn lemma_encrypted_entries_have_headers(
    stream: Seq<u8>,
    solid: nat,
    tail: Seq<u8>,
    i: int,
)
    requires
        index(stream, solid, tail) is Ok,
        0 <= i < index(stream, solid, tail)->Ok_0.0.len(),
    ensures
        header_fits(index(stream, solid, tail)->Ok_0.0[i]),
{
    lemma_headers_from(
        stream,
        solid,
        comment_section_size(tail),
        entry_cap(stream.len()),
        0,
        nothing_seen(),
        Seq::empty(),
    );
}

proof fn lemma_headers_from(
    stream: Seq<u8>,
    solid: nat,
    comment_size: nat,
    max_entries: nat,
    pos: nat,
    seen: Seen,
    entries: Seq<EntryView>,
)
    requires
        forall|i: int| 0 <= i < entries.len() ==> header_fits(#[trigger] entries[i]),
    ensures
        index_from(stream, solid, comment_size, max_entries, pos, seen, entries) matches Ok(
            (all, _),
        ) ==> forall|i: int| 0 <= i < all.len() ==> header_fits(#[trigger] all[i]),
    decreases bytes_ahead(stream, pos),
{
    lemma_record_advances(stream, comment_size, pos);
    if entry_due(stream, pos) && entries.len() >= max_entries {
    } else {
        match record_at(stream, comment_size, pos) {
            Record::Start { next } => {
                lemma_headers_from(
                    stream,
                    solid,
                    comment_size,
                    max_entries,
                    next,
                    seen.with_start(),
                    entries,
                );
            },
            Record::Entry { entry, next } => {
                assert(header_fits(entry)) by {
                    reveal(local_header);
                }
                let more = entries.push(entry);
                lemma_headers_from(stream, solid, comment_size, max_entries, next, seen, more);
            },
            Record::Other { next, directory } => {
                let later = seen.with_directory(directory);
                lemma_headers_from(stream, solid, comment_size, max_entries, next, later, entries);
            },
            _ => {},
        }
    }
}

/// The size of the comment section, from the tail of the first volume.
pub open spec fn comment_section_size(tail: Seq<u8>) -> nat {
    le_value(tail.subrange(4, 8))
}

/// The most entries to accept from so many bytes.
pub open spec fn entry_cap(total_size: nat) -> nat {
    let physical = total_size / MIN_ENTRY_ON_DISK as nat + 16;
    if physical < MAX_ENTRIES {
        physical
    } else {
        MAX_ENTRIES as nat
    }
}

/// The index of an archive, given its joined data, how much of that is surely
/// data, and the tail of its first volume.
pub open spec fn index(stream: Seq<u8>, solid: nat, tail: Seq<u8>) -> IndexView {
    index_from(
        stream,
        solid,
        comment_section_size(tail),
        entry_cap(stream.len()),
        0,
        nothing_seen(),
        Seq::empty(),
    )
}

spec fn pow256(n: nat) -> nat
    decreases n,
{
    if n == 0 {
        1
    } else {
        256 * pow256((n - 1) as nat)
    }
}

proof fn lemma_le_bound(bytes: Seq<u8>)
    ensures
        le_value(bytes) < pow256(bytes.len()),
        bytes.len() <= 8 ==> pow256(bytes.len()) <= 0x1_0000_0000_0000_0000,
        bytes.len() <= 4 ==> pow256(bytes.len()) <= 0x1_0000_0000,
    decreases bytes.len(),
{
    if bytes.len() > 0 {
        lemma_le_bound(bytes.drop_first());
    }
    reveal_with_fuel(pow256, 9);
}

/// Read a little-endian number out of at most eight bytes.
pub fn le_number(bytes: &[u8]) -> (n: u64)
    requires
        bytes@.len() <= 8,
    ensures
        n == le_value(bytes@),
        bytes@.len() <= 4 ==> n <= u32::MAX,
{
    let mut n: u64 = 0;
    let mut i: usize = bytes.len();
    assert(bytes@.skip(i as int).len() == 0);
    while i > 0
        invariant
            i <= bytes@.len() <= 8,
            n == le_value(bytes@.skip(i as int)),
        decreases i,
    {
        i = i - 1;
        proof {
            assert(bytes@.skip(i as int).drop_first() =~= bytes@.skip(i + 1));
            lemma_le_bound(bytes@.skip(i as int));
        }
        n = bytes[i] as u64 + 256 * n;
    }
    proof {
        assert(bytes@.skip(0) =~= bytes@);
        lemma_le_bound(bytes@);
    }
    n
}

#[verifier::opaque]
spec fn flags_agree(is_encrypted: bool, is_data_descr: bool, entries: Seq<EntryView>) -> bool {
    &&& is_encrypted == any_encrypted(entries)
    &&& is_data_descr == any_data_descriptor(entries)
}

/// The width of the size fields, from descriptor bits 4-7.
fn size_field_width(file_descriptor: u8) -> (r: Option<usize>)
    ensures
        match r {
            Some(n) => size_width(file_descriptor) == Some(n as nat) && n <= 8,
            None => size_width(file_descriptor) is None,
        },
{
    match file_descriptor & 0xF0 {
        0x00 => Some(0),
        0x10 => Some(1),
        0x20 => Some(2),
        0x40 => Some(4),
        0x80 => Some(8),
        _ => None,
    }
}

struct FixedFields {
    name_len: usize,
    file_attribute: u8,
    file_time_date: u32,
    file_descriptor: u8,
}

struct SizeFields {
    compression_method: CompressionMethod,
    file_crc: u32,
    compressed_size: u64,
    uncompressed_size: u64,
}

/// A parsed ALZ archive: the volume reader plus the entry list.
pub struct AlzArchive {
    /// Underlying reader over all volumes.
    pub reader: MultiVolumeReader,
    /// File entries in archive order.
    pub entries: Vec<AlzFileEntry>,
    /// Whether any entry is encrypted.
    pub is_encrypted: bool,
    /// Whether any entry uses a data descriptor.
    pub is_data_descr: bool,
    /// Whether the data ended before a central directory that closes the
    /// archive.
    pub truncated: bool,
}

impl AlzArchive {
    /// The archive is what its data holds: the index of the joined stream,
    /// with the flags that the entries give.
    pub open spec fn holds(self, stream: Seq<u8>, solid: nat, tail: Seq<u8>) -> bool {
        &&& self.reader.wf()
        &&& self.reader@.stream == stream
        &&& self.reader@.solid == solid
        &&& self.reader@.tail == tail
        &&& index(stream, solid, tail) == IndexView::Ok(
            (entry_views(self.entries@), self.truncated),
        )
        &&& self.is_encrypted == any_encrypted(entry_views(self.entries@))
        &&& self.is_data_descr == any_data_descriptor(entry_views(self.entries@))
    }

    spec fn partly_read(self) -> bool {
        &&& self.reader.wf()
        &&& flags_agree(self.is_encrypted, self.is_data_descr, entry_views(self.entries@))
    }

    /// Open and parse an archive from its volumes: the file at `path` itself,
    /// then the split volumes in order. Where volumes are missing at the end,
    /// the trailer of the last one that is there ends the data.
    pub fn open(path: &str, volumes: Vec<Vec<u8>>) -> (r: AlzResult<Self>)
        requires
            multivolume::total_bytes(multivolume::contents(volumes@), volumes@.len())
                <= usize::MAX,
        ensures
            ({
                let parts = multivolume::contents(volumes@);
                let stream = multivolume::joined(parts, parts.len());
                let solid = multivolume::solid_part(stream.len());
                let tail = multivolume::tail_of(parts[0]);
                match r {
                    Ok(archive) => {
                        &&& parts.len() > 0
                        &&& multivolume::framing_fits(parts)
                        &&& archive.holds(stream, solid, tail)
                    },
                    Err(e) => if parts.len() == 0 {
                        e@ == crate::error::ErrorView::CantOpenFile(
                            crate::error::IoErrorView {
                                kind: crate::error::IoKind::NotFound,
                                message: "can't open: "@ + path@,
                            },
                        )
                    } else if !multivolume::framing_fits(parts) {
                        e@ == crate::error::ErrorView::CorruptedFile
                    } else {
                        index(stream, solid, tail) == IndexView::Err(e@)
                    },
                }
            }),
    {
        match MultiVolumeReader::open(path, volumes) {
            Ok(reader) => Self::from_reader(reader),
            Err(e) => Err(e),
        }
    }

    /// Parse an archive already loaded into memory.
    pub fn from_bytes(data: Vec<u8>) -> (r: AlzResult<Self>)
        ensures
            match r {
                Ok(archive) => archive.holds(
                    data@,
                    data@.len(),
                    multivolume::tail_of(data@),
                ),
                Err(e) => index(data@, data@.len(), multivolume::tail_of(data@))
                    == IndexView::Err(e@),
            },
    {
        Self::from_reader(MultiVolumeReader::from_bytes(data))
    }

    fn from_reader(reader: MultiVolumeReader) -> (r: AlzResult<Self>)
        requires
            reader.wf(),
            reader@.pos == 0,
            reader@.tail.len() == 16,
        ensures
            match r {
                Ok(archive) => archive.holds(reader@.stream, reader@.solid, reader@.tail),
                Err(e) => index(reader@.stream, reader@.solid, reader@.tail) == IndexView::Err(e@),
            },
    {
        let mut archive = AlzArchive {
            reader,
            entries: Vec::new(),
            is_encrypted: false,
            is_data_descr: false,
            truncated: false,
        };
        proof {
            reveal(flags_agree);
            assert(entry_views(archive.entries@) =~= Seq::<EntryView>::empty());
        }
        match archive.parse() {
            Ok(()) => Ok(archive),
            Err(e) => Err(e),
        }
    }

    #[verifier::rlimit(40)]
    fn parse(&mut self) -> (r: AlzResult<()>)
        requires
            old(self).partly_read(),
            old(self).entries@.len() == 0,
            old(self).reader@.pos == 0,
            old(self).reader@.tail.len() == 16,
        ensures
            match r {
                Ok(()) => final(self).holds(
                    old(self).reader@.stream,
                    old(self).reader@.solid,
                    old(self).reader@.tail,
                ),
                Err(e) => index(
                    old(self).reader@.stream,
                    old(self).reader@.solid,
                    old(self).reader@.tail,
                ) == IndexView::Err(e@),
            },
    {
        let ghost stream = self.reader@.stream;
        let ghost tail = self.reader@.tail;
        let solid: u64 = self.reader.solid_size();
        let mut started = false;
        let mut closed = false;

        // Parse endInfos from the 16-byte file tail.
        let tail_bytes = self.reader.tail();
        let comment_size: u64 = le_number(
            vstd::slice::slice_subrange(tail_bytes.as_slice(), 4, 8),
        );

        // Bound the entry count so a stream of tiny local-file headers can't
        // inflate memory (each ~14-byte on-disk header becomes a much larger
        // heap struct). See max_entries_for.
        let max_entries: u64 = max_entries_for(self.reader.total_size());
        assert(entry_views(self.entries@) =~= Seq::<EntryView>::empty());

        let mut done = false;
        while !done
            invariant
                self.partly_read(),
                stream == old(self).reader@.stream,
                tail == old(self).reader@.tail,
                self.reader@.stream == stream,
                self.reader@.solid == solid,
                solid == old(self).reader@.solid,
                self.reader@.tail == tail,
                comment_size == comment_section_size(tail),
                max_entries == entry_cap(stream.len()),
                comment_size <= u32::MAX,
                !done ==> index(stream, solid as nat, tail) == index_from(
                    stream,
                    solid as nat,
                    comment_size as nat,
                    max_entries as nat,
                    self.reader@.pos,
                    Seen { start: started, directory: closed },
                    entry_views(self.entries@),
                ),
                done ==> index(stream, solid as nat, tail) == IndexView::Ok(
                    (entry_views(self.entries@), self.truncated),
                ),
            decreases
                (if done {
                    0int
                } else {
                    1int
                }),
                bytes_ahead(stream, self.reader@.pos),
        {
            let ghost pos = self.reader@.pos;
            proof {
                lemma_record_advances(stream, comment_size as nat, pos);
            }
            let step: AlzResult<()> = match self.read_u32_le() {
                Ok(sig) => {
                    if sig == SIG_ALZ_FILE_HEADER {
                        started = true;
                        self.read_alz_header()
                    } else if sig == SIG_LOCAL_FILE_HEADER {
                        if self.entries.len() as u64 >= max_entries {
                            Err(AlzError::TooManyEntries)
                        } else {
                            self.read_local_file_header()
                        }
                    } else if sig == SIG_CENTRAL_DIRECTORY {
                        match self.read_central_directory() {
                            Ok(closes) => {
                                closed = closed || closes;
                                Ok(())
                            },
                            Err(e) => Err(e),
                        }
                    } else if sig == SIG_END_OF_CENTRAL_DIR {
                        self.truncated = false;
                        done = true;
                        Ok(())
                    } else if sig == SIG_COMMENT {
                        self.skip_comment_section(comment_size)
                    } else if sig == SIG_SPLIT_MARKER {
                        Ok(())
                    } else if started {
                        Err(AlzError::CorruptedFile)
                    } else {
                        Err(AlzError::NotAlzFile)
                    }
                },
                Err(e) => Err(e),
            };
            match step {
                Ok(()) => {},
                Err(e) => {
                    // The end of the data terminates parsing, and what was
                    // found before it stays. So does the trailer of a volume
                    // that others are to follow. Any other error is real and
                    // must propagate.
                    let in_trailer = started && self.reader.stream_position() > solid;
                    if !e.is_truncation() && !in_trailer {
                        return Err(e);
                    }
                    self.truncated = !closed;
                    done = true;
                },
            }
        }
        proof {
            reveal(flags_agree);
        }
        Ok(())
    }

    fn read_alz_header(&mut self) -> (r: AlzResult<()>)
        requires
            old(self).partly_read(),
        ensures
            final(self).partly_read(),
            final(self).entries == old(self).entries,
            final(self).truncated == old(self).truncated,
            step_result(
                old(self).reader@,
                final(self).reader@,
                r,
                fixed_record(
                    old(self).reader@.stream,
                    old(self).reader@.pos,
                    4,
                    Record::Start { next: old(self).reader@.pos + 4 },
                ),
            ),
    {
        match self.reader.read_exact(4) {
            Ok(_) => Ok(()),
            Err(e) => Err(e),
        }
    }

    #[verifier::rlimit(40)]
    fn read_local_file_header(&mut self) -> (r: AlzResult<()>)
        requires
            old(self).partly_read(),
        ensures
            final(self).partly_read(),
            final(self).truncated == old(self).truncated,
            step_result(
                old(self).reader@,
                final(self).reader@,
                r,
                local_header(old(self).reader@.stream, old(self).reader@.pos),
            ),
            match local_header(old(self).reader@.stream, old(self).reader@.pos) {
                Record::Entry { entry, next } => entry_views(final(self).entries@) == entry_views(
                    old(self).entries@,
                ).push(entry),
                _ => r is Err && final(self).entries == old(self).entries,
            },
    {
        reveal(local_header);
        let head = match self.read_fixed_fields() {
            Ok(head) => head,
            Err(e) => return Err(e),
        };
        let byte_len: usize = match size_field_width(head.file_descriptor) {
            Some(n) => n,
            None => return Err(AlzError::InvalidSizeFieldWidth(head.file_descriptor & 0xF0)),
        };
        let sizes = match self.read_size_fields(byte_len) {
            Ok(sizes) => sizes,
            Err(e) => return Err(e),
        };
        if head.name_len == 0 || head.name_len > MAX_NAME_LEN {
            return Err(AlzError::InvalidFilenameLength);
        }
        let name = match self.reader.read_exact(head.name_len) {
            Ok(name) => name,
            Err(e) => return Err(e),
        };
        let file_name = cp949_to_utf8(name.as_slice());

        let encrypted = head.file_descriptor & DESC_ENCRYPTED != 0;
        let enc_check = match self.read_enc_check(encrypted) {
            Ok(enc_check) => enc_check,
            Err(e) => return Err(e),
        };
        let data_pos: u64 = self.reader.stream_position();
        if sizes.compressed_size > i64::MAX as u64 {
            return Err(AlzError::CorruptedFile);
        }
        match self.reader.seek(SeekFrom::Current(sizes.compressed_size as i64)) {
            Ok(_) => {},
            Err(e) => return Err(AlzError::Io(e)),
        }
        let entry = AlzFileEntry {
            file_name,
            file_attribute: head.file_attribute,
            file_time_date: head.file_time_date,
            file_descriptor: head.file_descriptor,
            compression_method: sizes.compression_method,
            file_crc: sizes.file_crc,
            compressed_size: sizes.compressed_size,
            uncompressed_size: sizes.uncompressed_size,
            data_pos,
            enc_check,
        };
        self.add_entry(entry);
        Ok(())
    }

    /// The part of a local file header that is always there.
    fn read_fixed_fields(&mut self) -> (r: AlzResult<FixedFields>)
        requires
            old(self).partly_read(),
        ensures
            final(self).partly_read(),
            final(self).entries == old(self).entries,
            final(self).truncated == old(self).truncated,
            final(self).reader@.stream == old(self).reader@.stream,
            final(self).reader@.solid == old(self).reader@.solid,
            final(self).reader@.tail == old(self).reader@.tail,
            ({
                let stream = old(self).reader@.stream;
                let pos = old(self).reader@.pos;
                match r {
                    Ok(head) => {
                        &&& pos + 9 <= stream.len()
                        &&& final(self).reader@.pos == pos + 9
                        &&& head.name_len == number_at(stream, pos, 2)
                        &&& head.file_attribute == stream[(pos + 2) as int]
                        &&& head.file_time_date == number_at(stream, pos + 3, 4)
                        &&& head.file_descriptor == stream[(pos + 7) as int]
                    },
                    Err(e) => pos + 9 > stream.len() && e@ == crate::error::eof_error(),
                }
            }),
    {
        let ghost stream = self.reader@.stream;
        let ghost pos = self.reader@.pos;
        let head = match self.reader.read_exact(9) {
            Ok(head) => head,
            Err(e) => return Err(e),
        };
        proof {
            assert(head@ =~= stream.subrange(pos as int, (pos + 9) as int));
            assert(head@.subrange(0, 2) =~= stream.subrange(pos as int, (pos + 2) as int));
            assert(head@.subrange(3, 7) =~= stream.subrange((pos + 3) as int, (pos + 7) as int));
        }
        let name_len: u64 = le_number(vstd::slice::slice_subrange(head.as_slice(), 0, 2));
        let file_time_date: u64 = le_number(vstd::slice::slice_subrange(head.as_slice(), 3, 7));
        Ok(
            FixedFields {
                name_len: name_len as usize,
                file_attribute: head[2],
                file_time_date: file_time_date as u32,
                file_descriptor: head[7],
            },
        )
    }

    fn add_entry(&mut self, entry: AlzFileEntry)
        requires
            old(self).partly_read(),
        ensures
            final(self).partly_read(),
            final(self).reader == old(self).reader,
            final(self).truncated == old(self).truncated,
            entry_views(final(self).entries@) == entry_views(old(self).entries@).push(entry@),
    {
        let ghost found = entry_views(self.entries@);
        proof {
            reveal(flags_agree);
            lemma_any_flag_push(found, entry@);
        }
        if entry.is_encrypted() {
            self.is_encrypted = true;
        }
        if entry.has_data_descriptor() {
            self.is_data_descr = true;
        }
        self.entries.push(entry);
        assert(entry_views(self.entries@) =~= found.push(entry@));
    }

    /// The part of a local file header that is there where the descriptor
    /// declares a width for sizes.
    fn read_size_fields(&mut self, byte_len: usize) -> (r: AlzResult<SizeFields>)
        requires
            old(self).partly_read(),
            byte_len <= 8,
        ensures
            final(self).partly_read(),
            final(self).entries == old(self).entries,
            final(self).truncated == old(self).truncated,
            final(self).reader@.stream == old(self).reader@.stream,
            final(self).reader@.solid == old(self).reader@.solid,
            final(self).reader@.tail == old(self).reader@.tail,
            ({
                let stream = old(self).reader@.stream;
                let pos = old(self).reader@.pos;
                let width = byte_len as nat;
                let end: nat = if width > 0 {
                    pos + 6 + 2 * width
                } else {
                    pos
                };
                match r {
                    Ok(sizes) => {
                        &&& width > 0 ==> end <= stream.len()
                        &&& final(self).reader@.pos == end
                        &&& width > 0 ==> {
                            &&& sizes.compression_method == method_of(stream[pos as int])
                            &&& sizes.file_crc == number_at(stream, pos + 2, 4)
                            &&& sizes.compressed_size == number_at(stream, pos + 6, width)
                            &&& sizes.uncompressed_size == number_at(
                                stream,
                                pos + 6 + width,
                                width,
                            )
                        }
                        &&& width == 0 ==> {
                            &&& sizes.compression_method == CompressionMethod::Store
                            &&& sizes.file_crc == 0
                            &&& sizes.compressed_size == 0
                            &&& sizes.uncompressed_size == 0
                        }
                    },
                    Err(e) => {
                        &&& width > 0
                        &&& end > stream.len()
                        &&& e@ == crate::error::eof_error()
                    },
                }
            }),
    {
        if byte_len == 0 {
            return Ok(
                SizeFields {
                    compression_method: CompressionMethod::Store,
                    file_crc: 0,
                    compressed_size: 0,
                    uncompressed_size: 0,
                },
            );
        }
        let ghost stream = self.reader@.stream;
        let ghost pos = self.reader@.pos;
        let fields = match self.reader.read_exact(6) {
            Ok(fields) => fields,
            Err(e) => return Err(e),
        };
        let compression_method = CompressionMethod::from_byte(fields[0]);
        let file_crc: u32 = le_number(
            vstd::slice::slice_subrange(fields.as_slice(), 2, 6),
        ) as u32;
        assert(fields@.subrange(2, 6) =~= stream.subrange((pos + 2) as int, (pos + 6) as int));
        let compressed_size: u64 = match self.read_var_int(byte_len) {
            Ok(n) => n,
            Err(e) => return Err(e),
        };
        let uncompressed_size: u64 = match self.read_var_int(byte_len) {
            Ok(n) => n,
            Err(e) => return Err(e),
        };
        Ok(SizeFields { compression_method, file_crc, compressed_size, uncompressed_size })
    }

    /// The encryption header that an encrypted entry has in front of its data.
    fn read_enc_check(&mut self, encrypted: bool) -> (r: AlzResult<
        Option<[u8; ENCR_HEADER_LEN]>,
    >)
        requires
            old(self).partly_read(),
        ensures
            final(self).partly_read(),
            final(self).entries == old(self).entries,
            final(self).truncated == old(self).truncated,
            final(self).reader@.stream == old(self).reader@.stream,
            final(self).reader@.solid == old(self).reader@.solid,
            final(self).reader@.tail == old(self).reader@.tail,
            ({
                let stream = old(self).reader@.stream;
                let pos = old(self).reader@.pos;
                let end = pos + ENCR_HEADER_LEN;
                match r {
                    Ok(Some(header)) => {
                        &&& encrypted
                        &&& end <= stream.len()
                        &&& header@ == stream.subrange(pos as int, end)
                        &&& final(self).reader@.pos == end
                    },
                    Ok(None) => !encrypted && final(self).reader@.pos == pos,
                    Err(e) => {
                        &&& encrypted
                        &&& end > stream.len()
                        &&& e@ == crate::error::eof_error()
                    },
                }
            }),
    {
        if !encrypted {
            return Ok(None);
        }
        match self.reader.read_exact(ENCR_HEADER_LEN) {
            Ok(bytes) => Ok(Some(check_header_bytes(bytes.as_slice()))),
            Err(e) => Err(e),
        }
    }

    /// Read over a central directory. Returns whether it closes the archive.
    fn read_central_directory(&mut self) -> (r: AlzResult<bool>)
        requires
            old(self).partly_read(),
            old(self).reader@.pos >= 4,
        ensures
            final(self).partly_read(),
            final(self).entries == old(self).entries,
            final(self).truncated == old(self).truncated,
            final(self).reader@.stream == old(self).reader@.stream,
            final(self).reader@.solid == old(self).reader@.solid,
            final(self).reader@.tail == old(self).reader@.tail,
            ({
                let stream = old(self).reader@.stream;
                let pos = old(self).reader@.pos;
                match r {
                    Ok(closes) => {
                        &&& pos + 12 <= stream.len()
                        &&& final(self).reader@.pos == pos + 12
                        &&& closes == directory_closes(stream, (pos - 4) as nat)
                    },
                    Err(e) => pos + 12 > stream.len() && e@ == crate::error::eof_error(),
                }
            }),
    {
        let ghost stream = self.reader@.stream;
        let ghost pos = self.reader@.pos;
        match self.reader.read_exact(12) {
            Ok(bytes) => {
                let marker: u64 = le_number(vstd::slice::slice_subrange(bytes.as_slice(), 8, 12));
                assert(bytes@.subrange(8, 12) =~= stream.subrange(
                    (pos + 8) as int,
                    (pos + 12) as int,
                ));
                let last = self.reader.stream_position() == self.reader.total_size();
                Ok(!(last && marker == SIG_SPLIT_MARKER as u64))
            },
            Err(e) => Err(e),
        }
    }

    fn skip_comment_section(&mut self, total_size: u64) -> (r: AlzResult<()>)
        requires
            old(self).partly_read(),
            total_size <= u32::MAX,
        ensures
            final(self).partly_read(),
            final(self).entries == old(self).entries,
            final(self).truncated == old(self).truncated,
            step_result(
                old(self).reader@,
                final(self).reader@,
                r,
                if total_size > 4 {
                    skipped(old(self).reader@.pos, (total_size - 4) as nat)
                } else {
                    Record::Other { next: old(self).reader@.pos, directory: false }
                },
            ),
    {
        // total_size includes the 4-byte signature we already read.
        if total_size > 4 {
            match self.reader.seek(SeekFrom::Current((total_size - 4) as i64)) {
                Ok(_) => {},
                Err(e) => return Err(AlzError::Io(e)),
            }
        }
        Ok(())
    }

    fn read_u32_le(&mut self) -> (r: AlzResult<u32>)
        requires
            old(self).partly_read(),
        ensures
            final(self).partly_read(),
            final(self).entries == old(self).entries,
            final(self).truncated == old(self).truncated,
            number_read(old(self).reader@, final(self).reader@, 4, r),
    {
        match self.reader.read_exact(4) {
            Ok(bytes) => {
                let n: u64 = le_number(bytes.as_slice());
                Ok(n as u32)
            },
            Err(e) => Err(e),
        }
    }

    /// Read a variable-width little-endian integer (1, 2, 4, or 8 bytes).
    fn read_var_int(&mut self, byte_len: usize) -> (r: AlzResult<u64>)
        requires
            old(self).partly_read(),
            1 <= byte_len <= 8,
        ensures
            final(self).partly_read(),
            final(self).entries == old(self).entries,
            final(self).truncated == old(self).truncated,
            number_read(old(self).reader@, final(self).reader@, byte_len as nat, r),
    {
        match self.reader.read_exact(byte_len) {
            Ok(bytes) => Ok(le_number(bytes.as_slice())),
            Err(e) => Err(e),
        }
    }
}

/// How reading a number of `len` bytes ends.
spec fn number_read<N: Integer>(
    before: multivolume::ReaderView,
    after: multivolume::ReaderView,
    len: nat,
    r: AlzResult<N>,
) -> bool {
    &&& after.stream == before.stream
    &&& after.solid == before.solid
    &&& after.tail == before.tail
    &&& match r {
        Ok(n) => {
            &&& before.pos + len <= before.stream.len()
            &&& after.pos == before.pos + len
            &&& n as int == number_at(before.stream, before.pos, len)
        },
        Err(e) => {
            &&& before.pos + len > before.stream.len()
            &&& e@ == crate::error::eof_error()
        },
    }
}

/// One more entry raises the flags it has and lowers none.
proof fn lemma_any_flag_push(entries: Seq<EntryView>, entry: EntryView)
    ensures
        any_encrypted(entries.push(entry)) == (any_encrypted(entries) || entry.is_encrypted()),
        any_data_descriptor(entries.push(entry)) == (any_data_descriptor(entries)
            || entry.has_data_descriptor()),
{
    let more = entries.push(entry);
    assert(more[entries.len() as int] == entry);
    assert forall|i: int| 0 <= i < entries.len() implies more[i] == #[trigger] entries[i] by {}
    if any_encrypted(entries) {
        let i = choose|i: int| 0 <= i < entries.len() && (#[trigger] entries[i]).is_encrypted();
        assert(more[i].is_encrypted());
    }
    if any_data_descriptor(entries) {
        let i = choose|i: int|
            0 <= i < entries.len() && (#[trigger] entries[i]).has_data_descriptor();
        assert(more[i].has_data_descriptor());
    }
}

fn check_header_bytes(bytes: &[u8]) -> (header: [u8; ENCR_HEADER_LEN])
    requires
        bytes@.len() == ENCR_HEADER_LEN,
    ensures
        header@ == bytes@,
{
    let mut header: [u8; ENCR_HEADER_LEN] = [0u8;ENCR_HEADER_LEN];
    let mut i: usize = 0;
    while i < ENCR_HEADER_LEN
        invariant
            i <= ENCR_HEADER_LEN,
            bytes@.len() == ENCR_HEADER_LEN,
            forall|j: int| 0 <= j < i ==> header@[j] == bytes@[j],
        decreases ENCR_HEADER_LEN - i,
    {
        header[i] = bytes[i];
        i = i + 1;
    }
    assert(header@ =~= bytes@);
    header
}

/// Maximum number of file entries to accept, as a function of the archive's
/// total data size. Two bounds combine: a physical one (each entry needs at
/// least 14 bytes on disk) and an absolute sanity ceiling that caps memory on
/// very large inputs, mirroring the MAX_VOLUMES guard.
pub fn max_entries_for(total_size: u64) -> (n: u64)
    ensures
        n == entry_cap(total_size as nat),
        n <= 1_000_000,
        n == total_size / 14 + 16 || n == 1_000_000 && total_size / 14 + 16 >= 1_000_000,
{
    let physical: u64 = total_size / MIN_ENTRY_ON_DISK + 16;
    if physical < MAX_ENTRIES {
        physical
    } else {
        MAX_ENTRIES
    }
}

/// The uncompressed sizes of some entries, added up.
pub open spec fn uncompressed_total(entries: Seq<EntryView>) -> nat
    decreases entries.len(),
{
    if entries.len() == 0 {
        0
    } else {
        uncompressed_total(entries.drop_last()) + entries.last().uncompressed_size as nat
    }
}

/// The compressed sizes of some entries, added up.
pub open spec fn compressed_total(entries: Seq<EntryView>) -> nat
    decreases entries.len(),
{
    if entries.len() == 0 {
        0
    } else {
        compressed_total(entries.drop_last()) + entries.last().compressed_size as nat
    }
}

/// A number, or the limit where it is past that.
pub open spec fn capped(n: nat, limit: nat) -> nat {
    if n <= limit {
        n
    } else {
        limit
    }
}

/// Sum the uncompressed/compressed sizes and file count of a set of entries
/// for display. Sizes are attacker-controlled, so accumulate with saturating
/// arithmetic: overflow-checks would otherwise turn a forged size into a panic.
pub fn archive_totals(entries: &[AlzFileEntry]) -> (totals: (u64, u64, u32))
    ensures
        totals.0 == capped(uncompressed_total(entry_views(entries@)), u64::MAX as nat),
        totals.1 == capped(compressed_total(entry_views(entries@)), u64::MAX as nat),
        totals.2 == capped(entries@.len(), u32::MAX as nat),
        totals.0 == uncompressed_total(entry_views(entries@)) || totals.0 == u64::MAX
            && uncompressed_total(entry_views(entries@)) > u64::MAX,
        totals.1 == compressed_total(entry_views(entries@)) || totals.1 == u64::MAX
            && compressed_total(entry_views(entries@)) > u64::MAX,
        totals.2 == entries@.len() || totals.2 == u32::MAX && entries@.len() > u32::MAX,
{
    let ghost views = entry_views(entries@);
    let mut total_uncompressed: u64 = 0;
    let mut total_compressed: u64 = 0;
    let mut count: u32 = 0;
    let mut i: usize = 0;
    while i < entries.len()
        invariant
            i <= entries@.len(),
            views == entry_views(entries@),
            total_uncompressed == capped(uncompressed_total(views.take(i as int)), u64::MAX as nat),
            total_compressed == capped(compressed_total(views.take(i as int)), u64::MAX as nat),
            count == capped(i as nat, u32::MAX as nat),
        decreases entries@.len() - i,
    {
        assert(views.take(i + 1).drop_last() =~= views.take(i as int));
        total_uncompressed = total_uncompressed.saturating_add(entries[i].uncompressed_size);
        total_compressed = total_compressed.saturating_add(entries[i].compressed_size);
        count = count.saturating_add(1);
        i = i + 1;
    }
    assert(views.take(entries@.len() as int) =~= views);
    (total_uncompressed, total_compressed, count)
}

/// How a step over a record ends: behind the record, or in the error that the
/// record gives.
spec fn step_result(
    before: multivolume::ReaderView,
    after: multivolume::ReaderView,
    r: AlzResult<()>,
    record: Record,
) -> bool {
    &&& after.stream == before.stream
    &&& after.solid == before.solid
    &&& after.tail == before.tail
    &&& match record {
        Record::Start { next } => r is Ok && after.pos == next,
        Record::Entry { entry, next } => r is Ok && after.pos == next,
        Record::Other { next, .. } => r is Ok && after.pos == next,
        Record::Cut => r matches Err(e) && e@ == crate::error::eof_error(),
        Record::Bad { error, at } => {
            &&& r matches Err(e)
            &&& e@ == error
            &&& !error.is_truncation()
            &&& after.pos == at
        },
        Record::End => false,
        Record::Alien => false,
    }
}

/// Whether an entry has exactly the fields that the index gives.
pub open spec fn has_fields(entry: AlzFileEntry, fields: EntryView) -> bool {
    &&& entry.file_name@ == fields.file_name
    &&& entry.file_attribute == fields.file_attribute
    &&& entry.file_time_date == fields.file_time_date
    &&& entry.file_descriptor == fields.file_descriptor
    &&& entry.compression_method == fields.compression_method
    &&& entry.file_crc == fields.file_crc
    &&& entry.compressed_size == fields.compressed_size
    &&& entry.uncompressed_size == fields.uncompressed_size
    &&& entry.data_pos == fields.data_pos
    &&& match (entry.enc_check, fields.enc_check) {
        (Some(header), Some(bytes)) => header@ == bytes,
        (None, None) => true,
        _ => false,
    }
}

/// An archive is its index: it has the entries that the index of its data has,
/// field by field, is truncated where the index is, and has each flag exactly
/// where some entry has it.
pub proof fn lemma_archive_is_its_index(
    archive: AlzArchive,
    stream: Seq<u8>,
    solid: nat,
    tail: Seq<u8>,
)
    requires
        archive.holds(stream, solid, tail),
    ensures
        archive.reader@.stream == stream,
        archive.reader@.solid == solid,
        index(stream, solid, tail) matches Ok((entries, truncated)) && {
            &&& truncated == archive.truncated
            &&& entries.len() == archive.entries@.len()
            &&& forall|i: int|
                0 <= i < entries.len() ==> has_fields(
                    #[trigger] archive.entries@[i],
                    entries[i],
                )
        },
        archive.is_encrypted <==> exists|i: int|
            0 <= i < archive.entries@.len() && #[trigger] archive.entries@[i].file_descriptor % 2
                == 1,
        archive.is_data_descr <==> exists|i: int|
            0 <= i < archive.entries@.len() && #[trigger] archive.entries@[i].file_descriptor / 8
                % 2 == 1,
{
    let entries = entry_views(archive.entries@);
    assert forall|i: int| 0 <= i < entries.len() implies {
        &&& entries[i].is_encrypted() == (#[trigger] archive.entries@[i].file_descriptor % 2 == 1)
        &&& entries[i].has_data_descriptor() == (archive.entries@[i].file_descriptor / 8 % 2 == 1)
    } by {
        lemma_descriptor_bits(archive.entries@[i].file_descriptor);
    }
    if archive.is_encrypted {
        let i = choose|i: int| 0 <= i < entries.len() && (#[trigger] entries[i]).is_encrypted();
        assert(archive.entries@[i].file_descriptor % 2 == 1);
    }
    if exists|i: int|
        0 <= i < archive.entries@.len() && #[trigger] archive.entries@[i].file_descriptor % 2
            == 1 {
        let i = choose|i: int|
            0 <= i < archive.entries@.len() && #[trigger] archive.entries@[i].file_descriptor % 2
                == 1;
        assert(entries[i].is_encrypted());
    }
    if archive.is_data_descr {
        let i = choose|i: int|
            0 <= i < entries.len() && (#[trigger] entries[i]).has_data_descriptor();
        assert(archive.entries@[i].file_descriptor / 8 % 2 == 1);
    }
    if exists|i: int|
        0 <= i < archive.entries@.len() && #[trigger] archive.entries@[i].file_descriptor / 8 % 2
            == 1 {
        let i = choose|i: int|
            0 <= i < archive.entries@.len() && #[trigger] archive.entries@[i].file_descriptor / 8
                % 2 == 1;
        assert(entries[i].has_data_descriptor());
    }
}

/// The bits of a descriptor and of an attribute that have a meaning.
pub proof fn lemma_descriptor_bits(d: u8)
    ensures
        d & DESC_ENCRYPTED != 0 <==> d % 2 == 1,
        d & DESC_DATA_DESCR != 0 <==> d / 8 % 2 == 1,
        d & ATTR_READONLY != 0 <==> d % 2 == 1,
        d & ATTR_HIDDEN != 0 <==> d / 2 % 2 == 1,
        d & ATTR_SYSTEM != 0 <==> d / 4 % 2 == 1,
        d & ATTR_DIRECTORY != 0 <==> d / 16 % 2 == 1,
        d & ATTR_ARCHIVE != 0 <==> d / 32 % 2 == 1,
        d & ATTR_SYMLINK != 0 <==> d / 64 % 2 == 1,
{
    assert((d & 1 != 0 <==> d % 2 == 1) && (d & 2 != 0 <==> d / 2 % 2 == 1) && (d & 4 != 0 <==> d
        / 4 % 2 == 1) && (d & 8 != 0 <==> d / 8 % 2 == 1) && (d & 16 != 0 <==> d / 16 % 2 == 1) && (
    d & 32 != 0 <==> d / 32 % 2 == 1) && (d & 64 != 0 <==> d / 64 % 2 == 1)) by (bit_vector);
}

/// What the flags of an entry say.
pub proof fn lemma_entry_flags(entry: EntryView)
    ensures
        entry.is_encrypted() <==> entry.file_descriptor % 2 == 1,
        entry.has_data_descriptor() <==> entry.file_descriptor / 8 % 2 == 1,
        entry.is_directory() <==> entry.file_attribute / 16 % 2 == 1,
        entry.is_symlink() <==> entry.file_attribute / 64 % 2 == 1,
{
    lemma_descriptor_bits(entry.file_descriptor);
    lemma_descriptor_bits(entry.file_attribute);
}

/// The totals of some entries are those of a part and of the rest, added up,
/// and the totals of one entry are its sizes.
pub proof fn lemma_totals_add_up(a: Seq<EntryView>, b: Seq<EntryView>, entry: EntryView)
    ensures
        uncompressed_total(a + b) == uncompressed_total(a) + uncompressed_total(b),
        compressed_total(a + b) == compressed_total(a) + compressed_total(b),
        uncompressed_total(seq![entry]) == entry.uncompressed_size,
        compressed_total(seq![entry]) == entry.compressed_size,
    decreases b.len(),
{
    assert(seq![entry].drop_last() =~= Seq::<EntryView>::empty());
    reveal_with_fuel(uncompressed_total, 2);
    reveal_with_fuel(compressed_total, 2);
    if b.len() == 0 {
        assert(a + b =~= a);
    } else {
        lemma_totals_add_up(a, b.drop_last(), entry);
        assert((a + b).drop_last() =~= a + b.drop_last());
        assert((a + b).last() == b.last());
    }
}

/// The limit on entries leaves room for all that fit into so many bytes, and
/// is never more than a million, nor much more than fit.
pub proof fn lemma_entry_cap_bounds(total_size: nat)
    ensures
        entry_cap(total_size) <= 1_000_000,
        14 * entry_cap(total_size) <= total_size + 14 * 16,
        14 * entry_cap(total_size) > total_size + 14 * 15 || entry_cap(total_size) == 1_000_000,
{
}

} // verus!
