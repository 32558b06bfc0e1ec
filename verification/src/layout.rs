//! The bytes of an archive as they are written, and what they read as.
use crate::archive;
use crate::archive::{CompressionMethod, EntryView, IndexView, Record, Seen};
use vstd::prelude::*;

verus! {

/// A number in `width` bytes, least significant byte first.
pub open spec fn le_bytes(n: nat, width: nat) -> Seq<u8>
    decreases width,
{
    if width == 0 {
        Seq::empty()
    } else {
        seq![(n % 256) as u8] + le_bytes(n / 256, (width - 1) as nat)
    }
}

/// The least number that does not fit into `width` bytes.
pub open spec fn beyond(width: nat) -> nat
    decreases width,
{
    if width == 0 {
        1
    } else {
        256 * beyond((width - 1) as nat)
    }
}

/// A number that is written in enough bytes reads as what it was.
pub proof fn lemma_numbers_come_back(n: nat, width: nat)
    requires
        n < beyond(width),
    ensures
        le_bytes(n, width).len() == width,
        archive::le_value(le_bytes(n, width)) == n,
    decreases width,
{
    let bytes = le_bytes(n, width);
    if width > 0 {
        assert(n / 256 < beyond((width - 1) as nat)) by (nonlinear_arith)
            requires
                n < 256 * beyond((width - 1) as nat),
        ;
        lemma_numbers_come_back(n / 256, (width - 1) as nat);
        assert(bytes.drop_first() =~= le_bytes(n / 256, (width - 1) as nat));
    }
}

proof fn lemma_width_bounds()
    ensures
        beyond(0) == 1,
        beyond(1) == 0x100,
        beyond(2) == 0x1_0000,
        beyond(4) == 0x1_0000_0000,
        beyond(8) == 0x1_0000_0000_0000_0000,
{
    reveal_with_fuel(beyond, 9);
}

/// A file as it is put into an archive.
pub struct FileRecord {
    /// The bytes of its name.
    pub name: Seq<u8>,
    pub attribute: u8,
    pub time: u32,
    /// The lower four bits of the descriptor: bit 0 for encryption, bit 3 for
    /// a data descriptor.
    pub flags: nat,
    /// How many bytes each of the two sizes takes; without sizes, zero.
    pub width: nat,
    pub method: u8,
    pub crc: u32,
    /// The declared size of the stored data.
    pub stored: nat,
    /// The declared size of the uncompressed data.
    pub size: nat,
    /// The encryption header.
    pub check: Seq<u8>,
    /// The data as it is stored.
    pub data: Seq<u8>,
    /// The two bytes of the header that have no meaning.
    pub spare: (u8, u8),
}

impl FileRecord {
    /// Whether the fields fit the room that a header has for them.
    pub open spec fn fits(self) -> bool {
        &&& self.name.len() < 0x1_0000
        &&& self.flags < 16
        &&& self.width == 0 || self.width == 1 || self.width == 2 || self.width == 4 || self.width
            == 8
        &&& self.size < beyond(self.width)
        &&& self.stored < beyond(self.width)
        &&& self.check.len() == if self.flags % 2 == 1 {
            12nat
        } else {
            0
        }
    }

    /// Whether the header is one that an archive may have.
    pub open spec fn valid(self) -> bool {
        &&& self.fits()
        &&& 1 <= self.name.len() <= 4096
        &&& self.stored <= 0x7fff_ffff_ffff_ffff
    }

    /// What stands between the fixed part of the header and the name.
    pub open spec fn size_fields(self) -> Seq<u8> {
        if self.width == 0 {
            Seq::empty()
        } else {
            seq![self.method, self.spare.1] + le_bytes(self.crc as nat, 4) + le_bytes(
                self.stored,
                self.width,
            ) + le_bytes(self.size, self.width)
        }
    }

    /// The fixed part of the header, behind the signature.
    pub open spec fn fixed_fields(self) -> Seq<u8> {
        le_bytes(self.name.len(), 2) + seq![self.attribute] + le_bytes(self.time as nat, 4)
            + seq![(16 * self.width + self.flags) as u8, self.spare.0]
    }

    /// All that stands in front of the data.
    pub open spec fn header(self) -> Seq<u8> {
        seq![0x42u8, 0x4c, 0x5a, 0x01] + self.fixed_fields() + self.size_fields() + self.name
            + self.check
    }

    /// Whether an entry says of this file, with its data at `data_pos`, all
    /// that was written.
    pub open spec fn read_as(self, entry: EntryView, data_pos: nat) -> bool {
        &&& vstd::utf8::valid_utf8(self.name) ==> entry.file_name == vstd::utf8::decode_utf8(
            self.name,
        )
        &&& !vstd::utf8::valid_utf8(self.name) ==> entry.file_name
            == crate::encoding::euc_kr_decoded(self.name)
        &&& entry.file_attribute == self.attribute
        &&& entry.file_time_date == self.time
        &&& entry.file_descriptor == 16 * self.width + self.flags
        &&& entry.data_pos == data_pos
        &&& entry.enc_check == if self.flags % 2 == 1 {
            Some(self.check)
        } else {
            None
        }
        &&& entry.compressed_size == self.stored
        &&& self.width > 0 ==> {
            &&& entry.uncompressed_size == self.size
            &&& entry.file_crc == self.crc
            &&& self.method == 0 ==> entry.compression_method == CompressionMethod::Store
            &&& self.method == 1 ==> entry.compression_method == CompressionMethod::Bzip2
            &&& self.method == 2 ==> entry.compression_method == CompressionMethod::Deflate
            &&& self.method > 2 ==> entry.compression_method == CompressionMethod::Unknown(
                self.method,
            )
        }
        &&& self.width == 0 ==> {
            &&& entry.uncompressed_size == 0
            &&& entry.file_crc == 0
            &&& entry.compression_method == CompressionMethod::Store
        }
    }
}

/// A stretch of a stream, by what it was put together from.
proof fn lemma_stretch(stream: Seq<u8>, before: Seq<u8>, part: Seq<u8>, behind: Seq<u8>)
    requires
        stream == before + part + behind,
    ensures
        stream.subrange(before.len() as int, (before.len() + part.len()) as int) == part,
        forall|i: int| 0 <= i < part.len() ==> stream[before.len() + i] == #[trigger] part[i],
{
    assert(stream.subrange(before.len() as int, (before.len() + part.len()) as int) =~= part);
}

/// The number that was written at a place is read there.
proof fn lemma_number_in_place(
    stream: Seq<u8>,
    before: Seq<u8>,
    n: nat,
    width: nat,
    behind: Seq<u8>,
)
    requires
        stream == before + le_bytes(n, width) + behind,
        n < beyond(width),
    ensures
        archive::number_at(stream, before.len(), width) == n,
{
    lemma_numbers_come_back(n, width);
    lemma_stretch(stream, before, le_bytes(n, width), behind);
}

/// The descriptor declares the width of the sizes and the flags.
proof fn lemma_descriptor(width: nat, flags: nat)
    requires
        width == 0 || width == 1 || width == 2 || width == 4 || width == 8,
        flags < 16,
    ensures
        archive::size_width((16 * width + flags) as u8) == Some(width),
        (16 * width + flags) as u8 & archive::DESC_ENCRYPTED != 0 <==> flags % 2 == 1,
{
    let d = (16 * width + flags) as u8;
    let w = width as u8;
    let f = flags as u8;
    assert(d & 0xF0 == 16 * w && (d & 1 != 0 <==> f % 2 == 1)) by (bit_vector)
        requires
            f < 16,
            w == 0 || w == 1 || w == 2 || w == 4 || w == 8,
            d == 16 * w + f,
    ;
}

/// The fixed part of a header reads as it was written.
proof fn lemma_fixed_fields_come_back(
    stream: Seq<u8>,
    before: Seq<u8>,
    file: FileRecord,
    behind: Seq<u8>,
)
    requires
        file.fits(),
        stream == before + file.fixed_fields() + behind,
    ensures
        file.fixed_fields().len() == 9,
        archive::number_at(stream, before.len(), 2) == file.name.len(),
        stream[(before.len() + 2) as int] == file.attribute,
        archive::number_at(stream, before.len() + 3, 4) == file.time,
        stream[(before.len() + 7) as int] == (16 * file.width + file.flags) as u8,
{
    lemma_width_bounds();
    let a = le_bytes(file.name.len(), 2);
    let b = seq![file.attribute];
    let c = le_bytes(file.time as nat, 4);
    let d = seq![(16 * file.width + file.flags) as u8, file.spare.0];
    lemma_numbers_come_back(file.name.len(), 2);
    lemma_numbers_come_back(file.time as nat, 4);
    assert(stream =~= before + a + (b + c + d + behind));
    lemma_number_in_place(stream, before, file.name.len(), 2, b + c + d + behind);
    assert(stream =~= (before + a + b) + c + (d + behind));
    lemma_number_in_place(stream, before + a + b, file.time as nat, 4, d + behind);
    lemma_stretch(stream, before, file.fixed_fields(), behind);
    assert(file.fixed_fields()[2] == file.attribute);
    assert(file.fixed_fields()[7] == (16 * file.width + file.flags) as u8);
}

/// The sizes of a header read as they were written.
proof fn lemma_size_fields_come_back(
    stream: Seq<u8>,
    before: Seq<u8>,
    file: FileRecord,
    behind: Seq<u8>,
)
    requires
        file.fits(),
        file.width > 0,
        stream == before + file.size_fields() + behind,
    ensures
        file.size_fields().len() == 6 + 2 * file.width,
        stream[before.len() as int] == file.method,
        archive::number_at(stream, before.len() + 2, 4) == file.crc,
        archive::number_at(stream, before.len() + 6, file.width) == file.stored,
        archive::number_at(stream, before.len() + 6 + file.width, file.width) == file.size,
{
    lemma_width_bounds();
    let a = seq![file.method, file.spare.1];
    let b = le_bytes(file.crc as nat, 4);
    let c = le_bytes(file.stored, file.width);
    let d = le_bytes(file.size, file.width);
    lemma_numbers_come_back(file.crc as nat, 4);
    lemma_numbers_come_back(file.stored, file.width);
    lemma_numbers_come_back(file.size, file.width);
    assert(stream =~= (before + a) + b + (c + d + behind));
    lemma_number_in_place(stream, before + a, file.crc as nat, 4, c + d + behind);
    assert(stream =~= (before + a + b) + c + (d + behind));
    lemma_number_in_place(stream, before + a + b, file.stored, file.width, d + behind);
    assert(stream =~= (before + a + b + c) + d + behind);
    lemma_number_in_place(stream, before + a + b + c, file.size, file.width, behind);
    lemma_stretch(stream, before, file.size_fields(), behind);
    assert(file.size_fields()[0] == file.method);
}

/// A signature of four bytes reads as the number that it stands for.
proof fn lemma_signature(stream: Seq<u8>, before: Seq<u8>, last: u8, first: u8, behind: Seq<u8>)
    requires
        stream == before + seq![first, 0x4cu8, 0x5a, last] + behind,
    ensures
        archive::number_at(stream, before.len(), 4) == first as nat + 256 * 0x4c + 65536 * 0x5a
            + 16777216 * last as nat,
{
    let sig = seq![first, 0x4cu8, 0x5a, last];
    lemma_stretch(stream, before, sig, behind);
    reveal_with_fuel(archive::le_value, 5);
    assert(sig.drop_first() =~= seq![0x4cu8, 0x5a, last]);
    assert(sig.drop_first().drop_first() =~= seq![0x5au8, last]);
    assert(sig.drop_first().drop_first().drop_first() =~= seq![last]);
    assert(sig.drop_first().drop_first().drop_first().drop_first() =~= Seq::<u8>::empty());
}

/// What a header says in its fields, wherever they lead: the lengths and the
/// places of all of them.
#[verifier::rlimit(60)]
proof fn lemma_header_fields(
    stream: Seq<u8>,
    before: Seq<u8>,
    file: FileRecord,
    behind: Seq<u8>,
)
    requires
        file.fits(),
        stream == before + file.header() + behind,
    ensures
        archive::entry_due(stream, before.len()),
        ({
            let pos = before.len() + 4;
            let name_pos: nat = pos + 9 + if file.width > 0 {
                6 + 2 * file.width
            } else {
                0
            };
            let descriptor = (16 * file.width + file.flags) as u8;
            &&& archive::number_at(stream, before.len(), 4) == archive::SIG_LOCAL_FILE_HEADER
            &&& archive::number_at(stream, pos, 2) == file.name.len()
            &&& stream[(pos + 2) as int] == file.attribute
            &&& archive::number_at(stream, pos + 3, 4) == file.time
            &&& stream[(pos + 7) as int] == descriptor
            &&& archive::size_width(descriptor) == Some(file.width)
            &&& descriptor & archive::DESC_ENCRYPTED != 0 <==> file.flags % 2 == 1
            &&& file.width > 0 ==> {
                &&& stream[(pos + 9) as int] == file.method
                &&& archive::number_at(stream, pos + 11, 4) == file.crc
                &&& archive::number_at(stream, pos + 15, file.width) == file.stored
                &&& archive::number_at(stream, pos + 15 + file.width, file.width) == file.size
            }
            &&& stream.subrange(name_pos as int, (name_pos + file.name.len()) as int) == file.name
            &&& stream.subrange(
                (name_pos + file.name.len()) as int,
                (name_pos + file.name.len() + file.check.len()) as int,
            ) == file.check
            &&& before.len() + file.header().len() == name_pos + file.name.len()
                + file.check.len()
            &&& name_pos + file.name.len() + file.check.len() <= stream.len()
        }),
{
    let sig = seq![0x42u8, 0x4c, 0x5a, 0x01];
    let fixed = file.fixed_fields();
    let sizes = file.size_fields();
    let rest = file.name + file.check + behind;
    assert(stream =~= before + sig + (fixed + sizes + rest));
    lemma_signature(stream, before, 0x01, 0x42, fixed + sizes + rest);
    assert(stream =~= (before + sig) + fixed + (sizes + rest));
    lemma_fixed_fields_come_back(stream, before + sig, file, sizes + rest);
    lemma_descriptor(file.width, file.flags);
    if file.width > 0 {
        assert(stream =~= (before + sig + fixed) + sizes + rest);
        lemma_size_fields_come_back(stream, before + sig + fixed, file, rest);
    }
    let front = before + sig + fixed + sizes;
    assert(stream =~= front + file.name + (file.check + behind));
    lemma_stretch(stream, front, file.name, file.check + behind);
    assert(stream =~= (front + file.name) + file.check + behind);
    lemma_stretch(stream, front + file.name, file.check, behind);
}

/// A file that was written into an archive is read with everything that was
/// written of it, for every width of the sizes and every size that fits it:
/// the record at its place is that file, and the next one stands behind its
/// data.
#[verifier::rlimit(60)]
pub proof fn lemma_header_comes_back(
    stream: Seq<u8>,
    comment_size: nat,
    before: Seq<u8>,
    file: FileRecord,
    behind: Seq<u8>,
)
    requires
        file.valid(),
        stream == before + file.header() + behind,
        before.len() + file.header().len() + file.stored <= u64::MAX,
    ensures
        archive::entry_due(stream, before.len()),
        ({
            let data_pos = before.len() + file.header().len();
            &&& archive::record_at(stream, comment_size, before.len()) matches Record::Entry {
                entry,
                next,
            }
            &&& file.read_as(entry, data_pos)
            &&& next == data_pos + file.stored
        }),
        file.header().len() >= 14,
{
    lemma_header_fields(stream, before, file, behind);
    lemma_width_bounds();
    reveal(archive::local_header);
}

/// A header that cannot be right is refused with the error that says why: a
/// name that is empty or too long, or more data than an archive can hold.
#[verifier::rlimit(60)]
pub proof fn lemma_bad_header_is_refused(
    stream: Seq<u8>,
    comment_size: nat,
    before: Seq<u8>,
    file: FileRecord,
    behind: Seq<u8>,
)
    requires
        file.fits(),
        stream == before + file.header() + behind,
    ensures
        file.name.len() == 0 || file.name.len() > 4096 ==> (archive::record_at(
            stream,
            comment_size,
            before.len(),
        ) matches Record::Bad { error, at } && error
            == crate::error::ErrorView::InvalidFilenameLength),
        1 <= file.name.len() <= 4096 && file.stored > 0x7fff_ffff_ffff_ffff ==> (
        archive::record_at(stream, comment_size, before.len()) matches Record::Bad { error, at }
            && error == crate::error::ErrorView::CorruptedFile),
{
    lemma_header_fields(stream, before, file, behind);
    lemma_width_bounds();
    reveal(archive::local_header);
}

/// A descriptor that declares no width is refused, whatever else the header
/// says.
pub proof fn lemma_bad_width_is_refused(
    stream: Seq<u8>,
    comment_size: nat,
    before: Seq<u8>,
    fields: Seq<u8>,
    behind: Seq<u8>,
)
    requires
        stream == before + seq![0x42u8, 0x4c, 0x5a, 0x01] + fields + behind,
        fields.len() == 9,
        ({
            let width = fields[7] / 16;
            width != 0 && width != 1 && width != 2 && width != 4 && width != 8
        }),
    ensures
        archive::record_at(stream, comment_size, before.len()) == (Record::Bad {
            error: crate::error::ErrorView::InvalidSizeFieldWidth(
                (fields[7] - fields[7] % 16) as u8,
            ),
            at: before.len() + 13,
        }),
{
    let sig = seq![0x42u8, 0x4c, 0x5a, 0x01];
    assert(stream =~= before + sig + (fields + behind));
    lemma_signature(stream, before, 0x01, 0x42, fields + behind);
    lemma_stretch(stream, before + sig, fields, behind);
    let d = fields[7];
    assert(stream[(before.len() + 4 + 7) as int] == d);
    assert(d & 0xF0 == d - d % 16 && (d & 0xF0) / 16 == d / 16) by (bit_vector);
    reveal(archive::local_header);
}

/// What an archive is made of, between its header and its end.
pub enum Piece {
    File(FileRecord),
    /// A comment section.
    Comment(Seq<u8>),
    /// A central directory, with twelve bytes behind its signature.
    Directory(Seq<u8>),
    /// A split marker.
    Split,
}

impl Piece {
    pub open spec fn bytes(self) -> Seq<u8> {
        match self {
            Piece::File(file) => file.header() + file.data,
            Piece::Comment(text) => seq![0x45u8, 0x4c, 0x5a, 0x01] + text,
            Piece::Directory(body) => seq![0x43u8, 0x4c, 0x5a, 0x01] + body,
            Piece::Split => seq![0x43u8, 0x4c, 0x5a, 0x03],
        }
    }

    /// Whether the piece can be written into an archive whose tail declares
    /// comment sections of `comment_size` bytes, with their signature.
    pub open spec fn valid(self, comment_size: nat) -> bool {
        match self {
            Piece::File(file) => file.valid() && file.stored == file.data.len(),
            Piece::Comment(text) => text.len() + 4 == comment_size,
            Piece::Directory(body) => body.len() == 12,
            Piece::Split => true,
        }
    }
}

/// Whether all pieces can be written.
pub open spec fn all_valid(pieces: Seq<Piece>, comment_size: nat) -> bool {
    forall|i: int| 0 <= i < pieces.len() ==> (#[trigger] pieces[i]).valid(comment_size)
}

/// The bytes of all pieces.
pub open spec fn all_bytes(pieces: Seq<Piece>) -> Seq<u8>
    decreases pieces.len(),
{
    if pieces.len() == 0 {
        Seq::empty()
    } else {
        pieces[0].bytes() + all_bytes(pieces.drop_first())
    }
}

/// How many files there are among some pieces.
pub open spec fn file_count(pieces: Seq<Piece>) -> nat
    decreases pieces.len(),
{
    if pieces.len() == 0 {
        0
    } else {
        file_count(pieces.drop_first()) + if pieces[0] is File {
            1nat
        } else {
            0
        }
    }
}

/// Whether there is a central directory among some pieces.
pub open spec fn has_directory(pieces: Seq<Piece>) -> bool {
    exists|i: int| 0 <= i < pieces.len() && #[trigger] pieces[i] is Directory
}

/// Whether some entries are exactly the files among the pieces that stand from
/// `pos` on, in their order, each with everything that was written of it.
pub open spec fn listed(pieces: Seq<Piece>, pos: nat, entries: Seq<EntryView>) -> bool
    decreases pieces.len(),
{
    if pieces.len() == 0 {
        entries.len() == 0
    } else {
        let next = pos + pieces[0].bytes().len();
        match pieces[0] {
            Piece::File(file) => {
                &&& entries.len() > 0
                &&& file.read_as(entries[0], pos + file.header().len())
                &&& listed(pieces.drop_first(), next, entries.drop_first())
            },
            _ => listed(pieces.drop_first(), next, entries),
        }
    }
}

/// Reading over the pieces of an archive finds its files.
#[verifier::rlimit(60)]
proof fn lemma_pieces_are_read(
    stream: Seq<u8>,
    solid: nat,
    comment_size: nat,
    before: Seq<u8>,
    pieces: Seq<Piece>,
    behind: Seq<u8>,
    seen: Seen,
    found: Seq<EntryView>,
) -> (entries: Seq<EntryView>)
    requires
        stream == before + all_bytes(pieces) + behind,
        stream.len() <= u64::MAX,
        behind.len() > 0 || !has_directory(pieces),
        all_valid(pieces, comment_size),
        14 * found.len() <= before.len(),
        found.len() + file_count(pieces) <= 1_000_000,
    ensures
        listed(pieces, before.len(), entries),
        entries.len() == file_count(pieces),
        archive::index_from(
            stream,
            solid,
            comment_size,
            archive::entry_cap(stream.len()),
            before.len(),
            seen,
            found,
        ) == archive::index_from(
            stream,
            solid,
            comment_size,
            archive::entry_cap(stream.len()),
            before.len() + all_bytes(pieces).len(),
            seen.with_directory(has_directory(pieces)),
            found + entries,
        ),
        14 * (found.len() + entries.len()) <= before.len() + all_bytes(pieces).len(),
    decreases pieces.len(),
{
    let cap = archive::entry_cap(stream.len());
    if pieces.len() == 0 {
        assert(found + Seq::<EntryView>::empty() =~= found);
        assert(before.len() + all_bytes(pieces).len() == before.len());
        assert(!has_directory(pieces));
        Seq::empty()
    } else {
        let piece = pieces[0];
        let rest = pieces.drop_first();
        let bytes = piece.bytes();
        let later = all_bytes(rest) + behind;
        let pos = before.len();
        assert(piece.valid(comment_size));
        assert(all_valid(rest, comment_size)) by {
            assert forall|i: int| 0 <= i < rest.len() implies (#[trigger] rest[i]).valid(
                comment_size,
            ) by {
                assert(rest[i] == pieces[i + 1]);
            }
        }
        assert(has_directory(pieces) <==> piece is Directory || has_directory(rest)) by {
            if has_directory(rest) {
                let i = choose|i: int| 0 <= i < rest.len() && #[trigger] rest[i] is Directory;
                assert(pieces[i + 1] is Directory);
            }
            if has_directory(pieces) && !(piece is Directory) {
                let i = choose|i: int| 0 <= i < pieces.len() && #[trigger] pieces[i] is Directory;
                assert(rest[i - 1] is Directory);
            }
        }
        assert(stream =~= before + bytes + later);
        assert(stream =~= (before + bytes) + all_bytes(rest) + behind);
        archive::lemma_record_advances(stream, comment_size, pos);
        match piece {
            Piece::File(file) => {
                assert(stream =~= before + file.header() + (file.data + later));
                lemma_header_comes_back(stream, comment_size, before, file, file.data + later);
                let entry = archive::record_at(stream, comment_size, pos)->Entry_entry;
                let more = lemma_pieces_are_read(
                    stream,
                    solid,
                    comment_size,
                    before + bytes,
                    rest,
                    behind,
                    seen,
                    found.push(entry),
                );
                let entries = seq![entry] + more;
                assert(entries.drop_first() =~= more);
                assert(found.push(entry) + more =~= found + entries);
                entries
            },
            Piece::Comment(text) => {
                assert(stream =~= before + seq![0x45u8, 0x4c, 0x5a, 0x01] + (text + later));
                lemma_signature(stream, before, 0x01, 0x45, text + later);
                lemma_pieces_are_read(
                    stream,
                    solid,
                    comment_size,
                    before + bytes,
                    rest,
                    behind,
                    seen,
                    found,
                )
            },
            Piece::Directory(body) => {
                assert(stream =~= before + seq![0x43u8, 0x4c, 0x5a, 0x01] + (body + later));
                lemma_signature(stream, before, 0x01, 0x43, body + later);
                assert(pieces[0] is Directory);
                lemma_pieces_are_read(
                    stream,
                    solid,
                    comment_size,
                    before + bytes,
                    rest,
                    behind,
                    seen.with_directory(true),
                    found,
                )
            },
            Piece::Split => {
                lemma_signature(stream, before, 0x03, 0x43, later);
                lemma_pieces_are_read(
                    stream,
                    solid,
                    comment_size,
                    before + bytes,
                    rest,
                    behind,
                    seen,
                    found,
                )
            },
        }
    }
}

/// The header of an archive.
pub open spec fn start_bytes(version: Seq<u8>) -> Seq<u8> {
    seq![0x41u8, 0x4c, 0x5a, 0x01] + version
}

/// Whether the tail of an archive declares comment sections of so many bytes,
/// with their signature.
pub open spec fn declares_comment(tail: Seq<u8>, comment_size: nat) -> bool {
    comment_size < 0x1_0000_0000 && tail.len() == 16 && tail[4] == comment_size % 256 && tail[5]
        == comment_size / 256 % 256 && tail[6] == comment_size / 0x1_0000 % 256 && tail[7]
        == comment_size / 0x100_0000
}

/// The comment size is read as it was written.
pub proof fn lemma_comment_size_comes_back(tail: Seq<u8>, comment_size: nat)
    requires
        declares_comment(tail, comment_size),
    ensures
        archive::comment_section_size(tail) == comment_size,
{
    let bytes = tail.subrange(4, 8);
    reveal_with_fuel(archive::le_value, 5);
    let b = bytes.drop_first();
    let c = b.drop_first();
    let d = c.drop_first();
    assert(d.drop_first().len() == 0);
    assert(bytes[0] == tail[4] && b[0] == tail[5] && c[0] == tail[6] && d[0] == tail[7]);
}

/// Reading over the header of an archive and its pieces.
proof fn lemma_archive_is_read(
    stream: Seq<u8>,
    solid: nat,
    tail: Seq<u8>,
    comment_size: nat,
    version: Seq<u8>,
    pieces: Seq<Piece>,
    behind: Seq<u8>,
) -> (entries: Seq<EntryView>)
    requires
        stream == start_bytes(version) + all_bytes(pieces) + behind,
        stream.len() <= u64::MAX,
        version.len() == 4,
        behind.len() > 0 || !has_directory(pieces),
        declares_comment(tail, comment_size),
        all_valid(pieces, comment_size),
        file_count(pieces) <= 1_000_000,
    ensures
        listed(pieces, 8, entries),
        entries.len() == file_count(pieces),
        14 * entries.len() <= 8 + all_bytes(pieces).len(),
        archive::index(stream, solid, tail) == archive::index_from(
            stream,
            solid,
            comment_size,
            archive::entry_cap(stream.len()),
            8 + all_bytes(pieces).len(),
            Seen { start: true, directory: has_directory(pieces) },
            entries,
        ),
{
    lemma_comment_size_comes_back(tail, comment_size);
    let none = Seq::<u8>::empty();
    let later = version + (all_bytes(pieces) + behind);
    assert(stream =~= none + seq![0x41u8, 0x4c, 0x5a, 0x01] + later);
    lemma_signature(stream, none, 0x01, 0x41, later);
    let seen = archive::nothing_seen().with_start();
    let entries = lemma_pieces_are_read(
        stream,
        solid,
        comment_size,
        start_bytes(version),
        pieces,
        behind,
        seen,
        Seq::empty(),
    );
    assert(Seq::<EntryView>::empty() + entries =~= entries);
    entries
}

/// An archive reads as what was put into it: the index of a header, some
/// pieces and the end marker is exactly the files among the pieces, and
/// nothing is missing. What follows the end marker does not matter.
pub proof fn lemma_archive_comes_back(
    stream: Seq<u8>,
    solid: nat,
    tail: Seq<u8>,
    comment_size: nat,
    version: Seq<u8>,
    pieces: Seq<Piece>,
    behind: Seq<u8>,
)
    requires
        stream == start_bytes(version) + all_bytes(pieces) + seq![0x43u8, 0x4c, 0x5a, 0x02]
            + behind,
        stream.len() <= u64::MAX,
        version.len() == 4,
        declares_comment(tail, comment_size),
        all_valid(pieces, comment_size),
        file_count(pieces) <= 1_000_000,
    ensures
        archive::index(stream, solid, tail) matches Ok((entries, truncated)) && listed(
            pieces,
            8,
            entries,
        ) && entries.len() == file_count(pieces) && !truncated,
{
    let end = seq![0x43u8, 0x4c, 0x5a, 0x02];
    assert(stream =~= start_bytes(version) + all_bytes(pieces) + (end + behind));
    let entries = lemma_archive_is_read(
        stream,
        solid,
        tail,
        comment_size,
        version,
        pieces,
        end + behind,
    );
    let front = start_bytes(version) + all_bytes(pieces);
    assert(stream =~= front + end + behind);
    lemma_signature(stream, front, 0x02, 0x43, behind);
}

/// An archive may end with its central directory. Nothing is missing then,
/// unless that ends in a split marker, behind which a volume should follow.
pub proof fn lemma_archive_ends_with_directory(
    stream: Seq<u8>,
    solid: nat,
    tail: Seq<u8>,
    comment_size: nat,
    version: Seq<u8>,
    pieces: Seq<Piece>,
    body: Seq<u8>,
)
    requires
        stream == start_bytes(version) + all_bytes(pieces) + seq![0x43u8, 0x4c, 0x5a, 0x01] + body,
        stream.len() <= u64::MAX,
        version.len() == 4,
        body.len() == 12,
        !has_directory(pieces),
        declares_comment(tail, comment_size),
        all_valid(pieces, comment_size),
        file_count(pieces) <= 1_000_000,
    ensures
        archive::index(stream, solid, tail) matches Ok((entries, truncated)) && listed(
            pieces,
            8,
            entries,
        ) && entries.len() == file_count(pieces) && (truncated <==> body[8] == 0x43 && body[9]
            == 0x4c && body[10] == 0x5a && body[11] == 0x03),
{
    let sig = seq![0x43u8, 0x4c, 0x5a, 0x01];
    let none = Seq::<u8>::empty();
    assert(stream =~= start_bytes(version) + all_bytes(pieces) + (sig + body));
    let entries = lemma_archive_is_read(
        stream,
        solid,
        tail,
        comment_size,
        version,
        pieces,
        sig + body,
    );
    let front = start_bytes(version) + all_bytes(pieces);
    assert(stream =~= front + sig + body);
    lemma_signature(stream, front, 0x01, 0x43, body);
    let marker = body.subrange(8, 12);
    lemma_four_bytes(marker);
    lemma_same_four_bytes(marker, 0x43, 0x4c, 0x5a, 0x03);
    assert(stream.subrange((front.len() + 12) as int, (front.len() + 16) as int) =~= marker);
    assert(stream.len() == front.len() + 16);
    let later = front.len() + 16;
    let cap = archive::entry_cap(stream.len());
    let closes = archive::directory_closes(stream, front.len());
    let seen = Seen { start: true, directory: false };
    assert(archive::record_at(stream, comment_size, front.len()) == (Record::Other {
        next: later,
        directory: closes,
    }));
    assert(archive::record_at(stream, comment_size, later) is Cut);
    assert(archive::index_from(
        stream,
        solid,
        comment_size,
        cap,
        later,
        seen.with_directory(closes),
        entries,
    ) == IndexView::Ok((entries, !closes)));
    assert(archive::number_at(stream, front.len() + 12, 4) == archive::le_value(marker));
}

/// The number that four bytes hold.
proof fn lemma_four_bytes(bytes: Seq<u8>)
    requires
        bytes.len() == 4,
    ensures
        archive::le_value(bytes) == bytes[0] + 256 * bytes[1] + 65536 * bytes[2] + 16777216
            * bytes[3],
{
    reveal_with_fuel(archive::le_value, 5);
    let b = bytes.drop_first();
    let c = b.drop_first();
    let d = c.drop_first();
    assert(d.drop_first().len() == 0);
    assert(b[0] == bytes[1] && c[0] == bytes[2] && d[0] == bytes[3]);
}

/// Four bytes are what the number that they hold says.
proof fn lemma_same_four_bytes(bytes: Seq<u8>, a: u8, b: u8, c: u8, d: u8)
    requires
        bytes.len() == 4,
    ensures
        archive::le_value(bytes) == a + 256 * b + 65536 * c + 16777216 * d <==> bytes[0] == a
            && bytes[1] == b && bytes[2] == c && bytes[3] == d,
{
    lemma_four_bytes(bytes);
}

/// Where the data ends behind some pieces, or within the signature of the
/// next, all files before are there, and the archive is truncated unless a
/// central directory came before.
pub proof fn lemma_archive_without_end(
    stream: Seq<u8>,
    solid: nat,
    tail: Seq<u8>,
    comment_size: nat,
    version: Seq<u8>,
    pieces: Seq<Piece>,
    behind: Seq<u8>,
)
    requires
        stream == start_bytes(version) + all_bytes(pieces) + behind,
        stream.len() <= u64::MAX,
        version.len() == 4,
        behind.len() < 4,
        behind.len() > 0 || !has_directory(pieces),
        declares_comment(tail, comment_size),
        all_valid(pieces, comment_size),
        file_count(pieces) <= 1_000_000,
    ensures
        archive::index(stream, solid, tail) matches Ok((entries, truncated)) && listed(
            pieces,
            8,
            entries,
        ) && entries.len() == file_count(pieces) && truncated == !has_directory(pieces),
{
    let entries = lemma_archive_is_read(
        stream,
        solid,
        tail,
        comment_size,
        version,
        pieces,
        behind,
    );
    assert(archive::record_at(stream, comment_size, 8 + all_bytes(pieces).len()) is Cut);
}

/// Whether four bytes are the signature of a record.
pub open spec fn is_signature(bytes: Seq<u8>) -> bool {
    &&& bytes.len() == 4
    &&& bytes[1] == 0x4c
    &&& bytes[2] == 0x5a
    &&& bytes[3] == 0x01 && (bytes[0] == 0x41 || bytes[0] == 0x42 || bytes[0] == 0x43 || bytes[0]
        == 0x45) || bytes[0] == 0x43 && (bytes[3] == 0x02 || bytes[3] == 0x03)
}

/// Bytes that are no signature start no record.
proof fn lemma_no_signature(stream: Seq<u8>, comment_size: nat, pos: nat, alien: Seq<u8>)
    requires
        alien.len() == 4,
        !is_signature(alien),
        pos + 4 <= stream.len(),
        stream.subrange(pos as int, (pos + 4) as int) == alien,
    ensures
        archive::record_at(stream, comment_size, pos) is Alien,
        !archive::entry_due(stream, pos),
{
    lemma_same_four_bytes(alien, 0x41, 0x4c, 0x5a, 0x01);
    lemma_same_four_bytes(alien, 0x42, 0x4c, 0x5a, 0x01);
    lemma_same_four_bytes(alien, 0x43, 0x4c, 0x5a, 0x01);
    lemma_same_four_bytes(alien, 0x45, 0x4c, 0x5a, 0x01);
    lemma_same_four_bytes(alien, 0x43, 0x4c, 0x5a, 0x02);
    lemma_same_four_bytes(alien, 0x43, 0x4c, 0x5a, 0x03);
}

/// What does not start with a signature is no archive.
pub proof fn lemma_other_files_are_refused(
    alien: Seq<u8>,
    behind: Seq<u8>,
    solid: nat,
    tail: Seq<u8>,
)
    requires
        alien.len() == 4,
        !is_signature(alien),
    ensures
        archive::index(alien + behind, solid, tail) == IndexView::Err(
            crate::error::ErrorView::NotAlzFile,
        ),
{
    let stream = alien + behind;
    assert(stream.subrange(0, 4) =~= alien);
    lemma_no_signature(stream, archive::comment_section_size(tail), 0, alien);
}

/// Bytes where a record should start, that are the signature of none, make a
/// corrupted archive.
pub proof fn lemma_alien_bytes_are_refused(
    stream: Seq<u8>,
    solid: nat,
    tail: Seq<u8>,
    comment_size: nat,
    version: Seq<u8>,
    pieces: Seq<Piece>,
    alien: Seq<u8>,
    behind: Seq<u8>,
)
    requires
        alien.len() == 4,
        !is_signature(alien),
        stream == start_bytes(version) + all_bytes(pieces) + alien + behind,
        stream.len() <= u64::MAX,
        version.len() == 4,
        declares_comment(tail, comment_size),
        all_valid(pieces, comment_size),
        file_count(pieces) <= 1_000_000,
        12 + all_bytes(pieces).len() <= solid,
    ensures
        archive::index(stream, solid, tail) == IndexView::Err(
            crate::error::ErrorView::CorruptedFile,
        ),
{
    assert(stream =~= start_bytes(version) + all_bytes(pieces) + (alien + behind));
    let entries = lemma_archive_is_read(
        stream,
        solid,
        tail,
        comment_size,
        version,
        pieces,
        alien + behind,
    );
    let front = start_bytes(version) + all_bytes(pieces);
    lemma_stretch(stream, front, alien, behind);
    lemma_no_signature(stream, comment_size, front.len(), alien);
}

/// The header of one more file behind some pieces, where it is broken, makes
/// the archive fail with the error that says why; and so does one file more
/// than an archive may have.
#[verifier::rlimit(60)]
pub proof fn lemma_broken_archives_are_refused(
    stream: Seq<u8>,
    solid: nat,
    tail: Seq<u8>,
    comment_size: nat,
    version: Seq<u8>,
    pieces: Seq<Piece>,
    file: FileRecord,
    behind: Seq<u8>,
)
    requires
        stream == start_bytes(version) + all_bytes(pieces) + file.header() + behind,
        stream.len() <= u64::MAX,
        version.len() == 4,
        declares_comment(tail, comment_size),
        all_valid(pieces, comment_size),
        file_count(pieces) <= 1_000_000,
        file.fits(),
        8 + all_bytes(pieces).len() + file.header().len() <= solid,
    ensures
        file_count(pieces) < 1_000_000 && (file.name.len() == 0 || file.name.len() > 4096)
            ==> archive::index(stream, solid, tail) == IndexView::Err(
            crate::error::ErrorView::InvalidFilenameLength,
        ),
        file_count(pieces) < 1_000_000 && 1 <= file.name.len() <= 4096 && file.stored
            > 0x7fff_ffff_ffff_ffff ==> archive::index(stream, solid, tail) == IndexView::Err(
            crate::error::ErrorView::CorruptedFile,
        ),
        file_count(pieces) == 1_000_000 ==> archive::index(stream, solid, tail) == IndexView::Err(
            crate::error::ErrorView::TooManyEntries,
        ),
{
    let front = start_bytes(version) + all_bytes(pieces);
    assert(stream =~= start_bytes(version) + all_bytes(pieces) + (file.header() + behind));
    let entries = lemma_archive_is_read(
        stream,
        solid,
        tail,
        comment_size,
        version,
        pieces,
        file.header() + behind,
    );
    assert(stream =~= front + file.header() + behind);
    lemma_header_fields(stream, front, file, behind);
    lemma_bad_header_is_refused(stream, comment_size, front, file, behind);
    let record = archive::record_at(stream, comment_size, front.len());
    assert(record matches Record::Bad { error, at } ==> at <= solid) by {
        reveal(archive::local_header);
    }
}

} // verus!
