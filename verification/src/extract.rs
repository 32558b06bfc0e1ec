//! Entry extraction: path safety, decompression dispatch, and CRC verification.
use crate::archive;
use crate::archive::{AlzArchive, AlzFileEntry, CompressionMethod};
use crate::crypto;
use crate::crypto::ZipCrypto;
use crate::decompress;
use crate::decompress::{bits, bzip2, deflate, raw};
use crate::encoding;
use crate::encoding::password_to_cp949;
use crate::error::{unexpected_eof, AlzError, AlzResult};
use crate::multivolume::{MultiVolumeReader, SeekFrom};
use crate::text;
use vstd::prelude::*;

verus! {

/// An entry name with `/` between its components.
pub open spec fn normalized(name: Seq<char>) -> Seq<char> {
    Seq::new(
        name.len(),
        |i: int|
            if name[i] == '\\' {
                '/'
            } else {
                name[i]
            },
    )
}

/// Whether `path` between `from` and `to` is one of its components: the text
/// between two slashes, or between one and an end of the path.
pub open spec fn is_component(path: Seq<char>, from: int, to: int) -> bool {
    &&& 0 <= from <= to <= path.len()
    &&& from == 0 || path[from - 1] == '/'
    &&& to == path.len() || path[to] == '/'
    &&& forall|i: int| from <= i < to ==> path[i] != '/'
}

/// Whether `..` is a component of the path.
pub open spec fn climbs(path: Seq<char>) -> bool {
    exists|from: int| #[trigger] parent_at(path, from)
}

/// Whether the component that starts at `from` is `..`.
pub open spec fn parent_at(path: Seq<char>, from: int) -> bool {
    &&& 0 <= from <= path.len() - 2
    &&& path[from] == '.'
    &&& path[from + 1] == '.'
    &&& from == 0 || path[from - 1] == '/'
    &&& from + 2 == path.len() || path[from + 2] == '/'
}

/// Whether the path starts with a drive letter and a colon.
pub open spec fn has_drive(path: Seq<char>) -> bool {
    &&& path.len() >= 2
    &&& 'a' <= path[0] <= 'z' || 'A' <= path[0] <= 'Z'
    &&& path[1] == ':'
}

/// Whether the path could lead out of the directory it is taken in.
pub open spec fn is_unsafe(path: Seq<char>) -> bool {
    ||| climbs(path)
    ||| path.len() > 0 && path[0] == '/'
    ||| has_drive(path)
}

/// Reject paths that could escape the destination directory: parent-dir
/// (`..`) components, absolute roots, or Windows drive prefixes. Backslashes
/// are normalized to `/` by callers before this check.
pub fn has_unsafe_components(path: &str) -> (b: bool)
    ensures
        b == is_unsafe(path@),
{
    let chars = text::chars_of(path);
    let n: usize = chars.len();
    if n > 0 && chars[0] == '/' {
        return true;
    }
    if n >= 2 && chars[1] == ':' && (('a' <= chars[0] && chars[0] <= 'z') || ('A' <= chars[0]
        && chars[0] <= 'Z')) {
        return true;
    }
    let mut i: usize = 0;
    while i < n
        invariant
            n == chars@.len(),
            chars@ == path@,
            i <= n,
            forall|from: int| 0 <= from < i ==> !#[trigger] parent_at(chars@, from),
        decreases n - i,
    {
        if n - i >= 2 && chars[i] == '.' && chars[i + 1] == '.' && (i == 0 || chars[i - 1] == '/')
            && (n - i == 2 || chars[i + 2] == '/') {
            assert(parent_at(chars@, i as int));
            return true;
        }
        i = i + 1;
    }
    false
}

/// Write a name with `/` between its components.
pub fn normalize_name(name: &str) -> (s: String)
    ensures
        s@ == normalized(name@),
{
    let chars = text::chars_of(name);
    let mut s: String = String::new();
    let mut i: usize = 0;
    while i < chars.len()
        invariant
            i <= chars@.len(),
            chars@ == name@,
            s@ == normalized(name@).take(i as int),
        decreases chars@.len() - i,
    {
        s.push(
            if chars[i] == '\\' {
                '/'
            } else {
                chars[i]
            },
        );
        i = i + 1;
        assert(s@ =~= normalized(name@).take(i as int));
    }
    assert(s@ =~= normalized(name@));
    s
}

/// The keys that the data of an entry is decrypted with, none for an entry
/// that is not encrypted; or why it cannot be decrypted. The keys are those of
/// the password, moved on over the encryption header, which has to end in the
/// check byte.
pub open spec fn entry_keys(entry: archive::EntryView, password: Option<Seq<u8>>) -> Result<
    Option<crypto::CipherKeys>,
    crate::error::ErrorView,
> {
    if !entry.is_encrypted() {
        Ok(None)
    } else {
        match (password, entry.enc_check) {
            (Some(bytes), Some(header)) => {
                let keys = crypto::password_keys(bytes);
                if crypto::deciphered(keys, header).last() == crypto::header_check_byte(
                    entry.file_crc,
                    entry.file_time_date,
                    entry.has_data_descriptor(),
                ) {
                    Ok(Some(crypto::keys_after_cipher(keys, header)))
                } else {
                    Err(crate::error::ErrorView::InvalidPassword)
                }
            },
            _ => Err(crate::error::ErrorView::PasswordNotSet),
        }
    }
}

/// The keys of a cipher, if there is one.
pub open spec fn own_keys(cipher: Option<ZipCrypto>) -> Option<crypto::CipherKeys> {
    match cipher {
        Some(c) => Some(c@),
        None => None,
    }
}

/// Set up the cipher for the data of an entry, from the bytes of a password.
pub fn entry_cipher(entry: &AlzFileEntry, password: Option<Vec<u8>>) -> (r: AlzResult<
    Option<ZipCrypto>,
>)
    ensures
        ({
            let bytes = match password {
                Some(p) => Some(p@),
                None => None,
            };
            match r {
                Ok(cipher) => entry_keys(entry@, bytes) == Ok::<_, crate::error::ErrorView>(
                    own_keys(cipher),
                ),
                Err(e) => entry_keys(entry@, bytes) == Err::<Option<crypto::CipherKeys>, _>(e@),
            }
        }),
{
    if !entry.is_encrypted() {
        return Ok(None);
    }
    match (password, &entry.enc_check) {
        (Some(bytes), Some(header)) => {
            let mut cipher = ZipCrypto::new(bytes.as_slice());
            if !cipher.check_header(
                header,
                entry.file_crc,
                entry.file_time_date,
                entry.has_data_descriptor(),
            ) {
                return Err(AlzError::InvalidPassword);
            }
            // The check ran the cipher over the header, so it stands at the
            // keystream for the payload.
            Ok(Some(cipher))
        },
        _ => Err(AlzError::PasswordNotSet),
    }
}

/// The bytes that a password stands for.
pub open spec fn password_bytes(password: Option<Seq<char>>) -> Option<Seq<u8>> {
    match password {
        Some(p) => Some(encoding::euc_kr_encoded(p)),
        None => None,
    }
}

/// The text of a password that may not be there.
pub open spec fn password_text(password: Option<&str>) -> Option<Seq<char>> {
    match password {
        Some(p) => Some(p@),
        None => None,
    }
}

/// The password is one that can be converted.
pub open spec fn password_fits(password: Option<&str>) -> bool {
    password matches Some(p) ==> vstd::utf8::encode_utf8(p@).len() <= encoding::MAX_TEXT_BYTES
}

/// What has to be right of an entry before its data is touched: the cipher,
/// and then the name, which comes out normalized.
pub open spec fn prepared(entry: archive::EntryView, password: Option<Seq<u8>>) -> Result<
    (Seq<char>, Option<crypto::CipherKeys>),
    crate::error::ErrorView,
> {
    match entry_keys(entry, password) {
        Err(e) => Err(e),
        Ok(keys) => if is_unsafe(normalized(entry.file_name)) {
            Err(crate::error::ErrorView::PathTraversal(normalized(entry.file_name)))
        } else {
            Ok((normalized(entry.file_name), keys))
        },
    }
}

/// Check that an entry may be extracted: set up its cipher and make its name a
/// path below the destination directory.
pub fn prepare_entry(entry: &AlzFileEntry, password: Option<&str>) -> (r: AlzResult<
    (String, Option<ZipCrypto>),
>)
    requires
        password_fits(password),
    ensures
        match r {
            Ok((name, cipher)) => prepared(entry@, password_bytes(password_text(password))) == Ok::<
                _,
                crate::error::ErrorView,
            >((name@, own_keys(cipher))),
            Err(e) => prepared(entry@, password_bytes(password_text(password))) == Err::<
                (Seq<char>, Option<crypto::CipherKeys>),
                _,
            >(e@),
        },
{
    // ZIP keys are derived from the CP949 bytes of the password.
    let bytes = match password {
        Some(p) => Some(password_to_cp949(p)),
        None => None,
    };
    let cipher = match entry_cipher(entry, bytes) {
        Ok(cipher) => cipher,
        Err(e) => return Err(e),
    };
    // Reject parent-dir (`..`) traversal and absolute paths up front, before
    // touching the filesystem.
    let name = normalize_name(entry.file_name.as_str());
    if has_unsafe_components(name.as_str()) {
        return Err(AlzError::PathTraversal(name));
    }
    Ok((name, cipher))
}

/// What comes out of the data of an entry, and what goes wrong, by its
/// compression method.
pub open spec fn decompressed(
    entry: archive::EntryView,
    data: Seq<u8>,
    max_output: u64,
    keys: Option<crypto::CipherKeys>,
) -> (Seq<u8>, Option<crate::error::ErrorView>) {
    match entry.compression_method {
        CompressionMethod::Store => {
            let size = entry.compressed_size as nat;
            let taken = data.take(raw::raw_len(data.len(), size, max_output as nat) as int);
            (decompress::decrypted(keys, taken), raw::raw_failure(data.len(), size, max_output))
        },
        CompressionMethod::Deflate => {
            let stream = decompress::decrypted(
                keys,
                deflate::entry_data(data, entry.compressed_size),
            );
            let outcome = deflate::last_outcome(
                stream,
                deflate::first_room(max_output as nat),
                max_output as nat,
            );
            (deflate::written(outcome, max_output), deflate::judged(outcome, max_output))
        },
        CompressionMethod::Bzip2 => if data.len() > bzip2::MAX_BZ2_COMPRESSED {
            (
                Seq::empty(),
                Some(crate::error::ErrorView::Bzip2Failed("compressed size exceeds limit"@)),
            )
        } else {
            let blocks = bzip2::decode_blocks(decompress::decrypted(keys, data), 0, max_output);
            (
                blocks.0,
                match blocks.1 {
                    Some(failure) => Some(bzip2::with_limit(failure, max_output)),
                    None => None,
                },
            )
        },
        CompressionMethod::Unknown(n) => (
            Seq::empty(),
            Some(crate::error::ErrorView::UnknownCompressionMethod(n)),
        ),
    }
}

/// The part of the data of an entry that goes through its cipher, by its
/// compression method.
pub open spec fn ciphered_part(
    entry: archive::EntryView,
    data: Seq<u8>,
    max_output: u64,
) -> Seq<u8> {
    match entry.compression_method {
        CompressionMethod::Store => data.take(
            raw::raw_len(data.len(), entry.compressed_size as nat, max_output as nat) as int,
        ),
        CompressionMethod::Deflate => deflate::entry_data(data, entry.compressed_size),
        CompressionMethod::Bzip2 => if data.len() > bzip2::MAX_BZ2_COMPRESSED {
            Seq::empty()
        } else {
            data
        },
        CompressionMethod::Unknown(_) => Seq::empty(),
    }
}

/// Decompress the data of an entry to `writer`, erroring if more than
/// `max_output` bytes would be produced. Returns the CRC32 of the output.
pub fn decompress_to(
    reader: &[u8],
    writer: &mut Vec<u8>,
    entry: &AlzFileEntry,
    max_output: u64,
    crypto: Option<&mut ZipCrypto>,
) -> (r: AlzResult<u32>)
    ensures
        ({
            let (output, failure) = decompressed(
                entry@,
                reader@,
                max_output,
                decompress::cipher_keys(crypto),
            );
            &&& final(writer)@ == old(writer)@ + output
            &&& crypto matches Some(c) ==> Some(final(c)@) == decompress::keys_after(
                Some(c@),
                ciphered_part(entry@, reader@, max_output),
            )
            &&& match r {
                Ok(crc) => failure is None && crc == crypto::crc32_of(output),
                Err(e) => failure == Some(e@),
            }
        }),
{
    match entry.compression_method {
        CompressionMethod::Store => raw::extract_raw(
            reader,
            writer,
            entry.compressed_size,
            max_output,
            crypto,
        ),
        CompressionMethod::Deflate => deflate::extract_deflate(
            reader,
            writer,
            entry.compressed_size,
            max_output,
            crypto,
        ),
        CompressionMethod::Bzip2 => {
            assert(writer@ + Seq::<u8>::empty() =~= writer@);
            bzip2::extract_bzip2(reader, writer, entry.compressed_size, max_output, crypto)
        },
        CompressionMethod::Unknown(n) => {
            assert(writer@ + Seq::<u8>::empty() =~= writer@);
            Err(AlzError::UnknownCompressionMethod(n))
        },
    }
}

/// The data of an entry, as far as the stream has it.
pub open spec fn stored_data(entry: archive::EntryView, stream: Seq<u8>) -> Seq<u8> {
    crate::multivolume::ReaderView {
        stream,
        solid: stream.len(),
        pos: entry.data_pos as nat,
        tail: Seq::empty(),
    }.next(entry.compressed_size as nat)
}

/// What is wrong with the output of an entry: what went wrong with the data,
/// or else a CRC that is not the declared one.
pub open spec fn verified(
    entry: archive::EntryView,
    output: Seq<u8>,
    failure: Option<crate::error::ErrorView>,
) -> Option<crate::error::ErrorView> {
    let got = crypto::crc32_of(output);
    if failure is None && got != entry.file_crc {
        Some(crate::error::ErrorView::InvalidFileCrc { expected: entry.file_crc, got })
    } else {
        failure
    }
}

/// Whether some of the data of an entry is missing: it is not all in the part
/// of the stream that is surely data.
pub open spec fn is_cut(entry: archive::EntryView, solid: nat) -> bool {
    entry.compressed_size > 0 && entry.data_pos + entry.compressed_size > solid
}

/// What is wrong where some of the data is missing: a stream that cannot be
/// decoded and a wrong CRC are then due to the end of the data.
pub open spec fn blamed(cut: bool, failure: Option<crate::error::ErrorView>) -> Option<
    crate::error::ErrorView,
> {
    match failure {
        Some(crate::error::ErrorView::Bzip2Failed(_)) if cut => Some(crate::error::eof_error()),
        Some(crate::error::ErrorView::InflateFailed(_)) if cut => Some(
            crate::error::eof_error(),
        ),
        Some(crate::error::ErrorView::InvalidFileCrc { .. }) if cut => Some(
            crate::error::eof_error(),
        ),
        _ => failure,
    }
}

/// What comes out of the data of an entry, and what goes wrong, the CRC of
/// what came out included.
pub open spec fn unpacked(
    entry: archive::EntryView,
    stream: Seq<u8>,
    solid: nat,
    keys: Option<crypto::CipherKeys>,
) -> (Seq<u8>, Option<crate::error::ErrorView>) {
    let data = stored_data(entry, stream);
    let (output, failure) = decompressed(entry, data, entry.uncompressed_size, keys);
    (output, blamed(is_cut(entry, solid), verified(entry, output, failure)))
}

/// The same archive, but for the place its reader stands at.
pub open spec fn same_archive(a: AlzArchive, b: AlzArchive) -> bool {
    &&& a.reader@.stream == b.reader@.stream
    &&& a.reader@.solid == b.reader@.solid
    &&& a.reader@.tail == b.reader@.tail
    &&& a.entries == b.entries
    &&& a.is_encrypted == b.is_encrypted
    &&& a.is_data_descr == b.is_data_descr
    &&& a.truncated == b.truncated
}

/// Decompress the data of an entry that [`prepare_entry`] accepted to
/// `writer`, and verify its CRC.
#[verifier::rlimit(40)]
pub fn unpack_entry(
    reader: &mut MultiVolumeReader,
    entry: &AlzFileEntry,
    cipher: Option<ZipCrypto>,
    writer: &mut Vec<u8>,
) -> (r: AlzResult<()>)
    requires
        old(reader).wf(),
    ensures
        final(reader).wf(),
        final(reader)@.stream == old(reader)@.stream,
        final(reader)@.solid == old(reader)@.solid,
        final(reader)@.tail == old(reader)@.tail,
        ({
            let (output, failure) = unpacked(
                entry@,
                old(reader)@.stream,
                old(reader)@.solid,
                own_keys(cipher),
            );
            &&& final(writer)@ == old(writer)@ + output
            &&& match r {
                Ok(()) => failure is None,
                Err(e) => failure == Some(e@),
            }
        }),
{
    let ghost stream = reader@.stream;
    let _ = reader.seek(SeekFrom::Start(entry.data_pos));
    let data = reader.read_up_to(entry.compressed_size);
    assert(data@ == stored_data(entry@, stream));
    let mut cipher = cipher;
    let result = match &mut cipher {
        Some(c) => decompress_to(
            data.as_slice(),
            writer,
            entry,
            entry.uncompressed_size,
            Some(c),
        ),
        None => decompress_to(data.as_slice(), writer, entry, entry.uncompressed_size, None),
    };
    let solid: u64 = reader.solid_size();
    let cut = entry.compressed_size > 0 && (entry.data_pos > solid || entry.compressed_size > solid
        - entry.data_pos);
    let failure = match result {
        Ok(crc) => {
            if crc == entry.file_crc {
                return Ok(());
            }
            AlzError::InvalidFileCrc { expected: entry.file_crc, got: crc }
        },
        Err(e) => e,
    };
    // Missing data shows in a stream that cannot be decoded and in a wrong CRC.
    match failure {
        AlzError::Bzip2Failed(_) if cut => Err(unexpected_eof()),
        AlzError::InflateFailed(_) if cut => Err(unexpected_eof()),
        AlzError::InvalidFileCrc { .. } if cut => Err(unexpected_eof()),
        e => Err(e),
    }
}

/// What extracting an entry writes, and what goes wrong.
pub open spec fn extracted(
    entry: archive::EntryView,
    stream: Seq<u8>,
    solid: nat,
    password: Option<Seq<u8>>,
) -> (Seq<u8>, Option<crate::error::ErrorView>) {
    match prepared(entry, password) {
        Err(e) => (Seq::empty(), Some(e)),
        Ok((_, keys)) => if entry.is_directory() {
            (Seq::empty(), None)
        } else {
            unpacked(entry, stream, solid, keys)
        },
    }
}

/// Extract a single file entry from the archive to `writer`. A directory has
/// nothing to write.
pub fn extract_entry(
    archive: &mut AlzArchive,
    entry: &AlzFileEntry,
    password: Option<&str>,
    writer: &mut Vec<u8>,
) -> (r: AlzResult<()>)
    requires
        old(archive).reader.wf(),
        password_fits(password),
    ensures
        final(archive).reader.wf(),
        same_archive(*final(archive), *old(archive)),
        ({
            let (output, failure) = extracted(
                entry@,
                old(archive).reader@.stream,
                old(archive).reader@.solid,
                password_bytes(password_text(password)),
            );
            &&& final(writer)@ == old(writer)@ + output
            &&& match r {
                Ok(()) => failure is None,
                Err(e) => failure == Some(e@),
            }
        }),
{
    extract_from(&mut archive.reader, entry, password, writer)
}

fn extract_from(
    reader: &mut MultiVolumeReader,
    entry: &AlzFileEntry,
    password: Option<&str>,
    writer: &mut Vec<u8>,
) -> (r: AlzResult<()>)
    requires
        old(reader).wf(),
        password_fits(password),
    ensures
        final(reader).wf(),
        final(reader)@.stream == old(reader)@.stream,
        final(reader)@.solid == old(reader)@.solid,
        final(reader)@.tail == old(reader)@.tail,
        ({
            let (output, failure) = extracted(
                entry@,
                old(reader)@.stream,
                old(reader)@.solid,
                password_bytes(password_text(password)),
            );
            &&& final(writer)@ == old(writer)@ + output
            &&& match r {
                Ok(()) => failure is None,
                Err(e) => failure == Some(e@),
            }
        }),
{
    assert(writer@ + Seq::<u8>::empty() =~= writer@);
    match prepare_entry(entry, password) {
        Ok((_, cipher)) => {
            if entry.is_directory() {
                return Ok(());
            }
            unpack_entry(reader, entry, cipher, writer)
        },
        Err(e) => Err(e),
    }
}

/// The message that an entry is being extracted.
pub open spec fn announcement(entry: archive::EntryView) -> Seq<char> {
    "\nextracting : "@ + entry.file_name + " ("@ + text::decimal(entry.uncompressed_size as nat)
        + "bytes) "@
}

/// The message that an entry was extracted.
pub open spec fn success_note() -> Seq<char> {
    ".. ok"@
}

/// The warning that the data ended inside the entry behind `done` others.
pub open spec fn cut_warning(done: nat, total: nat) -> Seq<char> {
    "\nwarning: archive truncated after "@ + text::decimal(done) + " of "@ + text::decimal(total)
        + " files (missing split volume?); kept the complete files\n"@
}

/// The warning that the data ended behind the last entry it has.
pub open spec fn index_warning(total: nat) -> Seq<char> {
    "\nwarning: archive truncated (missing split volume?); kept the "@ + text::decimal(total)
        + " complete files\n"@
}

/// The warning that the data ended inside a file that was asked for.
pub open spec fn file_warning(name: Seq<char>) -> Seq<char> {
    "\nwarning: "@ + name + " is truncated (missing split volume?); its data is incomplete\n"@
}

/// The message that no entry has a name that was asked for.
pub open spec fn unmatched_note(name: Seq<char>) -> Seq<char> {
    "\nfilename not matched : "@ + name + "\n"@
}

/// A message, where messages are wanted.
pub open spec fn shown(show: bool, message: Seq<char>) -> Seq<char> {
    if show {
        message
    } else {
        Seq::empty()
    }
}

/// Say that an entry is being extracted.
pub fn announce(entry: &AlzFileEntry, show: bool, log: &mut String)
    ensures
        final(log)@ == old(log)@ + shown(show, announcement(entry@)),
{
    let ghost before = log@;
    if show {
        log.append("\nextracting : ");
        log.append(entry.file_name.as_str());
        log.append(" (");
        text::push_number(log, entry.uncompressed_size, 10, 0, '0');
        log.append("bytes) ");
    }
    assert(log@ =~= before + shown(show, announcement(entry@)));
}

/// Go on from the outcome of one entry out of all: to the next entry, or to
/// the end with what is complete, or to a failure.
pub fn after_entry(
    outcome: AlzResult<()>,
    done: usize,
    total: usize,
    show: bool,
    log: &mut String,
) -> (r: AlzResult<bool>)
    ensures
        match outcome {
            Ok(()) => r == Ok::<bool, AlzError>(true) && final(log)@ == old(log)@ + shown(
                show,
                success_note(),
            ),
            Err(e) => if e@.is_truncation() {
                &&& r == Ok::<bool, AlzError>(false)
                &&& final(log)@ == old(log)@ + cut_warning(done as nat, total as nat)
            } else {
                &&& r == Err::<bool, AlzError>(e)
                &&& final(log)@ == old(log)@
            },
        },
{
    let ghost before = log@;
    match outcome {
        Ok(()) => {
            if show {
                log.append(".. ok");
            }
            assert(log@ =~= before + shown(show, success_note()));
            Ok(true)
        },
        Err(e) => {
            if !e.is_truncation() {
                return Err(e);
            }
            log.append("\nwarning: archive truncated after ");
            text::push_number(log, done as u64, 10, 0, '0');
            log.append(" of ");
            text::push_number(log, total as u64, 10, 0, '0');
            log.append(" files (missing split volume?); kept the complete files\n");
            assert(log@ =~= before + cut_warning(done as nat, total as nat));
            Ok(false)
        },
    }
}

/// Come to the end of all entries. The index itself may have ended on a
/// truncated header, so there was no cut inside an entry and yet the archive
/// is incomplete.
pub fn after_all(truncated: bool, total: usize, log: &mut String) -> (complete: bool)
    ensures
        complete == !truncated,
        final(log)@ == old(log)@ + shown(truncated, index_warning(total as nat)),
{
    let ghost before = log@;
    if truncated {
        log.append("\nwarning: archive truncated (missing split volume?); kept the ");
        text::push_number(log, total as u64, 10, 0, '0');
        log.append(" complete files\n");
    }
    assert(log@ =~= before + shown(truncated, index_warning(total as nat)));
    !truncated
}

/// Go on from the outcome of one entry that was asked for by name.
pub fn after_named(outcome: AlzResult<()>, name: &str, show: bool, log: &mut String) -> (r:
    AlzResult<bool>)
    ensures
        match outcome {
            Ok(()) => r == Ok::<bool, AlzError>(true) && final(log)@ == old(log)@ + shown(
                show,
                success_note(),
            ),
            Err(e) => if e@.is_truncation() {
                &&& r == Ok::<bool, AlzError>(false)
                &&& final(log)@ == old(log)@ + file_warning(name@)
            } else {
                &&& r == Err::<bool, AlzError>(e)
                &&& final(log)@ == old(log)@
            },
        },
{
    let ghost before = log@;
    match outcome {
        Ok(()) => {
            if show {
                log.append(".. ok");
            }
            assert(log@ =~= before + shown(show, success_note()));
            Ok(true)
        },
        Err(e) => {
            if !e.is_truncation() {
                return Err(e);
            }
            log.append("\nwarning: ");
            log.append(name);
            log.append(" is truncated (missing split volume?); its data is incomplete\n");
            assert(log@ =~= before + file_warning(name@));
            Ok(false)
        },
    }
}

/// Say that no entry has the name that was asked for.
pub fn note_unmatched(name: &str, show: bool, log: &mut String)
    ensures
        final(log)@ == old(log)@ + shown(show, unmatched_note(name@)),
{
    let ghost before = log@;
    if show {
        log.append("\nfilename not matched : ");
        log.append(name);
        log.append("\n");
    }
    assert(log@ =~= before + shown(show, unmatched_note(name@)));
}

/// What extracting several entries amounts to: what is written, what is
/// reported, and whether all of it was there.
pub struct RunView {
    pub written: Seq<u8>,
    pub log: Seq<char>,
    pub result: Result<bool, crate::error::ErrorView>,
}

impl RunView {
    /// The run with something before it.
    pub open spec fn after(self, written: Seq<u8>, log: Seq<char>) -> RunView {
        RunView { written: written + self.written, log: log + self.log, result: self.result }
    }
}

/// Extracting all entries from number `i` on.
pub open spec fn all_from(
    entries: Seq<archive::EntryView>,
    i: nat,
    stream: Seq<u8>,
    solid: nat,
    truncated: bool,
    password: Option<Seq<u8>>,
    show: bool,
) -> RunView
    decreases entries.len() - i,
{
    if i >= entries.len() {
        RunView {
            written: Seq::empty(),
            log: shown(truncated, index_warning(entries.len())),
            result: Ok(!truncated),
        }
    } else {
        let (output, failure) = extracted(entries[i as int], stream, solid, password);
        let head = shown(show, announcement(entries[i as int]));
        match failure {
            None => all_from(entries, i + 1, stream, solid, truncated, password, show).after(
                output,
                head + shown(show, success_note()),
            ),
            Some(e) => if e.is_truncation() {
                RunView {
                    written: output,
                    log: head + cut_warning(i, entries.len()),
                    result: Ok(false),
                }
            } else {
                RunView { written: output, log: head, result: Err(e) }
            },
        }
    }
}

/// Extract all entries to `writer`, one behind the other. Returns `Ok(true)`
/// when every entry was written, or `Ok(false)` when the archive was
/// truncated: the complete files before the cut are kept and a warning is put
/// to `log`.
#[verifier::rlimit(40)]
pub fn extract_all(
    archive: &mut AlzArchive,
    password: Option<&str>,
    show: bool,
    writer: &mut Vec<u8>,
    log: &mut String,
) -> (r: AlzResult<bool>)
    requires
        old(archive).reader.wf(),
        password_fits(password),
    ensures
        final(archive).reader.wf(),
        same_archive(*final(archive), *old(archive)),
        ({
            let run = all_from(
                archive::entry_views(old(archive).entries@),
                0,
                old(archive).reader@.stream,
                old(archive).reader@.solid,
                old(archive).truncated,
                password_bytes(password_text(password)),
                show,
            );
            &&& final(writer)@ == old(writer)@ + run.written
            &&& final(log)@ == old(log)@ + run.log
            &&& match r {
                Ok(complete) => run.result == Ok::<bool, crate::error::ErrorView>(complete),
                Err(e) => run.result == Err::<bool, crate::error::ErrorView>(e@),
            }
        }),
{
    let ghost start = *archive;
    let ghost views = archive::entry_views(start.entries@);
    let ghost bytes = password_bytes(password_text(password));
    let ghost run = all_from(
        views,
        0,
        start.reader@.stream,
        start.reader@.solid,
        start.truncated,
        bytes,
        show,
    );
    let ghost written = writer@;
    let ghost logged = log@;
    let total: usize = archive.entries.len();
    let mut done: usize = 0;
    assert(writer@ + run.written =~= written + run.written);
    while done < total
        invariant
            done <= total,
            total == start.entries@.len(),
            views == archive::entry_views(start.entries@),
            start == *old(archive),
            written == old(writer)@,
            logged == old(log)@,
            run == all_from(
                views,
                0,
                start.reader@.stream,
                start.reader@.solid,
                start.truncated,
                bytes,
                show,
            ),
            bytes == password_bytes(password_text(password)),
            password_fits(password),
            archive.reader.wf(),
            same_archive(*archive, start),
            ({
                let rest = all_from(
                    views,
                    done as nat,
                    start.reader@.stream,
                    start.reader@.solid,
                    start.truncated,
                    bytes,
                    show,
                );
                &&& writer@ + rest.written == written + run.written
                &&& log@ + rest.log == logged + run.log
                &&& rest.result == run.result
            }),
        decreases total - done,
    {
        let ghost w0 = writer@;
        let ghost l0 = log@;
        let ghost rest = all_from(
            views,
            done as nat,
            start.reader@.stream,
            start.reader@.solid,
            start.truncated,
            bytes,
            show,
        );
        announce(&archive.entries[done], show, log);
        let outcome = extract_from(&mut archive.reader, &archive.entries[done], password, writer);
        match after_entry(outcome, done, total, show, log) {
            Ok(go_on) => {
                if !go_on {
                    assert(log@ =~= l0 + rest.log);
                    return Ok(false);
                }
            },
            Err(e) => {
                assert(log@ =~= l0 + rest.log);
                return Err(e);
            },
        }
        proof {
            let next = all_from(
                views,
                (done + 1) as nat,
                start.reader@.stream,
                start.reader@.solid,
                start.truncated,
                bytes,
                show,
            );
            assert(writer@ + next.written =~= w0 + rest.written);
            assert(log@ + next.log =~= l0 + rest.log);
        }
        done = done + 1;
    }
    let truncated = archive.truncated;
    let complete = after_all(truncated, total, log);
    assert(writer@ =~= written + run.written);
    assert(log@ =~= logged + run.log);
    Ok(complete)
}

/// The first entry from number `from` on that has the name.
pub open spec fn first_named(
    entries: Seq<archive::EntryView>,
    name: Seq<char>,
    from: nat,
) -> Option<nat>
    decreases entries.len() - from,
{
    if from >= entries.len() {
        None
    } else if entries[from as int].file_name == name {
        Some(from)
    } else {
        first_named(entries, name, from + 1)
    }
}

/// Find the first entry with a name.
pub fn find_entry(entries: &Vec<AlzFileEntry>, name: &String) -> (r: Option<usize>)
    ensures
        match r {
            Some(i) => i < entries@.len() && first_named(
                archive::entry_views(entries@),
                name@,
                0,
            ) == Some(i as nat),
            None => first_named(archive::entry_views(entries@), name@, 0) is None,
        },
{
    let ghost views = archive::entry_views(entries@);
    let mut i: usize = 0;
    while i < entries.len()
        invariant
            i <= entries@.len(),
            views == archive::entry_views(entries@),
            first_named(views, name@, 0) == first_named(views, name@, i as nat),
        decreases entries@.len() - i,
    {
        if entries[i].file_name == *name {
            return Some(i);
        }
        i = i + 1;
    }
    None
}

/// The texts of some names.
pub open spec fn name_texts(names: Seq<String>) -> Seq<Seq<char>> {
    Seq::new(names.len(), |i: int| names[i]@)
}

/// Extracting the entries that the names from number `k` on ask for.
/// `matched` says whether there was an entry for every name before.
pub open spec fn named_from(
    entries: Seq<archive::EntryView>,
    names: Seq<Seq<char>>,
    k: nat,
    matched: bool,
    stream: Seq<u8>,
    solid: nat,
    password: Option<Seq<u8>>,
    show: bool,
) -> RunView
    decreases names.len() - k,
{
    if k >= names.len() {
        RunView { written: Seq::empty(), log: Seq::empty(), result: Ok(matched) }
    } else {
        let name = names[k as int];
        match first_named(entries, name, 0) {
            None => named_from(entries, names, k + 1, false, stream, solid, password, show).after(
                Seq::empty(),
                shown(show, unmatched_note(name)),
            ),
            Some(i) => {
                let (output, failure) = extracted(entries[i as int], stream, solid, password);
                let head = shown(show, announcement(entries[i as int]));
                match failure {
                    None => named_from(
                        entries,
                        names,
                        k + 1,
                        matched,
                        stream,
                        solid,
                        password,
                        show,
                    ).after(output, head + shown(show, success_note())),
                    Some(e) => if e.is_truncation() {
                        RunView {
                            written: output,
                            log: head + file_warning(name),
                            result: Ok(false),
                        }
                    } else {
                        RunView { written: output, log: head, result: Err(e) }
                    },
                }
            },
        }
    }
}

/// Extract specific files by name to `writer`, one behind the other. Returns
/// whether there was a complete entry for every name.
#[verifier::rlimit(40)]
pub fn extract_files(
    archive: &mut AlzArchive,
    file_names: &Vec<String>,
    password: Option<&str>,
    show: bool,
    writer: &mut Vec<u8>,
    log: &mut String,
) -> (r: AlzResult<bool>)
    requires
        old(archive).reader.wf(),
        password_fits(password),
    ensures
        final(archive).reader.wf(),
        same_archive(*final(archive), *old(archive)),
        ({
            let run = named_from(
                archive::entry_views(old(archive).entries@),
                name_texts(file_names@),
                0,
                true,
                old(archive).reader@.stream,
                old(archive).reader@.solid,
                password_bytes(password_text(password)),
                show,
            );
            &&& final(writer)@ == old(writer)@ + run.written
            &&& final(log)@ == old(log)@ + run.log
            &&& match r {
                Ok(complete) => run.result == Ok::<bool, crate::error::ErrorView>(complete),
                Err(e) => run.result == Err::<bool, crate::error::ErrorView>(e@),
            }
        }),
{
    let ghost start = *archive;
    let ghost views = archive::entry_views(start.entries@);
    let ghost names = name_texts(file_names@);
    let ghost bytes = password_bytes(password_text(password));
    let ghost stream = start.reader@.stream;
    let ghost solid = start.reader@.solid;
    let ghost run = named_from(views, names, 0, true, stream, solid, bytes, show);
    let ghost written = writer@;
    let ghost logged = log@;
    let mut all_matched = true;
    let mut k: usize = 0;
    while k < file_names.len()
        invariant
            k <= file_names@.len(),
            views == archive::entry_views(start.entries@),
            names == name_texts(file_names@),
            start == *old(archive),
            stream == start.reader@.stream,
            solid == start.reader@.solid,
            written == old(writer)@,
            logged == old(log)@,
            run == named_from(views, names, 0, true, stream, solid, bytes, show),
            bytes == password_bytes(password_text(password)),
            password_fits(password),
            archive.reader.wf(),
            same_archive(*archive, start),
            ({
                let rest = named_from(
                    views,
                    names,
                    k as nat,
                    all_matched,
                    stream,
                    solid,
                    bytes,
                    show,
                );
                &&& writer@ + rest.written == written + run.written
                &&& log@ + rest.log == logged + run.log
                &&& rest.result == run.result
            }),
        decreases file_names@.len() - k,
    {
        let ghost w0 = writer@;
        let ghost l0 = log@;
        let ghost rest = named_from(
            views,
            names,
            k as nat,
            all_matched,
            stream,
            solid,
            bytes,
            show,
        );
        match find_entry(&archive.entries, &file_names[k]) {
            Some(i) => {
                announce(&archive.entries[i], show, log);
                let outcome = extract_from(
                    &mut archive.reader,
                    &archive.entries[i],
                    password,
                    writer,
                );
                match after_named(outcome, file_names[k].as_str(), show, log) {
                    Ok(go_on) => {
                        if !go_on {
                            assert(log@ =~= l0 + rest.log);
                            return Ok(false);
                        }
                    },
                    Err(e) => {
                        assert(log@ =~= l0 + rest.log);
                        return Err(e);
                    },
                }
            },
            None => {
                all_matched = false;
                note_unmatched(file_names[k].as_str(), show, log);
            },
        }
        proof {
            let next = named_from(
                views,
                names,
                (k + 1) as nat,
                all_matched,
                stream,
                solid,
                bytes,
                show,
            );
            assert(writer@ + next.written =~= w0 + rest.written);
            assert(log@ + next.log =~= l0 + rest.log);
        }
        k = k + 1;
    }
    assert(writer@ =~= written + run.written);
    assert(log@ =~= logged + run.log);
    Ok(all_matched)
}

/// Nothing but what passed its CRC counts as extracted.
pub proof fn lemma_success_is_verified(
    entry: archive::EntryView,
    stream: Seq<u8>,
    solid: nat,
    password: Option<Seq<u8>>,
)
    ensures
        extracted(entry, stream, solid, password).1 is None && !entry.is_directory()
            ==> crypto::crc32_of(extracted(entry, stream, solid, password).0) == entry.file_crc,
{
}

/// No entry writes more than its declared size.
pub proof fn lemma_output_within_declared_size(
    entry: archive::EntryView,
    stream: Seq<u8>,
    solid: nat,
    password: Option<Seq<u8>>,
)
    ensures
        extracted(entry, stream, solid, password).0.len() <= entry.uncompressed_size,
{
    match prepared(entry, password) {
        Err(_) => {},
        Ok((_, keys)) => {
            let data = stored_data(entry, stream);
            bzip2::lemma_blocks_keep_the_limit(
                decompress::decrypted(keys, data),
                0,
                entry.uncompressed_size,
            );
            let bound: nat = if data.len() <= entry.uncompressed_size {
                data.len()
            } else {
                entry.uncompressed_size as nat
            };
            assert(bound / raw::BUF_SIZE as nat * raw::BUF_SIZE as nat <= bound)
                by (nonlinear_arith)
                requires
                    raw::BUF_SIZE > 0,
            ;
        },
    }
}

/// An encrypted entry is never written without a password, nor with one that
/// fails the check of its header.
pub proof fn lemma_encrypted_needs_password(
    entry: archive::EntryView,
    stream: Seq<u8>,
    solid: nat,
    password: Option<Seq<u8>>,
)
    requires
        entry.is_encrypted(),
        entry_keys(entry, password) is Err,
    ensures
        extracted(entry, stream, solid, password).0.len() == 0,
        extracted(entry, stream, solid, password).1 == Some(entry_keys(entry, password)->Err_0),
        password is None ==> extracted(entry, stream, solid, password).1 == Some(
            crate::error::ErrorView::PasswordNotSet,
        ),
{
}

/// A stored file that was encrypted with a password comes back with it.
pub proof fn lemma_stored_file_comes_back(
    entry: archive::EntryView,
    stream: Seq<u8>,
    solid: nat,
    password: Seq<u8>,
    plain_header: Seq<u8>,
    plain: Seq<u8>,
)
    requires
        entry.is_encrypted(),
        !entry.is_directory(),
        !is_unsafe(normalized(entry.file_name)),
        entry.compression_method == CompressionMethod::Store,
        entry.compressed_size == plain.len(),
        entry.uncompressed_size == plain.len(),
        entry.file_crc == crypto::crc32_of(plain),
        plain_header.len() == crypto::ENCR_HEADER_LEN,
        plain_header.last() == crypto::header_check_byte(
            entry.file_crc,
            entry.file_time_date,
            entry.has_data_descriptor(),
        ),
        entry.enc_check == Some(
            crypto::enciphered(crypto::password_keys(password), plain_header),
        ),
        stored_data(entry, stream) == crypto::enciphered(
            crypto::keys_after_plain(crypto::password_keys(password), plain_header),
            plain,
        ),
    ensures
        extracted(entry, stream, solid, Some(password)) == (plain, None::<crate::error::ErrorView>),
{
    let keys = crypto::password_keys(password);
    crypto::lemma_right_password_is_accepted(
        keys,
        plain_header,
        entry.file_crc,
        entry.file_time_date,
        entry.has_data_descriptor(),
    );
    crypto::lemma_decipher_undoes_encipher(keys, plain_header);
    let data_keys = crypto::keys_after_plain(keys, plain_header);
    crypto::lemma_decipher_undoes_encipher(data_keys, plain);
    let data = stored_data(entry, stream);
    assert(data.len() == plain.len());
    assert(data.take(data.len() as int) =~= data);
}

/// A stored file that is not encrypted comes back as it is in the archive.
pub proof fn lemma_plain_file_comes_back(
    entry: archive::EntryView,
    stream: Seq<u8>,
    solid: nat,
    password: Option<Seq<u8>>,
    plain: Seq<u8>,
)
    requires
        !entry.is_encrypted(),
        !entry.is_directory(),
        !is_unsafe(normalized(entry.file_name)),
        entry.compression_method == CompressionMethod::Store,
        entry.compressed_size == plain.len(),
        entry.uncompressed_size == plain.len(),
        entry.file_crc == crypto::crc32_of(plain),
        stored_data(entry, stream) == plain,
    ensures
        extracted(entry, stream, solid, password) == (plain, None::<crate::error::ErrorView>),
{
    assert(plain.take(plain.len() as int) =~= plain);
}

/// A file in ALZ bzip2 blocks comes back where the decoder tells the ends of
/// the blocks.
pub proof fn lemma_bzip2_file_comes_back(
    entry: archive::EntryView,
    stream: Seq<u8>,
    solid: nat,
    password: Option<Seq<u8>>,
    blocks: Seq<bzip2::Block>,
)
    requires
        !entry.is_encrypted(),
        !entry.is_directory(),
        !is_unsafe(normalized(entry.file_name)),
        entry.compression_method == CompressionMethod::Bzip2,
        stored_data(entry, stream) == bits::packed(bzip2::framed(blocks)),
        entry.compressed_size == stored_data(entry, stream).len(),
        entry.compressed_size <= bzip2::MAX_BZ2_COMPRESSED,
        entry.uncompressed_size == bzip2::block_data(blocks).len(),
        entry.file_crc == crypto::crc32_of(bzip2::block_data(blocks)),
        bzip2::ends_show(bits::packed(bzip2::framed(blocks)), 0, blocks),
    ensures
        extracted(entry, stream, solid, password) == (
            bzip2::block_data(blocks),
            None::<crate::error::ErrorView>,
        ),
{
    bzip2::lemma_framed_blocks_come_back(blocks, entry.uncompressed_size);
}

/// A file whose data is all in the first `n` bytes of an archive, and is fine,
/// is extracted alike from every stream that starts with those bytes, such as
/// what is left of a truncated archive.
pub proof fn lemma_complete_file_survives_cut(
    entry: archive::EntryView,
    stream: Seq<u8>,
    solid: nat,
    other: Seq<u8>,
    other_solid: nat,
    n: nat,
    password: Option<Seq<u8>>,
)
    requires
        n <= stream.len(),
        n <= other.len(),
        stream.take(n as int) == other.take(n as int),
        entry.data_pos + entry.compressed_size <= n,
        extracted(entry, stream, solid, password).1 is None,
    ensures
        extracted(entry, other, other_solid, password) == extracted(
            entry,
            stream,
            solid,
            password,
        ),
{
    let from = entry.data_pos as int;
    let to = entry.data_pos + entry.compressed_size;
    assert(stream.subrange(from, to) =~= stream.take(n as int).subrange(from, to));
    assert(other.subrange(from, to) =~= other.take(n as int).subrange(from, to));
    assert(stored_data(entry, other) =~= stream.subrange(from, to));
    assert(stored_data(entry, stream) =~= stream.subrange(from, to));
}

/// A file whose data is cut is reported as truncated, not as broken: what goes
/// wrong is the end of the data, unless it declares a size that is too small
/// for what is there, or a method that is unknown.
pub proof fn lemma_cut_file_is_truncated(
    entry: archive::EntryView,
    stream: Seq<u8>,
    solid: nat,
    password: Option<Seq<u8>>,
)
    requires
        prepared(entry, password) is Ok,
        !entry.is_directory(),
        is_cut(entry, solid),
    ensures
        extracted(entry, stream, solid, password).1 matches Some(e) ==> e
            == crate::error::eof_error() || e is UncompressedSizeExceeded
            || e is UnknownCompressionMethod,
        entry.compression_method == CompressionMethod::Store && entry.compressed_size
            <= entry.uncompressed_size && stored_data(entry, stream).len() < entry.compressed_size
            ==> extracted(entry, stream, solid, password).1 == Some(crate::error::eof_error()),
{
    let keys = prepared(entry, password)->Ok_0.1;
    let data = stored_data(entry, stream);
    let available = data.len();
    let size = entry.compressed_size as nat;
    let done = raw::raw_len(available, size, entry.uncompressed_size as nat);
    if entry.compressed_size <= entry.uncompressed_size && available < size {
        assert(done + raw::BUF_SIZE > available) by (nonlinear_arith)
            requires
                done == available / raw::BUF_SIZE as nat * raw::BUF_SIZE as nat,
                raw::BUF_SIZE > 0,
        ;
    }
    if entry.compression_method == CompressionMethod::Bzip2 {
        bzip2::lemma_block_failures(
            decompress::decrypted(keys, data),
            0,
            entry.uncompressed_size,
        );
    }
}

/// A run that comes to a cut file keeps what is before it and ends with a
/// warning, not with a failure.
pub proof fn lemma_cut_file_ends_the_run(
    entries: Seq<archive::EntryView>,
    k: nat,
    stream: Seq<u8>,
    solid: nat,
    truncated: bool,
    password: Option<Seq<u8>>,
    show: bool,
)
    requires
        k < entries.len(),
        forall|j: int|
            0 <= j < k ==> extracted(#[trigger] entries[j], stream, solid, password).1 is None,
        extracted(entries[k as int], stream, solid, password).1 matches Some(e)
            && e.is_truncation(),
    ensures
        ({
            let run = all_from(entries, 0, stream, solid, truncated, password, show);
            let files = Seq::new(
                k,
                |j: int| extracted(entries[j], stream, solid, password).0,
            ).flatten();
            &&& run.result == Ok::<bool, crate::error::ErrorView>(false)
            &&& run.written == files + extracted(entries[k as int], stream, solid, password).0
            &&& ends_with(run.log, cut_warning(k, entries.len()))
        }),
{
    lemma_fine_entries_are_written(entries, k, stream, solid, truncated, password, show);
    lemma_cut_log(entries, 0, k, stream, solid, truncated, password, show);
}

proof fn lemma_cut_log(
    entries: Seq<archive::EntryView>,
    i: nat,
    k: nat,
    stream: Seq<u8>,
    solid: nat,
    truncated: bool,
    password: Option<Seq<u8>>,
    show: bool,
)
    requires
        i <= k < entries.len(),
        forall|j: int|
            i <= j < k ==> extracted(#[trigger] entries[j], stream, solid, password).1 is None,
        extracted(entries[k as int], stream, solid, password).1 matches Some(e)
            && e.is_truncation(),
    ensures
        ends_with(
            all_from(entries, i, stream, solid, truncated, password, show).log,
            cut_warning(k, entries.len()),
        ),
    decreases k - i,
{
    let log = all_from(entries, i, stream, solid, truncated, password, show).log;
    let warning = cut_warning(k, entries.len());
    if i == k {
        assert(log.skip(log.len() - warning.len()) =~= warning);
    } else {
        lemma_cut_log(entries, i + 1, k, stream, solid, truncated, password, show);
        let rest = all_from(entries, i + 1, stream, solid, truncated, password, show).log;
        assert(log.skip(log.len() - warning.len()) =~= rest.skip(rest.len() - warning.len()));
    }
}

/// No component of an accepted name leads upwards, and the name starts at the
/// destination directory.
pub proof fn lemma_accepted_names_stay_inside(
    entry: archive::EntryView,
    password: Option<Seq<u8>>,
    from: int,
    to: int,
)
    requires
        prepared(entry, password) is Ok,
        is_component(prepared(entry, password)->Ok_0.0, from, to),
    ensures
        ({
            let name = prepared(entry, password)->Ok_0.0;
            &&& name.subrange(from, to) != "..".view()
            &&& name.len() > 0 ==> name[0] != '/'
            &&& !name.contains('\\')
        }),
{
    let name = prepared(entry, password)->Ok_0.0;
    reveal_strlit("..");
    let piece = name.subrange(from, to);
    if piece == ".."@ {
        assert(piece.len() == 2);
        assert(piece[0] == '.' && piece[1] == '.');
        assert(parent_at(name, from));
    }
}

/// Everything was extracted if and only if every entry was and the archive
/// was not truncated; what is written then is what the entries hold.
pub proof fn lemma_complete_means_every_entry(
    entries: Seq<archive::EntryView>,
    stream: Seq<u8>,
    solid: nat,
    truncated: bool,
    password: Option<Seq<u8>>,
    show: bool,
)
    ensures
        ({
            let run = all_from(entries, 0, stream, solid, truncated, password, show);
            let complete = !truncated && forall|j: int|
                0 <= j < entries.len() ==> extracted(#[trigger] entries[j], stream, solid, password).1
                    is None;
            &&& run.result == Ok::<bool, crate::error::ErrorView>(true) <==> complete
            &&& complete ==> run.written == Seq::new(
                entries.len(),
                |j: int| extracted(entries[j], stream, solid, password).0,
            ).flatten()
        }),
{
    let outputs = Seq::new(
        entries.len(),
        |j: int| extracted(entries[j], stream, solid, password).0,
    );
    lemma_complete_from(entries, 0, stream, solid, truncated, password, show);
    assert(outputs.skip(0) =~= outputs);
}

proof fn lemma_complete_from(
    entries: Seq<archive::EntryView>,
    i: nat,
    stream: Seq<u8>,
    solid: nat,
    truncated: bool,
    password: Option<Seq<u8>>,
    show: bool,
)
    requires
        i <= entries.len(),
    ensures
        ({
            let run = all_from(entries, i, stream, solid, truncated, password, show);
            let complete = !truncated && forall|j: int|
                i <= j < entries.len() ==> extracted(#[trigger] entries[j], stream, solid, password).1
                    is None;
            &&& run.result == Ok::<bool, crate::error::ErrorView>(true) <==> complete
            &&& complete ==> run.written == Seq::new(
                entries.len(),
                |j: int| extracted(entries[j], stream, solid, password).0,
            ).skip(i as int).flatten()
        }),
    decreases entries.len() - i,
{
    let outputs = Seq::new(
        entries.len(),
        |j: int| extracted(entries[j], stream, solid, password).0,
    );
    let rest = outputs.skip(i as int);
    if i < entries.len() {
        lemma_complete_from(entries, i + 1, stream, solid, truncated, password, show);
        assert(rest.first() == extracted(entries[i as int], stream, solid, password).0);
        assert(rest.drop_first() =~= outputs.skip((i + 1) as int));
    } else {
        assert(rest.len() == 0);
    }
}

/// Where the entries before number `k` are fine, what they hold is written
/// before anything else.
pub proof fn lemma_fine_entries_are_written(
    entries: Seq<archive::EntryView>,
    k: nat,
    stream: Seq<u8>,
    solid: nat,
    truncated: bool,
    password: Option<Seq<u8>>,
    show: bool,
)
    requires
        k <= entries.len(),
        forall|j: int|
            0 <= j < k ==> extracted(#[trigger] entries[j], stream, solid, password).1 is None,
    ensures
        all_from(entries, 0, stream, solid, truncated, password, show).written == Seq::new(
            k,
            |j: int| extracted(entries[j], stream, solid, password).0,
        ).flatten() + all_from(entries, k, stream, solid, truncated, password, show).written,
        all_from(entries, 0, stream, solid, truncated, password, show).result == all_from(
            entries,
            k,
            stream,
            solid,
            truncated,
            password,
            show,
        ).result,
    decreases k,
{
    let outputs = Seq::new(k, |j: int| extracted(entries[j], stream, solid, password).0);
    let last = all_from(entries, k, stream, solid, truncated, password, show).written;
    if k == 0 {
        assert(outputs.flatten() + last =~= last);
    } else {
        let before = (k - 1) as nat;
        lemma_fine_entries_are_written(entries, before, stream, solid, truncated, password, show);
        let fewer = Seq::new(before, |j: int| extracted(entries[j], stream, solid, password).0);
        let output = extracted(entries[before as int], stream, solid, password).0;
        assert(outputs.drop_last() =~= fewer);
        assert(outputs.last() == output);
        outputs.lemma_flatten_and_flatten_alt_are_equivalent();
        fewer.lemma_flatten_and_flatten_alt_are_equivalent();
        assert(outputs.flatten() == fewer.flatten() + output);
        assert(fewer.flatten() + (output + last) =~= (fewer.flatten() + output) + last);
    }
}

/// Whether a log ends with a message.
pub open spec fn ends_with(log: Seq<char>, message: Seq<char>) -> bool {
    message.len() <= log.len() && log.skip(log.len() - message.len()) == message
}

/// A run that comes to an end without having everything says so: its log ends
/// with a warning.
pub proof fn lemma_partial_run_warns(
    entries: Seq<archive::EntryView>,
    i: nat,
    stream: Seq<u8>,
    solid: nat,
    truncated: bool,
    password: Option<Seq<u8>>,
    show: bool,
)
    requires
        all_from(entries, i, stream, solid, truncated, password, show).result == Ok::<
            bool,
            crate::error::ErrorView,
        >(false),
    ensures
        ({
            let log = all_from(entries, i, stream, solid, truncated, password, show).log;
            ||| ends_with(log, index_warning(entries.len()))
            ||| exists|done: nat|
                done < entries.len() && ends_with(log, #[trigger] cut_warning(done, entries.len()))
        }),
    decreases entries.len() - i,
{
    let run = all_from(entries, i, stream, solid, truncated, password, show);
    if i >= entries.len() {
        assert(run.log.skip(0) =~= run.log);
    } else {
        let head = shown(show, announcement(entries[i as int]));
        let failure = extracted(entries[i as int], stream, solid, password).1;
        match failure {
            None => {
                lemma_partial_run_warns(entries, i + 1, stream, solid, truncated, password, show);
                let rest = all_from(entries, i + 1, stream, solid, truncated, password, show).log;
                let before = head + shown(show, success_note());
                assert forall|message: Seq<char>|
                    ends_with(rest, message) implies ends_with(run.log, message) by {
                    assert(run.log.skip(run.log.len() - message.len()) =~= rest.skip(
                        rest.len() - message.len(),
                    ));
                }
            },
            Some(_) => {
                let warning = cut_warning(i, entries.len());
                assert(run.log.skip(run.log.len() - warning.len()) =~= warning);
                assert(ends_with(run.log, warning));
            },
        }
    }
}

} // verus!
