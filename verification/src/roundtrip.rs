//! What extraction gives back of what was put into an archive.
use crate::archive;
use crate::archive::{CompressionMethod, EntryView};
use crate::crypto;
use crate::decompress;
use crate::decompress::{bits, bzip2, deflate, raw};
use crate::extract;
use crate::layout;
use crate::layout::Piece;
use vstd::prelude::*;

verus! {

/// An entry as it would be without encryption.
pub open spec fn opened(entry: EntryView) -> EntryView {
    EntryView {
        file_descriptor: (entry.file_descriptor - 1) as u8,
        enc_check: None,
        ..entry
    }
}

/// Whether a byte is the one that the check header of an entry has to end in:
/// the second byte of its time where it has a data descriptor, and else the
/// highest byte of its CRC.
pub open spec fn is_check_byte(entry: EntryView, b: u8) -> bool {
    if entry.file_descriptor / 8 % 2 == 1 {
        b == entry.file_time_date / 256 % 256
    } else {
        b == entry.file_crc / 0x100_0000
    }
}

/// Whether an entry was encrypted with a password from a check header.
pub open spec fn encrypted_with(entry: EntryView, password: Seq<u8>, header: Seq<u8>) -> bool {
    &&& entry.file_descriptor % 2 == 1
    &&& header.len() == 12
    &&& is_check_byte(entry, header.last())
    &&& entry.enc_check == Some(crypto::enciphered(crypto::password_keys(password), header))
}

/// The data of an entry as it is stored, with the keys that its check header
/// leaves.
pub open spec fn enciphered_data(password: Seq<u8>, header: Seq<u8>, data: Seq<u8>) -> Seq<u8> {
    crypto::enciphered(
        crypto::keys_after_plain(crypto::password_keys(password), header),
        data,
    )
}

/// The keys for the data of an entry that was encrypted with a password are
/// those that its check header leaves.
proof fn lemma_keys_for_data(entry: EntryView, password: Seq<u8>, header: Seq<u8>)
    requires
        encrypted_with(entry, password, header),
    ensures
        extract::entry_keys(entry, Some(password)) == Ok::<
            Option<crypto::CipherKeys>,
            crate::error::ErrorView,
        >(Some(crypto::keys_after_plain(crypto::password_keys(password), header))),
{
    archive::lemma_entry_flags(entry);
    crypto::lemma_check_byte_value(entry.file_crc, entry.file_time_date);
    crypto::lemma_decipher_undoes_encipher(crypto::password_keys(password), header);
}

/// What an entry is without encryption.
proof fn lemma_opened(entry: EntryView)
    requires
        entry.file_descriptor % 2 == 1,
    ensures
        !opened(entry).is_encrypted(),
        opened(entry).is_directory() == entry.is_directory(),
        extract::entry_keys(opened(entry), None) == Ok::<
            Option<crypto::CipherKeys>,
            crate::error::ErrorView,
        >(None),
{
    archive::lemma_entry_flags(entry);
    archive::lemma_entry_flags(opened(entry));
}

/// Decompression of enciphered data with the keys is that of the data.
proof fn lemma_decompressed_alike(
    entry: EntryView,
    keys: crypto::CipherKeys,
    plain: Seq<u8>,
    limit: u64,
)
    ensures
        extract::decompressed(entry, crypto::enciphered(keys, plain), limit, Some(keys))
            == extract::decompressed(opened(entry), plain, limit, None),
{
    let cipher = crypto::enciphered(keys, plain);
    let size = entry.compressed_size as nat;
    assert(cipher.len() == plain.len());
    crypto::lemma_decipher_undoes_encipher(keys, plain);
    match entry.compression_method {
        CompressionMethod::Store => {
            let n = raw::raw_len(plain.len(), size, limit as nat) as int;
            lemma_raw_len_bound(plain.len(), size, limit as nat);
            crypto::lemma_decipher_front(keys, cipher, n);
        },
        CompressionMethod::Deflate => {
            if plain.len() > size {
                crypto::lemma_decipher_front(keys, cipher, size as int);
            }
        },
        _ => {},
    }
}

/// Encryption is transparent, for every method: extracting an entry that was
/// encrypted with a password, with that password, is extracting what it was
/// before, from wherever that is stored.
pub proof fn lemma_encryption_is_transparent(
    entry: EntryView,
    stream: Seq<u8>,
    other: Seq<u8>,
    solid: nat,
    password: Seq<u8>,
    header: Seq<u8>,
)
    requires
        encrypted_with(entry, password, header),
        extract::stored_data(entry, stream) == enciphered_data(
            password,
            header,
            extract::stored_data(opened(entry), other),
        ),
    ensures
        extract::extracted(entry, stream, solid, Some(password)) == extract::extracted(
            opened(entry),
            other,
            solid,
            None,
        ),
{
    let keys = crypto::keys_after_plain(crypto::password_keys(password), header);
    let plain = extract::stored_data(opened(entry), other);
    lemma_keys_for_data(entry, password, header);
    lemma_opened(entry);
    lemma_decompressed_alike(entry, keys, plain, entry.uncompressed_size);
}

proof fn lemma_raw_len_bound(available: nat, size: nat, limit: nat)
    ensures
        raw::raw_len(available, size, limit) <= available,
        raw::raw_len(available, size, limit) <= limit,
{
    let bound = if available <= limit {
        available
    } else {
        limit
    };
    assert(bound / raw::BUF_SIZE as nat * raw::BUF_SIZE as nat <= bound) by (nonlinear_arith)
        requires
            raw::BUF_SIZE > 0,
    ;
}

/// Whether an entry is a file that may be extracted without a password.
pub open spec fn is_plain_file(entry: EntryView) -> bool {
    &&& entry.file_descriptor % 2 == 0
    &&& entry.file_attribute / 16 % 2 == 0
    &&& !extract::is_unsafe(extract::normalized(entry.file_name))
}

/// The data of an entry is the stretch of the stream that it declares.
pub proof fn lemma_data_is_in_place(entry: EntryView, stream: Seq<u8>)
    ensures
        entry.data_pos + entry.compressed_size <= stream.len() ==> extract::stored_data(
            entry,
            stream,
        ) == stream.subrange(
            entry.data_pos as int,
            entry.data_pos + entry.compressed_size,
        ),
        entry.data_pos <= stream.len() < entry.data_pos + entry.compressed_size
            ==> extract::stored_data(entry, stream) == stream.skip(entry.data_pos as int),
{
    let data = extract::stored_data(entry, stream);
    if entry.data_pos + entry.compressed_size <= stream.len() {
        assert(data =~= stream.subrange(
            entry.data_pos as int,
            entry.data_pos + entry.compressed_size,
        ));
    } else if entry.data_pos <= stream.len() {
        assert(data =~= stream.skip(entry.data_pos as int));
    }
}

/// Whether the stored data of an entry, by its method, stands for some data.
pub open spec fn stands_for(method: CompressionMethod, stored: Seq<u8>, data: Seq<u8>) -> bool {
    match method {
        CompressionMethod::Store => stored == data,
        CompressionMethod::Deflate => deflate::inflates_to(stored, data) && data.len() < usize::MAX
            / 2,
        CompressionMethod::Bzip2 => exists|blocks: Seq<bzip2::Block>|
            stored == #[trigger] bits::packed(bzip2::framed(blocks)) && bzip2::ends_show(
                stored,
                0,
                blocks,
            ) && data == bzip2::block_data(blocks) && stored.len() <= 536_870_912,
        CompressionMethod::Unknown(_) => false,
    }
}

/// A file comes back, whatever its method: where the stored data stands for
/// some data, and the size and the CRC are declared as they are, exactly that
/// data is written, and nothing goes wrong.
pub proof fn lemma_file_comes_back(
    entry: EntryView,
    stream: Seq<u8>,
    solid: nat,
    password: Option<Seq<u8>>,
    data: Seq<u8>,
)
    requires
        is_plain_file(entry),
        stands_for(entry.compression_method, extract::stored_data(entry, stream), data),
        entry.compressed_size == extract::stored_data(entry, stream).len(),
        entry.uncompressed_size == data.len(),
        entry.file_crc == crypto::crc32_of(data),
    ensures
        extract::extracted(entry, stream, solid, password) == (
            data,
            None::<crate::error::ErrorView>,
        ),
{
    archive::lemma_entry_flags(entry);
    let stored = extract::stored_data(entry, stream);
    match entry.compression_method {
        CompressionMethod::Store => {
            assert(stored.take(stored.len() as int) =~= stored);
        },
        CompressionMethod::Deflate => {
            deflate::lemma_inflated_data_comes_out(stored, data, entry.uncompressed_size);
        },
        CompressionMethod::Bzip2 => {
            let blocks = choose|blocks: Seq<bzip2::Block>|
                stored == #[trigger] bits::packed(bzip2::framed(blocks)) && bzip2::ends_show(
                    stored,
                    0,
                    blocks,
                ) && data == bzip2::block_data(blocks) && stored.len() <= 536_870_912;
            bzip2::lemma_framed_blocks_come_back(blocks, entry.uncompressed_size);
        },
        CompressionMethod::Unknown(_) => {},
    }
}

/// An encrypted file comes back with its password, whatever its method.
pub proof fn lemma_encrypted_file_comes_back(
    entry: EntryView,
    stream: Seq<u8>,
    solid: nat,
    password: Seq<u8>,
    header: Seq<u8>,
    stored: Seq<u8>,
    data: Seq<u8>,
)
    requires
        encrypted_with(entry, password, header),
        is_plain_file(opened(entry)),
        entry.data_pos + entry.compressed_size <= stream.len(),
        extract::stored_data(entry, stream) == enciphered_data(password, header, stored),
        stands_for(entry.compression_method, stored, data),
        entry.uncompressed_size == data.len(),
        entry.file_crc == crypto::crc32_of(data),
    ensures
        extract::extracted(entry, stream, solid, Some(password)) == (
            data,
            None::<crate::error::ErrorView>,
        ),
{
    lemma_data_is_in_place(entry, stream);
    let front = stream.take(entry.data_pos as int);
    let other = front + stored;
    let plain = opened(entry);
    assert(enciphered_data(password, header, stored).len() == stored.len());
    assert(plain.data_pos + plain.compressed_size <= stream.len());
    assert(stored.len() == entry.compressed_size);
    lemma_data_is_in_place(plain, other);
    assert(other.subrange(front.len() as int, other.len() as int) =~= stored);
    lemma_encryption_is_transparent(entry, stream, other, solid, password, header);
    lemma_file_comes_back(plain, other, solid, None, data);
}

/// The password of an encrypted entry is asked for and checked before anything
/// else: without one the entry is refused, and so it is with one under which
/// the check header does not end in the check byte. Nothing is written.
pub proof fn lemma_passwords_are_checked(
    entry: EntryView,
    stream: Seq<u8>,
    solid: nat,
    password: Option<Seq<u8>>,
)
    requires
        entry.file_descriptor % 2 == 1,
        entry.enc_check is Some,
        entry.enc_check->Some_0.len() == 12,
    ensures
        password is None ==> extract::extracted(entry, stream, solid, password) == (
            Seq::<u8>::empty(),
            Some(crate::error::ErrorView::PasswordNotSet),
        ),
        password is Some && !is_check_byte(
            entry,
            crypto::deciphered(
                crypto::password_keys(password->Some_0),
                entry.enc_check->Some_0,
            ).last(),
        ) ==> extract::extracted(entry, stream, solid, password) == (
            Seq::<u8>::empty(),
            Some(crate::error::ErrorView::InvalidPassword),
        ),
        password is Some && is_check_byte(
            entry,
            crypto::deciphered(
                crypto::password_keys(password->Some_0),
                entry.enc_check->Some_0,
            ).last(),
        ) ==> !(extract::extracted(entry, stream, solid, password).1 matches Some(e) && (
        e is InvalidPassword || e is PasswordNotSet)),
{
    archive::lemma_entry_flags(entry);
    crypto::lemma_check_byte_value(entry.file_crc, entry.file_time_date);
    if password is Some {
        let keys = crypto::keys_after_cipher(
            crypto::password_keys(password->Some_0),
            entry.enc_check->Some_0,
        );
        bzip2::lemma_block_failures(
            decompress::decrypted(Some(keys), extract::stored_data(entry, stream)),
            0,
            entry.uncompressed_size,
        );
    }
}

/// An entry that is not encrypted does not look at the password.
pub proof fn lemma_plain_entries_need_no_password(
    entry: EntryView,
    stream: Seq<u8>,
    solid: nat,
    a: Option<Seq<u8>>,
    b: Option<Seq<u8>>,
)
    requires
        entry.file_descriptor % 2 == 0,
    ensures
        extract::extracted(entry, stream, solid, a) == extract::extracted(
            entry,
            stream,
            solid,
            b,
        ),
{
    archive::lemma_entry_flags(entry);
}

/// A directory is no file: whatever its data, nothing is written.
pub proof fn lemma_directories_write_nothing(
    entry: EntryView,
    stream: Seq<u8>,
    solid: nat,
    password: Option<Seq<u8>>,
)
    requires
        entry.file_descriptor % 2 == 0,
        entry.file_attribute / 16 % 2 == 1,
        !extract::is_unsafe(extract::normalized(entry.file_name)),
    ensures
        extract::extracted(entry, stream, solid, password) == (
            Seq::<u8>::empty(),
            None::<crate::error::ErrorView>,
        ),
{
    archive::lemma_entry_flags(entry);
}

/// The CRC is verified: an entry that differs from one that can be extracted
/// only in the CRC it declares writes the same, but fails with both checksums.
pub proof fn lemma_wrong_crc_is_refused(
    entry: EntryView,
    stream: Seq<u8>,
    solid: nat,
    password: Option<Seq<u8>>,
    wrong: u32,
)
    requires
        is_plain_file(entry),
        extract::extracted(entry, stream, solid, password).1 is None,
        wrong != entry.file_crc,
        entry.data_pos + entry.compressed_size <= solid,
    ensures
        extract::extracted(EntryView { file_crc: wrong, ..entry }, stream, solid, password) == (
            extract::extracted(entry, stream, solid, password).0,
            Some(
                crate::error::ErrorView::InvalidFileCrc { expected: wrong, got: entry.file_crc },
            ),
        ),
{
    archive::lemma_entry_flags(entry);
    archive::lemma_entry_flags(EntryView { file_crc: wrong, ..entry });
    let other = EntryView { file_crc: wrong, ..entry };
    assert(extract::stored_data(other, stream) == extract::stored_data(entry, stream));
}

/// A method that is not known is refused by its number.
pub proof fn lemma_unknown_methods_are_refused(
    entry: EntryView,
    stream: Seq<u8>,
    solid: nat,
    password: Option<Seq<u8>>,
    method: u8,
)
    requires
        is_plain_file(entry),
        entry.compression_method == CompressionMethod::Unknown(method),
    ensures
        extract::extracted(entry, stream, solid, password) == (
            Seq::<u8>::empty(),
            Some(crate::error::ErrorView::UnknownCompressionMethod(method)),
        ),
{
    archive::lemma_entry_flags(entry);
}

/// A file that is larger than it declares is refused, whatever its method, and
/// the limit that is reported is the declared size.
pub proof fn lemma_larger_files_are_refused(
    entry: EntryView,
    stream: Seq<u8>,
    solid: nat,
    password: Option<Seq<u8>>,
    data: Seq<u8>,
)
    requires
        is_plain_file(entry),
        stands_for(entry.compression_method, extract::stored_data(entry, stream), data),
        entry.compressed_size == extract::stored_data(entry, stream).len(),
        entry.uncompressed_size < data.len(),
    ensures
        extract::extracted(entry, stream, solid, password).1 == Some(
            crate::error::ErrorView::UncompressedSizeExceeded { limit: entry.uncompressed_size },
        ),
{
    archive::lemma_entry_flags(entry);
    let stored = extract::stored_data(entry, stream);
    match entry.compression_method {
        CompressionMethod::Store => {
            let limit = entry.uncompressed_size as nat;
            assert(limit / raw::BUF_SIZE as nat * raw::BUF_SIZE as nat <= limit)
                by (nonlinear_arith)
                requires
                    raw::BUF_SIZE > 0,
            ;
        },
        CompressionMethod::Deflate => {
            deflate::lemma_inflated_data_comes_out(stored, data, entry.uncompressed_size);
        },
        CompressionMethod::Bzip2 => {
            let blocks = choose|blocks: Seq<bzip2::Block>|
                stored == #[trigger] bits::packed(bzip2::framed(blocks)) && bzip2::ends_show(
                    stored,
                    0,
                    blocks,
                ) && data == bzip2::block_data(blocks) && stored.len() <= 536_870_912;
            bzip2::lemma_larger_blocks_are_refused(blocks, entry.uncompressed_size);
        },
        CompressionMethod::Unknown(_) => {},
    }
}

/// A name with `/` in place of every backslash.
pub open spec fn with_slashes(name: Seq<char>) -> Seq<char> {
    Seq::new(
        name.len(),
        |i: int|
            if name[i] == '\\' {
                '/'
            } else {
                name[i]
            },
    )
}

/// Whether the stretch of a path from `from` up to `to` is one of its
/// components.
pub open spec fn component(path: Seq<char>, from: int, to: int) -> bool {
    &&& 0 <= from <= to <= path.len()
    &&& from == 0 || path[from - 1] == '/'
    &&& to == path.len() || path[to] == '/'
    &&& forall|i: int| from <= i < to ==> path[i] != '/'
}

/// Whether a path stays where it is taken: no component of it leads upwards,
/// and it starts neither at a root nor at a drive.
pub open spec fn stays_inside(path: Seq<char>) -> bool {
    &&& forall|from: int, to: int|
        #[trigger] component(path, from, to) ==> !(to - from == 2 && path[from] == '.' && path[from
            + 1] == '.')
    &&& path.len() > 0 ==> path[0] != '/'
    &&& !(path.len() > 1 && path[1] == ':' && ('a' <= path[0] <= 'z' || 'A' <= path[0] <= 'Z'))
}

/// A name is accepted exactly where it stays inside, with slashes in place of
/// backslashes, and is extracted under that path; any other is refused with
/// it.
pub proof fn lemma_names_are_checked(entry: EntryView, password: Option<Seq<u8>>)
    requires
        entry.file_descriptor % 2 == 0,
    ensures
        ({
            let path = with_slashes(entry.file_name);
            if stays_inside(path) {
                extract::prepared(entry, password) == Ok::<
                    (Seq<char>, Option<crypto::CipherKeys>),
                    crate::error::ErrorView,
                >((path, None))
            } else {
                extract::prepared(entry, password) == Err::<
                    (Seq<char>, Option<crypto::CipherKeys>),
                    crate::error::ErrorView,
                >(crate::error::ErrorView::PathTraversal(path))
            }
        }),
        stays_inside(with_slashes(entry.file_name)) <==> !extract::is_unsafe(
            extract::normalized(entry.file_name),
        ),
{
    archive::lemma_entry_flags(entry);
    let path = with_slashes(entry.file_name);
    assert(extract::normalized(entry.file_name) =~= path);
    if extract::climbs(path) {
        let from = choose|from: int| #[trigger] extract::parent_at(path, from);
        assert(component(path, from, from + 2));
    }
    if exists|from: int, to: int|
        #[trigger] component(path, from, to) && to - from == 2 && path[from] == '.' && path[from
            + 1] == '.' {
        let (from, to) = choose|from: int, to: int|
            #[trigger] component(path, from, to) && to - from == 2 && path[from] == '.'
                && path[from + 1] == '.';
        assert(extract::parent_at(path, from));
    }
}

/// The entry that a name asks for is the first that has it.
pub proof fn lemma_first_of_the_name(entries: Seq<EntryView>, name: Seq<char>, from: nat)
    ensures
        match extract::first_named(entries, name, from) {
            Some(i) => {
                &&& from <= i < entries.len()
                &&& entries[i as int].file_name == name
                &&& forall|j: int| from <= j < i ==> (#[trigger] entries[j]).file_name != name
            },
            None => forall|j: int|
                from <= j < entries.len() ==> (#[trigger] entries[j]).file_name != name,
        },
    decreases entries.len() - from,
{
    if from < entries.len() && entries[from as int].file_name != name {
        lemma_first_of_the_name(entries, name, from + 1);
    }
}

/// Whether `hit` is the first entry that has a name, or nothing where none has
/// it.
pub open spec fn is_first(entries: Seq<EntryView>, name: Seq<char>, hit: Option<int>) -> bool {
    match hit {
        Some(i) => {
            &&& 0 <= i < entries.len()
            &&& entries[i].file_name == name
            &&& forall|j: int| 0 <= j < i ==> (#[trigger] entries[j]).file_name != name
        },
        None => forall|j: int|
            0 <= j < entries.len() ==> (#[trigger] entries[j]).file_name != name,
    }
}

/// What a name asks for writes: what its entry holds, or nothing.
pub open spec fn output_of(
    entries: Seq<EntryView>,
    hit: Option<int>,
    stream: Seq<u8>,
    solid: nat,
    password: Option<Seq<u8>>,
) -> Seq<u8> {
    match hit {
        Some(i) => extract::extracted(entries[i], stream, solid, password).0,
        None => Seq::empty(),
    }
}

/// Whether there is nothing wrong with what a name asks for.
pub open spec fn goes_well(
    entries: Seq<EntryView>,
    hit: Option<int>,
    stream: Seq<u8>,
    solid: nat,
    password: Option<Seq<u8>>,
) -> bool {
    hit matches Some(i) ==> extract::extracted(entries[i], stream, solid, password).1 is None
}

/// Extracting files by name writes what the first entries of those names hold,
/// with the password that was given, in the order of the names. All goes well
/// exactly where each name has an entry.
pub proof fn lemma_named_files_come_out(
    entries: Seq<EntryView>,
    names: Seq<Seq<char>>,
    hits: Seq<Option<int>>,
    stream: Seq<u8>,
    solid: nat,
    password: Option<Seq<u8>>,
    show: bool,
)
    requires
        hits.len() == names.len(),
        forall|k: int| 0 <= k < names.len() ==> is_first(entries, names[k], #[trigger] hits[k]),
        forall|k: int|
            0 <= k < hits.len() ==> goes_well(
                entries,
                #[trigger] hits[k],
                stream,
                solid,
                password,
            ),
    ensures
        ({
            let run = extract::named_from(
                entries,
                names,
                0,
                true,
                stream,
                solid,
                password,
                show,
            );
            &&& run.written == Seq::new(
                names.len(),
                |k: int| output_of(entries, hits[k], stream, solid, password),
            ).flatten()
            &&& run.result == Ok::<bool, crate::error::ErrorView>(
                forall|k: int| 0 <= k < hits.len() ==> #[trigger] hits[k] is Some,
            )
        }),
{
    lemma_named_from(
        entries,
        names,
        hits,
        0,
        names.len(),
        true,
        stream,
        solid,
        password,
        show,
    );
    let outputs = Seq::new(
        names.len(),
        |k: int| output_of(entries, hits[k], stream, solid, password),
    );
    assert(outputs.skip(0) =~= outputs);
    assert(outputs.subrange(0, names.len() as int) =~= outputs);
}

/// The run over the names from `k` on, up to `end`, where all goes well.
proof fn lemma_named_from(
    entries: Seq<EntryView>,
    names: Seq<Seq<char>>,
    hits: Seq<Option<int>>,
    k: nat,
    end: nat,
    matched: bool,
    stream: Seq<u8>,
    solid: nat,
    password: Option<Seq<u8>>,
    show: bool,
)
    requires
        k <= end <= names.len(),
        hits.len() == names.len(),
        forall|j: int| 0 <= j < names.len() ==> is_first(entries, names[j], #[trigger] hits[j]),
        forall|j: int|
            k <= j < end ==> goes_well(entries, #[trigger] hits[j], stream, solid, password),
    ensures
        ({
            let outputs = Seq::new(
                names.len(),
                |j: int| output_of(entries, hits[j], stream, solid, password),
            );
            let so_far = matched && forall|j: int| k <= j < end ==> #[trigger] hits[j] is Some;
            let run = extract::named_from(
                entries,
                names,
                k,
                matched,
                stream,
                solid,
                password,
                show,
            );
            let rest = extract::named_from(
                entries,
                names,
                end,
                so_far,
                stream,
                solid,
                password,
                show,
            );
            &&& run.written == outputs.subrange(k as int, end as int).flatten() + rest.written
            &&& run.result == rest.result
        }),
    decreases end - k,
{
    let outputs = Seq::new(
        names.len(),
        |j: int| output_of(entries, hits[j], stream, solid, password),
    );
    let part = outputs.subrange(k as int, end as int);
    let so_far = matched && forall|j: int| k <= j < end ==> #[trigger] hits[j] is Some;
    let last = extract::named_from(
        entries,
        names,
        end,
        so_far,
        stream,
        solid,
        password,
        show,
    ).written;
    if k == end {
        assert(part.len() == 0);
        assert(part.flatten() + last =~= last);
    } else {
        let hit = hits[k as int];
        lemma_first_of_the_name(entries, names[k as int], 0);
        let found = extract::first_named(entries, names[k as int], 0);
        assert(is_first(entries, names[k as int], hit));
        assert(found is Some <==> hit is Some);
        assert(hit matches Some(i) ==> found->Some_0 == i);
        assert(goes_well(entries, hit, stream, solid, password));
        lemma_named_from(
            entries,
            names,
            hits,
            k + 1,
            end,
            matched && hit is Some,
            stream,
            solid,
            password,
            show,
        );
        let later = matched && hit is Some && forall|j: int|
            k + 1 <= j < end ==> #[trigger] hits[j] is Some;
        assert(later == so_far) by {
            if later {
                assert forall|j: int| k <= j < end implies #[trigger] hits[j] is Some by {}
            }
        }
        assert(part.first() == output_of(entries, hit, stream, solid, password));
        assert(part.drop_first() =~= outputs.subrange((k + 1) as int, end as int));
        let tail = part.drop_first().flatten();
        assert(part.flatten() == part.first() + tail);
        assert(part.first() + (tail + last) =~= (part.first() + tail) + last);
    }
}

/// Where something goes wrong with what a name asks for, the run ends there:
/// with what came before and what came of it. Missing data is no failure, any
/// other error is.
pub proof fn lemma_named_failure_ends_the_run(
    entries: Seq<EntryView>,
    names: Seq<Seq<char>>,
    hits: Seq<Option<int>>,
    k: nat,
    stream: Seq<u8>,
    solid: nat,
    password: Option<Seq<u8>>,
    show: bool,
)
    requires
        k < names.len(),
        hits.len() == names.len(),
        forall|j: int| 0 <= j < names.len() ==> is_first(entries, names[j], #[trigger] hits[j]),
        forall|j: int|
            0 <= j < k ==> goes_well(entries, #[trigger] hits[j], stream, solid, password),
        !goes_well(entries, hits[k as int], stream, solid, password),
    ensures
        ({
            let run = extract::named_from(
                entries,
                names,
                0,
                true,
                stream,
                solid,
                password,
                show,
            );
            let failure = extract::extracted(
                entries[hits[k as int]->Some_0],
                stream,
                solid,
                password,
            ).1->Some_0;
            &&& run.written == Seq::new(
                k + 1,
                |j: int| output_of(entries, hits[j], stream, solid, password),
            ).flatten()
            &&& run.result == if ends_the_data(failure) {
                Ok::<bool, crate::error::ErrorView>(false)
            } else {
                Err::<bool, crate::error::ErrorView>(failure)
            }
        }),
{
    lemma_named_from(entries, names, hits, 0, k, true, stream, solid, password, show);
    lemma_first_of_the_name(entries, names[k as int], 0);
    assert(is_first(entries, names[k as int], hits[k as int]));
    let outputs = Seq::new(
        names.len(),
        |j: int| output_of(entries, hits[j], stream, solid, password),
    );
    let some = Seq::new(
        k + 1,
        |j: int| output_of(entries, hits[j], stream, solid, password),
    );
    assert(some.drop_last() =~= outputs.subrange(0, k as int));
    some.lemma_flatten_and_flatten_alt_are_equivalent();
    some.drop_last().lemma_flatten_and_flatten_alt_are_equivalent();
}

/// Whether an error says that the data ended too early.
pub open spec fn ends_the_data(e: crate::error::ErrorView) -> bool {
    e matches crate::error::ErrorView::Io(io) && io.kind == crate::error::IoKind::UnexpectedEof
}

/// Where something goes wrong with an entry, the run over all ends there: with
/// what came before and what came of it. Missing data is no failure, any other
/// error is.
pub proof fn lemma_failure_ends_the_run(
    entries: Seq<EntryView>,
    k: nat,
    stream: Seq<u8>,
    solid: nat,
    truncated: bool,
    password: Option<Seq<u8>>,
    show: bool,
)
    requires
        k < entries.len(),
        forall|j: int|
            0 <= j < k ==> extract::extracted(#[trigger] entries[j], stream, solid, password).1
                is None,
        extract::extracted(entries[k as int], stream, solid, password).1 is Some,
    ensures
        ({
            let run = extract::all_from(
                entries,
                0,
                stream,
                solid,
                truncated,
                password,
                show,
            );
            let (output, failure) = extract::extracted(
                entries[k as int],
                stream,
                solid,
                password,
            );
            &&& run.written == Seq::new(
                k,
                |j: int| extract::extracted(entries[j], stream, solid, password).0,
            ).flatten() + output
            &&& run.result == if ends_the_data(failure->Some_0) {
                Ok::<bool, crate::error::ErrorView>(false)
            } else {
                Err::<bool, crate::error::ErrorView>(failure->Some_0)
            }
        }),
{
    extract::lemma_fine_entries_are_written(
        entries,
        k,
        stream,
        solid,
        truncated,
        password,
        show,
    );
}

/// What is said of an entry before it is extracted, where reports are wanted.
pub open spec fn begun(entry: EntryView, show: bool) -> Seq<char> {
    if show {
        "\nextracting : "@ + entry.file_name + " ("@ + crate::text::digits(
            entry.uncompressed_size as nat,
            10,
        ) + "bytes) "@
    } else {
        Seq::empty()
    }
}

/// The report on an entry that was extracted.
pub open spec fn report(entry: EntryView, show: bool) -> Seq<char> {
    begun(entry, show) + if show {
        ".. ok"@
    } else {
        Seq::empty()
    }
}

/// What the log says of the entry that a run ends with: that it was begun, and
/// where its data is missing, how many files are complete.
pub open spec fn last_words(
    entry: EntryView,
    failure: crate::error::ErrorView,
    done: nat,
    total: nat,
    show: bool,
) -> Seq<char> {
    if ends_the_data(failure) {
        begun(entry, show) + ("\nwarning: archive truncated after "@ + crate::text::digits(done, 10)
            + " of "@ + crate::text::digits(total, 10)
            + " files (missing split volume?); kept the complete files\n"@)
    } else {
        begun(entry, show)
    }
}

/// The log of a run over all entries: a report on each that was extracted,
/// where reports are wanted, and then, where the run comes to the end of an
/// index that is truncated or to a file that is, a warning that says how many
/// files are complete.
pub proof fn lemma_log_of_all(
    entries: Seq<EntryView>,
    i: nat,
    k: nat,
    stream: Seq<u8>,
    solid: nat,
    truncated: bool,
    password: Option<Seq<u8>>,
    show: bool,
)
    requires
        i <= k <= entries.len(),
        forall|j: int|
            i <= j < k ==> extract::extracted(#[trigger] entries[j], stream, solid, password).1
                is None,
    ensures
        ({
            let log = extract::all_from(
                entries,
                i,
                stream,
                solid,
                truncated,
                password,
                show,
            ).log;
            let reports = Seq::new(
                (k - i) as nat,
                |j: int| report(entries[i + j], show),
            ).flatten();
            &&& k == entries.len() ==> log == reports + if truncated {
                "\nwarning: archive truncated (missing split volume?); kept the "@
                    + crate::text::digits(k, 10) + " complete files\n"@
            } else {
                Seq::empty()
            }
            &&& k < entries.len() ==> (extract::extracted(
                entries[k as int],
                stream,
                solid,
                password,
            ).1 matches Some(e) ==> log == reports + last_words(
                entries[k as int],
                e,
                k,
                entries.len(),
                show,
            ))
        }),
    decreases k - i,
{
    let log = extract::all_from(entries, i, stream, solid, truncated, password, show).log;
    let parts = Seq::new((k - i) as nat, |j: int| report(entries[i + j], show));
    if i == k {
        assert(parts.len() == 0);
        assert(parts.flatten() =~= Seq::<char>::empty());
        if k < entries.len() {
            let entry = entries[k as int];
            assert(extract::shown(show, extract::announcement(entry)) =~= begun(entry, show));
            match extract::extracted(entry, stream, solid, password).1 {
                Some(e) => {
                    assert(log =~= parts.flatten() + last_words(
                        entry,
                        e,
                        k,
                        entries.len(),
                        show,
                    ));
                },
                None => {},
            }
        } else {
            let warning = if truncated {
                "\nwarning: archive truncated (missing split volume?); kept the "@
                    + crate::text::digits(k, 10) + " complete files\n"@
            } else {
                Seq::empty()
            };
            assert(log =~= parts.flatten() + warning);
        }
    } else {
        lemma_log_of_all(entries, i + 1, k, stream, solid, truncated, password, show);
        let later = Seq::new((k - i - 1) as nat, |j: int| report(entries[i + 1 + j], show));
        let rest = extract::all_from(
            entries,
            i + 1,
            stream,
            solid,
            truncated,
            password,
            show,
        ).log;
        let first = report(entries[i as int], show);
        assert(parts.first() == first);
        assert(parts.drop_first() =~= later);
        assert(parts.flatten() == first + later.flatten());
        let head = extract::shown(show, extract::announcement(entries[i as int]));
        assert(head + extract::shown(show, extract::success_note()) =~= first);
        assert(log == first + rest);
        assert forall|w: Seq<char>| first + (later.flatten() + w) == #[trigger] (parts.flatten()
            + w) by {
            assert(first + (later.flatten() + w) =~= (first + later.flatten()) + w);
        }
    }
}

/// What the log says of a name: that its entry was extracted, or that there is
/// none.
pub open spec fn named_report(
    entries: Seq<EntryView>,
    name: Seq<char>,
    hit: Option<int>,
    show: bool,
) -> Seq<char> {
    match hit {
        Some(i) => report(entries[i], show),
        None => if show {
            "\nfilename not matched : "@ + name + "\n"@
        } else {
            Seq::empty()
        },
    }
}

/// The log of a run over some names: a report on each, where reports are
/// wanted, and then, where the data of a file is missing, a warning that names
/// it.
pub proof fn lemma_log_of_named(
    entries: Seq<EntryView>,
    names: Seq<Seq<char>>,
    hits: Seq<Option<int>>,
    i: nat,
    k: nat,
    matched: bool,
    stream: Seq<u8>,
    solid: nat,
    password: Option<Seq<u8>>,
    show: bool,
)
    requires
        i <= k <= names.len(),
        hits.len() == names.len(),
        forall|j: int| 0 <= j < names.len() ==> is_first(entries, names[j], #[trigger] hits[j]),
        forall|j: int|
            i <= j < k ==> goes_well(entries, #[trigger] hits[j], stream, solid, password),
    ensures
        ({
            let log = extract::named_from(
                entries,
                names,
                i,
                matched,
                stream,
                solid,
                password,
                show,
            ).log;
            let reports = Seq::new(
                (k - i) as nat,
                |j: int| named_report(entries, names[i + j], hits[i + j], show),
            ).flatten();
            &&& k == names.len() ==> log == reports
            &&& k < names.len() && !goes_well(entries, hits[k as int], stream, solid, password)
                ==> log == reports + ({
                let entry = entries[hits[k as int]->Some_0];
                let e = extract::extracted(entry, stream, solid, password).1->Some_0;
                if ends_the_data(e) {
                    begun(entry, show) + ("\nwarning: "@ + names[k as int]
                        + " is truncated (missing split volume?); its data is incomplete\n"@)
                } else {
                    begun(entry, show)
                }
            })
        }),
    decreases k - i,
{
    let log = extract::named_from(
        entries,
        names,
        i,
        matched,
        stream,
        solid,
        password,
        show,
    ).log;
    let parts = Seq::new(
        (k - i) as nat,
        |j: int| named_report(entries, names[i + j], hits[i + j], show),
    );
    if i < names.len() {
        lemma_first_of_the_name(entries, names[i as int], 0);
        assert(is_first(entries, names[i as int], hits[i as int]));
    }
    if i == k {
        assert(parts.len() == 0);
        assert(parts.flatten() =~= Seq::<char>::empty());
        if k == names.len() {
            assert(log =~= parts.flatten());
        } else if !goes_well(entries, hits[k as int], stream, solid, password) {
            let entry = entries[hits[k as int]->Some_0];
            let e = extract::extracted(entry, stream, solid, password).1->Some_0;
            assert(extract::shown(show, extract::announcement(entry)) =~= begun(entry, show));
            let words = if ends_the_data(e) {
                begun(entry, show) + ("\nwarning: "@ + names[k as int]
                    + " is truncated (missing split volume?); its data is incomplete\n"@)
            } else {
                begun(entry, show)
            };
            assert(log =~= parts.flatten() + words);
        }
    } else {
        let hit = hits[i as int];
        assert(goes_well(entries, hit, stream, solid, password));
        lemma_log_of_named(
            entries,
            names,
            hits,
            i + 1,
            k,
            matched && hit is Some,
            stream,
            solid,
            password,
            show,
        );
        let later = Seq::new(
            (k - i - 1) as nat,
            |j: int| named_report(entries, names[i + 1 + j], hits[i + 1 + j], show),
        );
        let rest = extract::named_from(
            entries,
            names,
            i + 1,
            matched && hit is Some,
            stream,
            solid,
            password,
            show,
        ).log;
        let first = named_report(entries, names[i as int], hit, show);
        assert(parts.first() == first);
        assert(parts.drop_first() =~= later);
        assert(parts.flatten() == first + later.flatten());
        match hit {
            Some(at) => {
                let head = extract::shown(show, extract::announcement(entries[at]));
                assert(head + extract::shown(show, extract::success_note()) =~= first);
            },
            None => {
                assert(extract::shown(show, extract::unmatched_note(names[i as int])) =~= first);
            },
        }
        assert(log == first + rest);
        assert forall|w: Seq<char>| first + (later.flatten() + w) == #[trigger] (parts.flatten()
            + w) by {
            assert(first + (later.flatten() + w) =~= (first + later.flatten()) + w);
        }
    }
}

/// A bzip2 entry of more than 512 MiB is refused.
pub proof fn lemma_huge_bzip2_entries_are_refused(
    entry: EntryView,
    stream: Seq<u8>,
    solid: nat,
    password: Option<Seq<u8>>,
)
    requires
        is_plain_file(entry),
        entry.compression_method == CompressionMethod::Bzip2,
        extract::stored_data(entry, stream).len() > 536_870_912,
        entry.data_pos + entry.compressed_size <= solid,
    ensures
        extract::extracted(entry, stream, solid, password) == (
            Seq::<u8>::empty(),
            Some(crate::error::ErrorView::Bzip2Failed("compressed size exceeds limit"@)),
        ),
{
    archive::lemma_entry_flags(entry);
}

/// What stands behind the models: a password is the CP949 bytes of its text,
/// a cipher has the three keys it is made of, and two archives that are the
/// same have the same data and entries.
pub proof fn lemma_models_are_faithful(
    password: Seq<char>,
    text: Option<&str>,
    cipher: crypto::ZipCrypto,
    a: archive::AlzArchive,
    b: archive::AlzArchive,
)
    ensures
        extract::password_bytes(Some(password)) == Some(
            crate::encoding::euc_kr_encoded(password),
        ),
        extract::password_bytes(None) is None,
        extract::password_text(text) is Some <==> text is Some,
        text matches Some(t) ==> extract::password_text(text) == Some(t@),
        extract::own_keys(Some(cipher)) == Some(cipher@),
        extract::own_keys(None) is None,
        cipher@.k0 == cipher.key@[0] && cipher@.k1 == cipher.key@[1] && cipher@.k2
            == cipher.key@[2],
        extract::same_archive(a, b) ==> a.entries == b.entries && a.truncated == b.truncated
            && a.is_encrypted == b.is_encrypted && a.is_data_descr == b.is_data_descr
            && a.reader@.stream == b.reader@.stream && a.reader@.solid == b.reader@.solid
            && a.reader@.tail == b.reader@.tail,
{
}

/// Whether the files among some pieces are well made of some contents: not
/// encrypted, no directories, with harmless names, and with stored data, a size
/// and a CRC that are those of the content.
pub open spec fn well_made(pieces: Seq<Piece>, contents: Seq<Seq<u8>>) -> bool
    decreases pieces.len(),
{
    if pieces.len() == 0 {
        contents.len() == 0
    } else {
        match pieces[0] {
            Piece::File(file) => {
                &&& contents.len() > 0
                &&& file.flags % 2 == 0
                &&& file.width > 0
                &&& file.attribute / 16 % 2 == 0
                &&& stays_inside(with_slashes(name_text(file.name)))
                &&& file.method <= 2
                &&& stands_for(
                    if file.method == 0 {
                        CompressionMethod::Store
                    } else if file.method == 1 {
                        CompressionMethod::Bzip2
                    } else {
                        CompressionMethod::Deflate
                    },
                    file.data,
                    contents[0],
                )
                &&& file.size == contents[0].len()
                &&& file.crc == crypto::crc32_of(contents[0])
                &&& well_made(pieces.drop_first(), contents.drop_first())
            },
            _ => well_made(pieces.drop_first(), contents),
        }
    }
}

/// The text of the bytes of a name.
pub open spec fn name_text(name: Seq<u8>) -> Seq<char> {
    if vstd::utf8::valid_utf8(name) {
        vstd::utf8::decode_utf8(name)
    } else {
        crate::encoding::euc_kr_decoded(name)
    }
}

/// The entries that are read of well-made files are extracted to the contents.
proof fn lemma_listed_files_come_out(
    stream: Seq<u8>,
    solid: nat,
    comment_size: nat,
    before: Seq<u8>,
    pieces: Seq<Piece>,
    behind: Seq<u8>,
    contents: Seq<Seq<u8>>,
    entries: Seq<EntryView>,
    password: Option<Seq<u8>>,
)
    requires
        stream == before + layout::all_bytes(pieces) + behind,
        layout::all_valid(pieces, comment_size),
        well_made(pieces, contents),
        layout::listed(pieces, before.len(), entries),
    ensures
        entries.len() == contents.len(),
        forall|i: int|
            0 <= i < entries.len() ==> extract::extracted(
                #[trigger] entries[i],
                stream,
                solid,
                password,
            ) == (contents[i], None::<crate::error::ErrorView>),
    decreases pieces.len(),
{
    if pieces.len() > 0 {
        let piece = pieces[0];
        let rest = pieces.drop_first();
        assert(piece.valid(comment_size));
        assert(layout::all_valid(rest, comment_size)) by {
            assert forall|i: int| 0 <= i < rest.len() implies (#[trigger] rest[i]).valid(
                comment_size,
            ) by {
                assert(rest[i] == pieces[i + 1]);
            }
        }
        assert(stream =~= (before + piece.bytes()) + layout::all_bytes(rest) + behind);
        match piece {
            Piece::File(file) => {
                lemma_listed_files_come_out(
                    stream,
                    solid,
                    comment_size,
                    before + piece.bytes(),
                    rest,
                    behind,
                    contents.drop_first(),
                    entries.drop_first(),
                    password,
                );
                let entry = entries[0];
                let front = before + file.header();
                assert(stream =~= front + file.data + (layout::all_bytes(rest) + behind));
                lemma_data_is_in_place(entry, stream);
                assert(stream.subrange(
                    front.len() as int,
                    (front.len() + file.data.len()) as int,
                ) =~= file.data);
                lemma_names_are_checked(entry, password);
                assert(entry.file_name == name_text(file.name));
                assert(entry.file_descriptor % 2 == 0);
                lemma_file_comes_back(entry, stream, solid, password, contents[0]);
                assert forall|i: int| 0 <= i < entries.len() implies extract::extracted(
                    #[trigger] entries[i],
                    stream,
                    solid,
                    password,
                ) == (contents[i], None::<crate::error::ErrorView>) by {
                    if i > 0 {
                        assert(entries[i] == entries.drop_first()[i - 1]);
                        assert(contents[i] == contents.drop_first()[i - 1]);
                    }
                }
            },
            _ => {
                lemma_listed_files_come_out(
                    stream,
                    solid,
                    comment_size,
                    before + piece.bytes(),
                    rest,
                    behind,
                    contents,
                    entries,
                    password,
                );
            },
        }
    }
}

/// What was put into an archive comes out of it: extracting all of an archive
/// that was written with well-made files writes their contents, one behind the
/// other, and reports that everything is there.
pub proof fn lemma_written_archive_is_extracted(
    stream: Seq<u8>,
    solid: nat,
    tail: Seq<u8>,
    comment_size: nat,
    version: Seq<u8>,
    pieces: Seq<Piece>,
    behind: Seq<u8>,
    contents: Seq<Seq<u8>>,
    password: Option<Seq<u8>>,
    show: bool,
)
    requires
        stream == layout::start_bytes(version) + layout::all_bytes(pieces) + seq![
            0x43u8,
            0x4c,
            0x5a,
            0x02,
        ] + behind,
        stream.len() <= u64::MAX,
        version.len() == 4,
        layout::declares_comment(tail, comment_size),
        layout::all_valid(pieces, comment_size),
        layout::file_count(pieces) <= 1_000_000,
        well_made(pieces, contents),
    ensures
        archive::index(stream, solid, tail) is Ok,
        ({
            let (entries, truncated) = archive::index(stream, solid, tail)->Ok_0;
            let run = extract::all_from(
                entries,
                0,
                stream,
                solid,
                truncated,
                password,
                show,
            );
            &&& entries.len() == contents.len()
            &&& run.written == contents.flatten()
            &&& run.result == Ok::<bool, crate::error::ErrorView>(true)
        }),
{
    layout::lemma_archive_comes_back(
        stream,
        solid,
        tail,
        comment_size,
        version,
        pieces,
        behind,
    );
    let (entries, truncated) = archive::index(stream, solid, tail)->Ok_0;
    let end = seq![0x43u8, 0x4c, 0x5a, 0x02] + behind;
    assert(stream =~= layout::start_bytes(version) + layout::all_bytes(pieces) + end);
    lemma_listed_files_come_out(
        stream,
        solid,
        comment_size,
        layout::start_bytes(version),
        pieces,
        end,
        contents,
        entries,
        password,
    );
    extract::lemma_complete_means_every_entry(entries, stream, solid, truncated, password, show);
    let outputs = Seq::new(
        entries.len(),
        |j: int| extract::extracted(entries[j], stream, solid, password).0,
    );
    assert(outputs =~= contents);
}

/// The check of a path refuses exactly those that do not stay inside.
pub proof fn lemma_unsafe_paths(path: Seq<char>)
    ensures
        extract::is_unsafe(path) <==> !stays_inside(path),
{
    if extract::climbs(path) {
        let from = choose|from: int| #[trigger] extract::parent_at(path, from);
        assert(component(path, from, from + 2));
    }
    if exists|from: int, to: int|
        #[trigger] component(path, from, to) && to - from == 2 && path[from] == '.' && path[from
            + 1] == '.' {
        let (from, to) = choose|from: int, to: int|
            #[trigger] component(path, from, to) && to - from == 2 && path[from] == '.'
                && path[from + 1] == '.';
        assert(extract::parent_at(path, from));
    }
}

/// Data is cut where some of it is not in the part of the stream that is surely
/// data.
pub proof fn lemma_cut_data(entry: EntryView, solid: nat)
    ensures
        extract::is_cut(entry, solid) <==> entry.compressed_size > 0 && entry.data_pos
            + entry.compressed_size > solid,
{
}

/// What of the data of an entry goes through its cipher: what is read of it.
pub proof fn lemma_what_is_deciphered(entry: EntryView, data: Seq<u8>, limit: u64)
    ensures
        entry.compression_method is Unknown ==> extract::ciphered_part(entry, data, limit).len()
            == 0,
        entry.compression_method == CompressionMethod::Bzip2 && data.len() <= 536_870_912
            ==> extract::ciphered_part(entry, data, limit) == data,
        entry.compression_method == CompressionMethod::Deflate && data.len()
            <= entry.compressed_size ==> extract::ciphered_part(entry, data, limit) == data,
        entry.compression_method == CompressionMethod::Store && entry.compressed_size <= data.len()
            && entry.compressed_size <= limit ==> extract::ciphered_part(entry, data, limit)
            == data.take(entry.compressed_size as int),
{
}

/// The names that are asked for are those that were given.
pub proof fn lemma_names_as_given(names: Seq<String>, i: int)
    requires
        0 <= i < names.len(),
    ensures
        extract::name_texts(names).len() == names.len(),
        extract::name_texts(names)[i] == names[i]@,
{
}

/// What has to be right of an entry, encrypted or not: first its password, and
/// then its name, which comes out with slashes.
pub proof fn lemma_entries_are_prepared(entry: EntryView, password: Option<Seq<u8>>)
    ensures
        ({
            let path = with_slashes(entry.file_name);
            match extract::entry_keys(entry, password) {
                Err(e) => extract::prepared(entry, password) matches Err(f) && f == e,
                Ok(keys) => if stays_inside(path) {
                    extract::prepared(entry, password) matches Ok(p) && p.0 == path && p.1 == keys
                } else {
                    extract::prepared(entry, password) matches Err(f) && f
                        == crate::error::ErrorView::PathTraversal(path)
                },
            }
        }),
{
    let path = with_slashes(entry.file_name);
    assert(extract::normalized(entry.file_name) =~= path);
    lemma_unsafe_paths(path);
}

} // verus!
