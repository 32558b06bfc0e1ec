//! What an archive still holds when some of it is missing.
use crate::archive;
use crate::archive::{EntryView, IndexView, Record, Seen};
use crate::extract;
use crate::multivolume;
use vstd::prelude::*;

verus! {

/// The index of an archive that is whole: all of its stream is data.
pub open spec fn whole_index(stream: Seq<u8>, tail: Seq<u8>) -> IndexView {
    archive::index(stream, stream.len(), tail)
}

/// Whether a comment section stands among the records from `pos` on. Its size
/// is known only from the tail of the archive, which a partial download lacks.
pub open spec fn meets_comment(stream: Seq<u8>, comment_size: nat, pos: nat) -> bool
    decreases archive::bytes_ahead(stream, pos),
{
    proof {
        archive::lemma_record_advances(stream, comment_size, pos);
    }
    if pos + 4 <= stream.len() && archive::number_at(stream, pos, 4) == archive::SIG_COMMENT {
        true
    } else {
        match archive::record_at(stream, comment_size, pos) {
            Record::Start { next } => meets_comment(stream, comment_size, next),
            Record::Entry { entry, next } => meets_comment(stream, comment_size, next),
            Record::Other { next, .. } => meets_comment(stream, comment_size, next),
            _ => false,
        }
    }
}

/// Whether a central directory stands at `pos`.
pub open spec fn directory_at(stream: Seq<u8>, pos: nat) -> bool {
    pos + 16 <= stream.len() && archive::number_at(stream, pos, 4)
        == archive::SIG_CENTRAL_DIRECTORY
}

/// Whether the first `n` bytes of a whole archive have a central directory that
/// closes them, or the end marker, from the record at `pos` on.
pub open spec fn closed_by(stream: Seq<u8>, comment_size: nat, pos: nat, n: nat) -> bool
    decreases archive::bytes_ahead(stream, pos),
{
    proof {
        archive::lemma_record_advances(stream, comment_size, pos);
    }
    match archive::record_at(stream, comment_size, pos) {
        Record::Start { next } => closed_by(stream, comment_size, next, n),
        Record::Entry { entry, next } => closed_by(stream, comment_size, next, n),
        Record::Other { next, .. } => {
            ||| directory_at(stream.take(n as int), pos) && archive::directory_closes(
                stream.take(n as int),
                pos,
            )
            ||| closed_by(stream, comment_size, next, n)
        },
        Record::End => pos + 4 <= n,
        _ => false,
    }
}

/// Whether the first `n` bytes of a whole archive have a central directory or
/// the end marker, from the record at `pos` on.
pub open spec fn ends_within(stream: Seq<u8>, comment_size: nat, pos: nat, n: nat) -> bool
    decreases archive::bytes_ahead(stream, pos),
{
    proof {
        archive::lemma_record_advances(stream, comment_size, pos);
    }
    match archive::record_at(stream, comment_size, pos) {
        Record::Start { next } => ends_within(stream, comment_size, next, n),
        Record::Entry { entry, next } => ends_within(stream, comment_size, next, n),
        Record::Other { next, .. } => {
            ||| directory_at(stream, pos) && pos + 16 <= n
            ||| ends_within(stream, comment_size, next, n)
        },
        Record::End => pos + 4 <= n,
        _ => false,
    }
}

/// Nothing that starts behind the first `n` bytes is in them.
proof fn lemma_end_needs_room(stream: Seq<u8>, comment_size: nat, pos: nat, n: nat)
    requires
        n <= stream.len(),
    ensures
        closed_by(stream, comment_size, pos, n) ==> pos + 4 <= n,
        ends_within(stream, comment_size, pos, n) ==> pos + 4 <= n,
    decreases archive::bytes_ahead(stream, pos),
{
    archive::lemma_record_advances(stream, comment_size, pos);
    match archive::record_at(stream, comment_size, pos) {
        Record::Start { next } => {
            lemma_end_needs_room(stream, comment_size, next, n);
        },
        Record::Entry { entry, next } => {
            lemma_end_needs_room(stream, comment_size, next, n);
        },
        Record::Other { next, .. } => {
            lemma_end_needs_room(stream, comment_size, next, n);
        },
        _ => {},
    }
}

/// Only a central directory closes an archive.
proof fn lemma_closing_record(stream: Seq<u8>, comment_size: nat, pos: nat)
    ensures
        archive::record_at(stream, comment_size, pos) matches Record::Other {
            next,
            directory,
        } ==> (directory <==> directory_at(stream, pos) && archive::directory_closes(stream, pos)),
        directory_at(stream, pos) ==> archive::record_at(stream, comment_size, pos)
            == (Record::Other {
            next: pos + 16,
            directory: archive::directory_closes(stream, pos),
        }),
{
    reveal(archive::local_header);
}

/// The comment sections of an archive read the same with either tail: the
/// tails give the same size, or there is no such section.
pub open spec fn comments_agree(stream: Seq<u8>, tail: Seq<u8>, other: Seq<u8>) -> bool {
    let size = archive::comment_section_size(tail);
    size == archive::comment_section_size(other) || !meets_comment(stream, size, 0)
}

/// How far a record has to be read to know what it is and where the next one
/// stands.
spec fn reach(record: Record, pos: nat) -> nat {
    match record {
        Record::Start { next } => next,
        Record::Entry { entry, next } => entry.data_pos as nat,
        Record::Bad { error, at } => at,
        _ => pos + 4,
    }
}

/// Whether two records are the same, but for whether a directory closes the
/// archive.
spec fn alike(a: Record, b: Record) -> bool {
    match (a, b) {
        (Record::Other { next, .. }, Record::Other { next: other, .. }) => next == other,
        _ => a == b,
    }
}

/// The record at `pos` in a stream that starts like another: the record of the
/// other, as far as it is in what they share. Where one is cut, the other
/// reaches past what they share, or is cut too.
#[verifier::rlimit(40)]
proof fn lemma_record_in_common(
    stream: Seq<u8>,
    other: Seq<u8>,
    n: nat,
    size: nat,
    other_size: nat,
    pos: nat,
)
    requires
        n <= stream.len(),
        n <= other.len(),
        stream.take(n as int) == other.take(n as int),
        size == other_size || pos + 4 > n || archive::number_at(stream, pos, 4)
            != archive::SIG_COMMENT,
    ensures
        ({
            let there = archive::record_at(stream, size, pos);
            let here = archive::record_at(other, other_size, pos);
            &&& pos + 4 <= n ==> archive::entry_due(stream, pos) == archive::entry_due(other, pos)
            &&& pos + 4 <= n && !(there is Cut) && reach(there, pos) <= n ==> alike(there, here)
                || here is Cut && there is Other && there->Other_next > n
            &&& pos + 4 <= n && !(here is Cut) && reach(here, pos) <= n ==> alike(there, here)
                || there is Cut && here is Other && here->Other_next > n
            &&& other.len() == n && (pos + 4 > n || there is Cut || reach(there, pos) > n)
                ==> here is Cut
        }),
{
    reveal(archive::local_header);
    assert forall|p: nat, k: nat| p + k <= n implies #[trigger] archive::number_at(stream, p, k)
        == archive::number_at(other, p, k) by {
        assert(stream.subrange(p as int, (p + k) as int) =~= stream.take(n as int).subrange(
            p as int,
            (p + k) as int,
        ));
        assert(other.subrange(p as int, (p + k) as int) =~= other.take(n as int).subrange(
            p as int,
            (p + k) as int,
        ));
    }
    assert forall|p: int, q: int| 0 <= p <= q <= n implies #[trigger] stream.subrange(p, q)
        == other.subrange(p, q) by {
        assert(stream.subrange(p, q) =~= stream.take(n as int).subrange(p, q));
        assert(other.subrange(p, q) =~= other.take(n as int).subrange(p, q));
    }
    assert forall|p: int| 0 <= p < n implies #[trigger] stream[p] == other[p] by {
        assert(stream.take(n as int)[p] == stream[p]);
        assert(other.take(n as int)[p] == other[p]);
    }
}

/// The entries found from `pos` on come behind those found before, and their
/// data lies behind their headers.
#[verifier::rlimit(40)]
proof fn lemma_later_entries(
    stream: Seq<u8>,
    solid: nat,
    size: nat,
    max_entries: nat,
    pos: nat,
    seen: Seen,
    entries: Seq<EntryView>,
)
    ensures
        archive::index_from(stream, solid, size, max_entries, pos, seen, entries) matches Ok((all, _))
            ==> {
            &&& entries.len() <= all.len()
            &&& all.take(entries.len() as int) == entries
            &&& forall|i: int|
                entries.len() <= i < all.len() ==> (#[trigger] all[i]).data_pos >= pos + 14
        },
    decreases archive::bytes_ahead(stream, pos),
{
    archive::lemma_record_advances(stream, size, pos);
    assert(entries.take(entries.len() as int) =~= entries);
    if archive::entry_due(stream, pos) && entries.len() >= max_entries {
    } else {
        match archive::record_at(stream, size, pos) {
            Record::Start { next } => {
                let later = seen.with_start();
                lemma_later_entries(stream, solid, size, max_entries, next, later, entries);
            },
            Record::Entry { entry, next } => {
                let more = entries.push(entry);
                lemma_later_entries(stream, solid, size, max_entries, next, seen, more);
                assert(entry.data_pos >= pos + 14) by {
                    reveal(archive::local_header);
                }
                match archive::index_from(stream, solid, size, max_entries, next, seen, more) {
                    Ok((all, _)) => {
                        assert(all.take(more.len() as int)[entries.len() as int] == entry);
                        assert(all.take(entries.len() as int) =~= more.take(entries.len() as int))
                            by {
                            assert(all.take(entries.len() as int) =~= all.take(
                                more.len() as int,
                            ).take(entries.len() as int));
                        }
                        assert(more.take(entries.len() as int) =~= entries);
                    },
                    Err(_) => {},
                }
            },
            Record::Other { next, directory } => {
                let later = seen.with_directory(directory);
                lemma_later_entries(stream, solid, size, max_entries, next, later, entries);
            },
            _ => {},
        }
    }
}

/// The walk through a whole stream that was cut at `n`, where `solid` of the
/// rest is surely data.
#[verifier::rlimit(40)]
proof fn lemma_cut_walk(
    stream: Seq<u8>,
    n: nat,
    solid: nat,
    size: nat,
    cut_size: nat,
    pos: nat,
    seen: Seen,
    cut_seen: Seen,
    entries: Seq<EntryView>,
)
    requires
        n <= stream.len(),
        size == cut_size || !meets_comment(stream, size, pos),
        14 * entries.len() <= pos,
        seen.start == cut_seen.start,
        archive::index_from(
            stream,
            stream.len(),
            size,
            archive::entry_cap(stream.len()),
            pos,
            seen,
            entries,
        ) is Ok,
    ensures
        ({
            let whole = archive::index_from(
                stream,
                stream.len(),
                size,
                archive::entry_cap(stream.len()),
                pos,
                seen,
                entries,
            );
            let rest = archive::index_from(
                stream.take(n as int),
                solid,
                cut_size,
                archive::entry_cap(n),
                pos,
                cut_seen,
                entries,
            );
            &&& rest is Ok
            &&& kept_of(
                whole->Ok_0.0,
                cut_seen.directory || closed_by(stream, size, pos, n),
                n,
                entries.len(),
                rest->Ok_0,
            )
        }),
    decreases archive::bytes_ahead(stream, pos),
{
    let cut = stream.take(n as int);
    let len = stream.len();
    let cap = archive::entry_cap(len);
    let cut_cap = archive::entry_cap(n);
    assert(cut.take(n as int) =~= cut);
    lemma_record_in_common(stream, cut, n, size, cut_size, pos);
    lemma_later_entries(stream, len, size, cap, pos, seen, entries);
    archive::lemma_record_advances(stream, size, pos);
    archive::lemma_record_advances(cut, cut_size, pos);
    let there = archive::record_at(stream, size, pos);
    let here = archive::record_at(cut, cut_size, pos);
    let all = archive::index_from(stream, len, size, cap, pos, seen, entries)->Ok_0.0;
    assert(pos + 4 <= n ==> entries.len() < n / 14 + 16);
    lemma_end_needs_room(stream, size, pos, n);
    assert(there matches Record::Bad { error, at } ==> at <= len) by {
        reveal(archive::local_header);
    }
    if here is Cut {
        match there {
            Record::Entry { entry, next } => {
                let more = entries.push(entry);
                lemma_later_entries(stream, len, size, cap, next, seen, more);
                assert(all.take(more.len() as int)[entries.len() as int] == entry);
                assert(next >= entry.data_pos) by {
                    reveal(archive::local_header);
                }
                lemma_end_needs_room(stream, size, next, n);
            },
            Record::Start { next } => {
                lemma_later_entries(stream, len, size, cap, next, seen.with_start(), entries);
                lemma_end_needs_room(stream, size, next, n);
            },
            Record::Other { next, directory } => {
                let later = seen.with_directory(directory);
                lemma_later_entries(stream, len, size, cap, next, later, entries);
                lemma_end_needs_room(stream, size, next, n);
            },
            _ => {},
        }
    } else {
        match there {
            Record::Entry { entry, next } => {
                let more = entries.push(entry);
                lemma_later_entries(stream, len, size, cap, next, seen, more);
                assert(all.take(more.len() as int)[entries.len() as int] == entry);
                lemma_cut_walk(stream, n, solid, size, cut_size, next, seen, cut_seen, more);
            },
            Record::Start { next } => {
                lemma_cut_walk(
                    stream,
                    n,
                    solid,
                    size,
                    cut_size,
                    next,
                    seen.with_start(),
                    cut_seen.with_start(),
                    entries,
                );
            },
            Record::Other { next, directory } => {
                assert(here is Other && here->Other_next == next);
                assert(archive::number_at(cut, pos, 4) == archive::number_at(stream, pos, 4)) by {
                    assert(cut.subrange(pos as int, (pos + 4) as int) =~= stream.subrange(
                        pos as int,
                        (pos + 4) as int,
                    ));
                }
                let closes = here->Other_directory;
                lemma_closing_record(cut, cut_size, pos);
                lemma_cut_walk(
                    stream,
                    n,
                    solid,
                    size,
                    cut_size,
                    next,
                    seen.with_directory(directory),
                    cut_seen.with_directory(closes),
                    entries,
                );
            },
            _ => {},
        }
    }
}

/// What is kept of the entries `all` when the data is cut at `n`: those whose
/// header is there, which the first `sure` are known to be. The cut is reported
/// unless the archive is closed before it.
pub open spec fn kept_of(
    all: Seq<EntryView>,
    closed: bool,
    n: nat,
    sure: nat,
    kept: (Seq<EntryView>, bool),
) -> bool {
    &&& sure <= kept.0.len() <= all.len()
    &&& kept.0 == all.take(kept.0.len() as int)
    &&& forall|i: int|
        sure <= i < all.len() ==> (i < kept.0.len() <==> (#[trigger] all[i]).data_pos <= n)
    &&& kept.1 == !closed
}

/// A truncated archive still yields every complete file: a whole archive of
/// which only the first `n` bytes are there opens, and has the entries whose
/// headers are there, so every entry with all its data among them. It reports
/// that it was truncated, unless the cut is behind the central directory. All
/// this holds however much of what is there is surely data, so of a file and
/// of bytes from elsewhere.
pub proof fn lemma_truncated_archive_keeps_files(
    stream: Seq<u8>,
    tail: Seq<u8>,
    n: nat,
    solid: nat,
    cut_tail: Seq<u8>,
)
    requires
        n <= stream.len(),
        whole_index(stream, tail) is Ok,
        comments_agree(stream, tail, cut_tail),
    ensures
        archive::index(stream.take(n as int), solid, cut_tail) is Ok,
        kept_of(
            whole_index(stream, tail)->Ok_0.0,
            closed_by(stream, archive::comment_section_size(tail), 0, n),
            n,
            0,
            archive::index(stream.take(n as int), solid, cut_tail)->Ok_0,
        ),
        forall|i: int|
            #![trigger whole_index(stream, tail)->Ok_0.0[i]]
            {
                let all = whole_index(stream, tail)->Ok_0.0;
                0 <= i < all.len() && all[i].data_pos + all[i].compressed_size <= n ==> i
                    < archive::index(stream.take(n as int), solid, cut_tail)->Ok_0.0.len()
            },
{
    lemma_cut_walk(
        stream,
        n,
        solid,
        archive::comment_section_size(tail),
        archive::comment_section_size(cut_tail),
        0,
        archive::nothing_seen(),
        archive::nothing_seen(),
        Seq::empty(),
    );
    assert(stream.take(n as int).len() == n);
}

/// The first volumes of a set without the others read as the data they had in
/// the set, and then the trailer of the last of them.
pub proof fn lemma_first_volumes(parts: Seq<Seq<u8>>, m: nat)
    requires
        0 < m < parts.len(),
        multivolume::framing_fits(parts),
    ensures
        ({
            let there = multivolume::joined(parts, m);
            let last = parts[m - 1];
            &&& multivolume::framing_fits(parts.take(m as int))
            &&& multivolume::joined(parts.take(m as int), m) == there + last.skip(last.len() - 16)
            &&& there.len() <= multivolume::joined(parts, parts.len()).len()
            &&& multivolume::joined(parts, parts.len()).take(there.len() as int) == there
        }),
{
    let first = parts.take(m as int);
    assert forall|i: int| 0 <= i < first.len() implies multivolume::header_size(i)
        + multivolume::trailer_size(i, first.len()) <= #[trigger] first[i].len() by {
        assert(first[i] == parts[i]);
    }
    lemma_same_payloads(parts, m, (m - 1) as nat);
    let last = parts[m - 1];
    let there = multivolume::joined(parts, m);
    assert(first[m - 1] == last);
    assert(multivolume::payload(first, m - 1) =~= multivolume::payload(parts, m - 1) + last.skip(
        last.len() - 16,
    ));
    assert(multivolume::joined(first, m) =~= there + last.skip(last.len() - 16));
    lemma_joined_grows(parts, m, parts.len());
}

proof fn lemma_same_payloads(parts: Seq<Seq<u8>>, m: nat, count: nat)
    requires
        count < m < parts.len(),
    ensures
        multivolume::joined(parts.take(m as int), count) == multivolume::joined(parts, count),
    decreases count,
{
    if count > 0 {
        lemma_same_payloads(parts, m, (count - 1) as nat);
        assert(parts.take(m as int)[count - 1] == parts[count - 1]);
    }
}

proof fn lemma_joined_grows(parts: Seq<Seq<u8>>, m: nat, count: nat)
    requires
        m <= count,
    ensures
        multivolume::joined(parts, m).len() <= multivolume::joined(parts, count).len(),
        multivolume::joined(parts, count).take(multivolume::joined(parts, m).len() as int)
            == multivolume::joined(parts, m),
    decreases count,
{
    let there = multivolume::joined(parts, m);
    let whole = multivolume::joined(parts, count);
    if m == count {
        assert(whole.take(whole.len() as int) =~= whole);
    } else {
        lemma_joined_grows(parts, m, (count - 1) as nat);
        let less = multivolume::joined(parts, (count - 1) as nat);
        assert(whole.take(there.len() as int) =~= less.take(there.len() as int));
    }
}

/// Whether `kept` starts with the entries of `all` whose headers are in the
/// first `n` bytes.
pub open spec fn starts_with_headers(
    all: Seq<EntryView>,
    kept: Seq<EntryView>,
    n: nat,
) -> bool {
    forall|i: int|
        0 <= i < all.len() && (#[trigger] all[i]).data_pos <= n ==> i < kept.len() && kept[i]
            == all[i]
}

/// The stream of a set of volumes.
pub open spec fn set_stream(parts: Seq<Seq<u8>>) -> Seq<u8> {
    multivolume::joined(parts, parts.len())
}

/// How much of a set of volumes is surely data.
pub open spec fn set_solid(parts: Seq<Seq<u8>>) -> nat {
    multivolume::solid_part(set_stream(parts).len())
}

/// The index of a set of volumes.
pub open spec fn set_index(parts: Seq<Seq<u8>>) -> IndexView {
    archive::index(set_stream(parts), set_solid(parts), multivolume::tail_of(parts[0]))
}

/// The index of a set of volumes of which none is missing.
pub open spec fn full_index(parts: Seq<Seq<u8>>) -> IndexView {
    whole_index(set_stream(parts), multivolume::tail_of(parts[0]))
}

/// Whether a stream seems to have an end behind its first `solid` bytes: the
/// bytes of an end marker, or a central directory that closes it.
pub open spec fn seems_to_end(stream: Seq<u8>, solid: nat) -> bool {
    exists|p: nat| #[trigger] end_like(stream, solid, p)
}

/// Whether an end marker, or a central directory that closes the stream,
/// stands at `p` and reaches behind the first `solid` bytes.
pub open spec fn end_like(stream: Seq<u8>, solid: nat, p: nat) -> bool {
    ||| p + 4 > solid && p + 4 <= stream.len() && archive::number_at(stream, p, 4)
        == archive::SIG_END_OF_CENTRAL_DIR
    ||| p + 16 > solid && directory_at(stream, p) && archive::directory_closes(stream, p)
}

/// Behind the part of a stream that is surely data nothing is an error: what
/// was found before stays.
proof fn lemma_trailer_is_no_error(
    stream: Seq<u8>,
    solid: nat,
    size: nat,
    max_entries: nat,
    pos: nat,
    seen: Seen,
    entries: Seq<EntryView>,
)
    requires
        seen.start,
        pos + 4 > solid,
    ensures
        ({
            let rest = archive::index_from(
                stream,
                solid,
                size,
                max_entries,
                pos,
                seen,
                entries,
            );
            &&& rest is Ok
            &&& entries.len() <= rest->Ok_0.0.len()
            &&& rest->Ok_0.0.take(entries.len() as int) == entries
            &&& !seems_to_end(stream, solid) ==> rest->Ok_0.1 == !seen.directory
        }),
    decreases archive::bytes_ahead(stream, pos),
{
    archive::lemma_record_advances(stream, size, pos);
    lemma_closing_record(stream, size, pos);
    assert(entries.take(entries.len() as int) =~= entries);
    let record = archive::record_at(stream, size, pos);
    assert(record matches Record::Bad { error, at } ==> at >= pos + 4) by {
        reveal(archive::local_header);
    }
    assert(record is End ==> end_like(stream, solid, pos)) by {
        reveal(archive::local_header);
    }
    if archive::entry_due(stream, pos) && entries.len() >= max_entries {
    } else {
        match record {
            Record::Start { next } => {
                lemma_trailer_is_no_error(
                    stream,
                    solid,
                    size,
                    max_entries,
                    next,
                    seen.with_start(),
                    entries,
                );
            },
            Record::Entry { entry, next } => {
                let more = entries.push(entry);
                lemma_trailer_is_no_error(stream, solid, size, max_entries, next, seen, more);
                let all = archive::index_from(
                    stream,
                    solid,
                    size,
                    max_entries,
                    next,
                    seen,
                    more,
                )->Ok_0.0;
                assert(all.take(entries.len() as int) =~= all.take(more.len() as int).take(
                    entries.len() as int,
                ));
                assert(more.take(entries.len() as int) =~= entries);
            },
            Record::Other { next, directory } => {
                let later = seen.with_directory(directory);
                if directory {
                    assert(end_like(stream, solid, pos));
                }
                lemma_trailer_is_no_error(stream, solid, size, max_entries, next, later, entries);
            },
            _ => {},
        }
    }
}

/// The walks through a whole stream and one that shares its first `n` bytes,
/// which alone are surely data in the other.
#[verifier::rlimit(60)]
proof fn lemma_walk_in_common(
    stream: Seq<u8>,
    other: Seq<u8>,
    n: nat,
    size: nat,
    pos: nat,
    seen: Seen,
    other_seen: Seen,
    entries: Seq<EntryView>,
)
    requires
        n <= stream.len(),
        n < other.len(),
        stream.take(n as int) == other.take(n as int),
        14 * entries.len() <= pos,
        seen.start == other_seen.start,
        seen.start || pos + 4 <= n && archive::number_at(stream, pos, 4)
            == archive::SIG_ALZ_FILE_HEADER,
        archive::index_from(
            stream,
            stream.len(),
            size,
            archive::entry_cap(stream.len()),
            pos,
            seen,
            entries,
        ) is Ok,
    ensures
        ({
            let all = archive::index_from(
                stream,
                stream.len(),
                size,
                archive::entry_cap(stream.len()),
                pos,
                seen,
                entries,
            )->Ok_0.0;
            let rest = archive::index_from(
                other,
                n,
                size,
                archive::entry_cap(other.len()),
                pos,
                other_seen,
                entries,
            );
            &&& rest is Ok
            &&& starts_with_headers(all, rest->Ok_0.0, n)
            &&& !seems_to_end(other, n) ==> rest->Ok_0.1 == !(other_seen.directory || ends_within(
                stream,
                size,
                pos,
                n,
            ))
        }),
    decreases archive::bytes_ahead(stream, pos),
{
    let len = stream.len();
    let cap = archive::entry_cap(len);
    let other_cap = archive::entry_cap(other.len());
    let all = archive::index_from(stream, len, size, cap, pos, seen, entries)->Ok_0.0;
    let there = archive::record_at(stream, size, pos);
    let here = archive::record_at(other, size, pos);
    lemma_record_in_common(stream, other, n, size, size, pos);
    lemma_later_entries(stream, len, size, cap, pos, seen, entries);
    lemma_end_needs_room(stream, size, pos, n);
    archive::lemma_record_advances(stream, size, pos);
    archive::lemma_record_advances(other, size, pos);
    lemma_closing_record(other, size, pos);
    lemma_closing_record(stream, size, pos);
    assert(there matches Record::Bad { error, at } ==> at <= len) by {
        reveal(archive::local_header);
    }
    assert(here matches Record::Entry { entry, next } ==> next >= entry.data_pos) by {
        reveal(archive::local_header);
    }
    assert forall|i: int| 0 <= i < entries.len() implies all[i] == entries[i] by {
        assert(all.take(entries.len() as int)[i] == all[i]);
    }
    if pos + 4 > n {
        lemma_trailer_is_no_error(other, n, size, other_cap, pos, other_seen, entries);
        lemma_kept_in_trailer(other, n, size, other_cap, pos, other_seen, entries, entries);
    } else {
        assert(entries.len() < other.len() / 14 + 16);
        assert(archive::number_at(other, pos, 4) == archive::number_at(stream, pos, 4)) by {
            assert(stream.subrange(pos as int, (pos + 4) as int) =~= stream.take(
                n as int,
            ).subrange(pos as int, (pos + 4) as int));
            assert(other.subrange(pos as int, (pos + 4) as int) =~= other.take(
                n as int,
            ).subrange(pos as int, (pos + 4) as int));
        }
        lemma_headers_behind(stream, size, pos, seen, entries, n);
        match here {
            Record::Entry { entry, next } => {
                let more = entries.push(entry);
                if entry.data_pos <= n {
                    lemma_walk_in_common(stream, other, n, size, next, seen, other_seen, more);
                } else {
                    lemma_trailer_is_no_error(other, n, size, other_cap, next, other_seen, more);
                    lemma_kept_in_trailer(
                        other,
                        n,
                        size,
                        other_cap,
                        next,
                        other_seen,
                        more,
                        entries,
                    );
                }
            },
            Record::Start { next } => {
                let later = other_seen.with_start();
                if next <= n {
                    lemma_walk_in_common(
                        stream,
                        other,
                        n,
                        size,
                        next,
                        seen.with_start(),
                        later,
                        entries,
                    );
                } else {
                    lemma_trailer_is_no_error(other, n, size, other_cap, next, later, entries);
                    lemma_kept_in_trailer(
                        other,
                        n,
                        size,
                        other_cap,
                        next,
                        later,
                        entries,
                        entries,
                    );
                }
            },
            Record::Other { next, directory } => {
                let later = other_seen.with_directory(directory);
                if directory && pos + 16 > n {
                    assert(end_like(other, n, pos));
                }
                if next <= n {
                    let also = seen.with_directory(there->Other_directory);
                    lemma_walk_in_common(stream, other, n, size, next, also, later, entries);
                } else {
                    lemma_trailer_is_no_error(other, n, size, other_cap, next, later, entries);
                    lemma_kept_in_trailer(
                        other,
                        n,
                        size,
                        other_cap,
                        next,
                        later,
                        entries,
                        entries,
                    );
                }
            },
            _ => {},
        }
    }
}

/// Where the record at `pos` reaches past the first `n` bytes, no entry from
/// there on has its header in them, and nothing ends the archive in them but
/// a record that is.
proof fn lemma_headers_behind(
    stream: Seq<u8>,
    size: nat,
    pos: nat,
    seen: Seen,
    entries: Seq<EntryView>,
    n: nat,
)
    requires
        n <= stream.len(),
        archive::index_from(
            stream,
            stream.len(),
            size,
            archive::entry_cap(stream.len()),
            pos,
            seen,
            entries,
        ) is Ok,
    ensures
        ({
            let all = archive::index_from(
                stream,
                stream.len(),
                size,
                archive::entry_cap(stream.len()),
                pos,
                seen,
                entries,
            )->Ok_0.0;
            let there = archive::record_at(stream, size, pos);
            let past = match there {
                Record::Start { next } => next > n,
                Record::Entry { entry, next } => entry.data_pos > n,
                Record::Other { next, .. } => next > n,
                _ => true,
            };
            past ==> {
                &&& forall|i: int|
                    entries.len() <= i < all.len() ==> (#[trigger] all[i]).data_pos > n
                &&& !(there is End) && !(directory_at(stream, pos) && pos + 16 <= n)
                    ==> !ends_within(stream, size, pos, n)
            }
        }),
{
    let len = stream.len();
    let cap = archive::entry_cap(len);
    let all = archive::index_from(stream, len, size, cap, pos, seen, entries)->Ok_0.0;
    archive::lemma_record_advances(stream, size, pos);
    match archive::record_at(stream, size, pos) {
        Record::Entry { entry, next } => {
            let more = entries.push(entry);
            lemma_later_entries(stream, len, size, cap, next, seen, more);
            lemma_end_needs_room(stream, size, next, n);
            assert(all.take(more.len() as int)[entries.len() as int] == entry);
            assert(next >= entry.data_pos) by {
                reveal(archive::local_header);
            }
        },
        Record::Start { next } => {
            lemma_later_entries(stream, len, size, cap, next, seen.with_start(), entries);
            lemma_end_needs_room(stream, size, next, n);
        },
        Record::Other { next, directory } => {
            let later = seen.with_directory(directory);
            lemma_later_entries(stream, len, size, cap, next, later, entries);
            lemma_end_needs_room(stream, size, next, n);
        },
        _ => {},
    }
}

/// What is found in a trailer comes behind what was found before.
proof fn lemma_kept_in_trailer(
    other: Seq<u8>,
    n: nat,
    size: nat,
    max_entries: nat,
    pos: nat,
    seen: Seen,
    found: Seq<EntryView>,
    entries: Seq<EntryView>,
)
    requires
        seen.start,
        pos + 4 > n,
        entries.len() <= found.len(),
        forall|i: int| 0 <= i < entries.len() ==> (#[trigger] found[i]) == entries[i],
    ensures
        ({
            let kept = archive::index_from(
                other,
                n,
                size,
                max_entries,
                pos,
                seen,
                found,
            )->Ok_0.0;
            &&& entries.len() <= kept.len()
            &&& forall|i: int| 0 <= i < entries.len() ==> (#[trigger] kept[i]) == entries[i]
        }),
{
    lemma_trailer_is_no_error(other, n, size, max_entries, pos, seen, found);
    let kept = archive::index_from(other, n, size, max_entries, pos, seen, found)->Ok_0.0;
    assert forall|i: int| 0 <= i < entries.len() implies (#[trigger] kept[i]) == entries[i] by {
        assert(kept.take(found.len() as int)[i] == kept[i]);
        assert(found[i] == entries[i]);
    }
}

/// A set of which no volume is missing has every entry, though it is not known
/// that none is missing.
pub proof fn lemma_full_set_has_every_entry(parts: Seq<Seq<u8>>)
    requires
        full_index(parts) is Ok,
    ensures
        set_index(parts) is Ok,
        set_index(parts)->Ok_0.0 == full_index(parts)->Ok_0.0,
{
    let stream = set_stream(parts);
    let tail = multivolume::tail_of(parts[0]);
    let all = full_index(parts)->Ok_0.0;
    lemma_truncated_archive_keeps_files(stream, tail, stream.len(), set_solid(parts), tail);
    assert(stream.take(stream.len() as int) =~= stream);
    let kept = set_index(parts)->Ok_0.0;
    lemma_headers_are_inside(stream, tail);
    if kept.len() < all.len() {
        assert(all[kept.len() as int].data_pos <= stream.len());
    }
    assert(all.take(all.len() as int) =~= all);
}

/// The headers of all entries of a whole archive are in it.
proof fn lemma_headers_are_inside(stream: Seq<u8>, tail: Seq<u8>)
    ensures
        whole_index(stream, tail) matches Ok((all, _)) ==> forall|i: int|
            0 <= i < all.len() ==> (#[trigger] all[i]).data_pos <= stream.len(),
{
    lemma_inside_from(
        stream,
        archive::comment_section_size(tail),
        0,
        archive::nothing_seen(),
        Seq::empty(),
    );
}

proof fn lemma_inside_from(
    stream: Seq<u8>,
    size: nat,
    pos: nat,
    seen: Seen,
    entries: Seq<EntryView>,
)
    requires
        forall|i: int|
            0 <= i < entries.len() ==> (#[trigger] entries[i]).data_pos <= stream.len(),
    ensures
        archive::index_from(
            stream,
            stream.len(),
            size,
            archive::entry_cap(stream.len()),
            pos,
            seen,
            entries,
        ) matches Ok((all, _)) ==> forall|i: int|
            0 <= i < all.len() ==> (#[trigger] all[i]).data_pos <= stream.len(),
    decreases archive::bytes_ahead(stream, pos),
{
    archive::lemma_record_advances(stream, size, pos);
    if archive::entry_due(stream, pos) && entries.len() >= archive::entry_cap(stream.len()) {
    } else {
        match archive::record_at(stream, size, pos) {
            Record::Start { next } => {
                lemma_inside_from(stream, size, next, seen.with_start(), entries);
            },
            Record::Entry { entry, next } => {
                assert(entry.data_pos <= stream.len()) by {
                    reveal(archive::local_header);
                }
                lemma_inside_from(stream, size, next, seen, entries.push(entry));
            },
            Record::Other { next, directory } => {
                lemma_inside_from(stream, size, next, seen.with_directory(directory), entries);
            },
            _ => {},
        }
    }
}

/// A set of which the last volumes are missing still opens, wherever those
/// that are there end: between records, in a header or in data. It keeps the
/// entries whose headers are in them. It reports that it was truncated, unless
/// the archive ends in them, or their last trailer looks like its end. Only
/// the signature of the archive has to be there.
pub proof fn lemma_missing_volumes_keep_files(parts: Seq<Seq<u8>>, m: nat)
    requires
        0 < m < parts.len(),
        multivolume::framing_fits(parts),
        full_index(parts) is Ok,
        multivolume::joined(parts, m).len() >= 4,
        archive::number_at(set_stream(parts), 0, 4) == archive::SIG_ALZ_FILE_HEADER,
    ensures
        multivolume::framing_fits(parts.take(m as int)),
        set_index(parts.take(m as int)) is Ok,
        starts_with_headers(
            full_index(parts)->Ok_0.0,
            set_index(parts.take(m as int))->Ok_0.0,
            multivolume::joined(parts, m).len(),
        ),
        !seems_to_end(set_stream(parts.take(m as int)), multivolume::joined(parts, m).len())
            ==> set_index(parts.take(m as int))->Ok_0.1 == !ends_within(
            set_stream(parts),
            archive::comment_section_size(multivolume::tail_of(parts[0])),
            0,
            multivolume::joined(parts, m).len(),
        ),
{
    lemma_set_in_common(parts, m);
    lemma_walk_in_common(
        set_stream(parts),
        set_stream(parts.take(m as int)),
        multivolume::joined(parts, m).len(),
        archive::comment_section_size(multivolume::tail_of(parts[0])),
        0,
        archive::nothing_seen(),
        archive::nothing_seen(),
        Seq::empty(),
    );
}

/// The streams of a set and of its first volumes have the data of those in
/// common, which is what is surely data in the latter.
proof fn lemma_set_in_common(parts: Seq<Seq<u8>>, m: nat)
    requires
        0 < m < parts.len(),
        multivolume::framing_fits(parts),
    ensures
        ({
            let n = multivolume::joined(parts, m).len();
            let other = set_stream(parts.take(m as int));
            &&& multivolume::framing_fits(parts.take(m as int))
            &&& parts.take(m as int)[0] == parts[0]
            &&& n <= set_stream(parts).len()
            &&& other.len() == n + 16
            &&& set_solid(parts.take(m as int)) == n
            &&& set_stream(parts).take(n as int) == other.take(n as int)
        }),
{
    lemma_first_volumes(parts, m);
    let there = multivolume::joined(parts, m);
    let other = set_stream(parts.take(m as int));
    assert(parts[m - 1].len() >= 16);
    assert(other.take(there.len() as int) =~= there);
    assert(parts.take(m as int)[0] == parts[0]);
}

/// The walk through a stream that shares its first `n` bytes with a whole one
/// and ends inside the data of entry `k`.
#[verifier::rlimit(60)]
proof fn lemma_walk_into_gap(
    stream: Seq<u8>,
    other: Seq<u8>,
    n: nat,
    size: nat,
    pos: nat,
    seen: Seen,
    other_seen: Seen,
    entries: Seq<EntryView>,
    k: int,
)
    requires
        n <= stream.len(),
        n < other.len(),
        stream.take(n as int) == other.take(n as int),
        14 * entries.len() <= pos,
        entries.len() <= k,
        seen.start == other_seen.start,
        ({
            let whole = archive::index_from(
                stream,
                stream.len(),
                size,
                archive::entry_cap(stream.len()),
                pos,
                seen,
                entries,
            );
            &&& whole is Ok
            &&& k < whole->Ok_0.0.len()
            &&& whole->Ok_0.0[k].data_pos <= n
            &&& whole->Ok_0.0[k].data_pos + whole->Ok_0.0[k].compressed_size + 4 > other.len()
        }),
    ensures
        ({
            let whole = archive::index_from(
                stream,
                stream.len(),
                size,
                archive::entry_cap(stream.len()),
                pos,
                seen,
                entries,
            );
            archive::index_from(
                other,
                n,
                size,
                archive::entry_cap(other.len()),
                pos,
                other_seen,
                entries,
            ) == IndexView::Ok(
                (
                    whole->Ok_0.0.take(k + 1),
                    !(other_seen.directory || ends_within(stream, size, pos, n)),
                ),
            )
        }),
    decreases archive::bytes_ahead(stream, pos),
{
    let len = stream.len();
    let cap = archive::entry_cap(len);
    let other_cap = archive::entry_cap(other.len());
    let all = archive::index_from(stream, len, size, cap, pos, seen, entries)->Ok_0.0;
    lemma_record_in_common(stream, other, n, size, size, pos);
    lemma_later_entries(stream, len, size, cap, pos, seen, entries);
    archive::lemma_record_advances(stream, size, pos);
    lemma_closing_record(other, size, pos);
    lemma_closing_record(stream, size, pos);
    assert(all[k].data_pos >= pos + 14);
    assert(entries.len() < other.len() / 14 + 16);
    assert(archive::number_at(other, pos, 4) == archive::number_at(stream, pos, 4)) by {
        assert(stream.subrange(pos as int, (pos + 4) as int) =~= stream.take(n as int).subrange(
            pos as int,
            (pos + 4) as int,
        ));
        assert(other.subrange(pos as int, (pos + 4) as int) =~= other.take(n as int).subrange(
            pos as int,
            (pos + 4) as int,
        ));
    }
    match archive::record_at(stream, size, pos) {
        Record::Entry { entry, next } => {
            let more = entries.push(entry);
            lemma_later_entries(stream, len, size, cap, next, seen, more);
            assert(all.take(more.len() as int)[entries.len() as int] == entry);
            assert(next == entry.data_pos + entry.compressed_size) by {
                reveal(archive::local_header);
            }
            if k == entries.len() {
                assert(archive::record_at(other, size, next) is Cut);
                assert(!archive::entry_due(other, next));
                lemma_end_needs_room(stream, size, next, n);
                assert(all.take(k + 1) =~= more);
            } else {
                lemma_walk_into_gap(stream, other, n, size, next, seen, other_seen, more, k);
            }
        },
        Record::Start { next } => {
            lemma_later_entries(stream, len, size, cap, next, seen.with_start(), entries);
            lemma_walk_into_gap(
                stream,
                other,
                n,
                size,
                next,
                seen.with_start(),
                other_seen.with_start(),
                entries,
                k,
            );
        },
        Record::Other { next, directory } => {
            let later = seen.with_directory(directory);
            lemma_later_entries(stream, len, size, cap, next, later, entries);
            let here = archive::record_at(other, size, pos);
            lemma_walk_into_gap(
                stream,
                other,
                n,
                size,
                next,
                later,
                other_seen.with_directory(here->Other_directory),
                entries,
                k,
            );
        },
        _ => {},
    }
}

/// Where the volumes that are there end inside the data of entry `k`, so that
/// not even the trailer of the last one reaches behind it, the set has exactly
/// the entries up to that one. It reports that it was truncated, unless the
/// central directory came before, whatever the trailer looks like.
pub proof fn lemma_missing_data_is_truncation(parts: Seq<Seq<u8>>, m: nat, k: int)
    requires
        0 < m < parts.len(),
        multivolume::framing_fits(parts),
        full_index(parts) is Ok,
        ({
            let all = full_index(parts)->Ok_0.0;
            let there = multivolume::joined(parts, m).len();
            &&& 0 <= k < all.len()
            &&& all[k].data_pos <= there
            &&& all[k].data_pos + all[k].compressed_size + 4 > there + 16
        }),
    ensures
        multivolume::framing_fits(parts.take(m as int)),
        set_index(parts.take(m as int)) == IndexView::Ok(
            (
                full_index(parts)->Ok_0.0.take(k + 1),
                !ends_within(
                    set_stream(parts),
                    archive::comment_section_size(multivolume::tail_of(parts[0])),
                    0,
                    multivolume::joined(parts, m).len(),
                ),
            ),
        ),
{
    lemma_set_in_common(parts, m);
    lemma_walk_into_gap(
        set_stream(parts),
        set_stream(parts.take(m as int)),
        multivolume::joined(parts, m).len(),
        archive::comment_section_size(multivolume::tail_of(parts[0])),
        0,
        archive::nothing_seen(),
        archive::nothing_seen(),
        Seq::empty(),
        k,
    );
}

/// The entry count of an archive is within its size, so the physical bound on
/// entries refuses no archive: only more than a million entries are too many.
pub proof fn lemma_cap_refuses_only_huge_archives(stream: Seq<u8>, solid: nat, tail: Seq<u8>)
    ensures
        match archive::index(stream, solid, tail) {
            Ok((entries, _)) => {
                &&& 14 * entries.len() <= stream.len()
                &&& entries.len() <= archive::MAX_ENTRIES
            },
            Err(e) => e == crate::error::ErrorView::TooManyEntries ==> stream.len() >= 14
                * archive::MAX_ENTRIES,
        },
{
    lemma_count_from(
        stream,
        solid,
        archive::comment_section_size(tail),
        0,
        archive::nothing_seen(),
        Seq::empty(),
    );
}

proof fn lemma_count_from(
    stream: Seq<u8>,
    solid: nat,
    size: nat,
    pos: nat,
    seen: Seen,
    entries: Seq<EntryView>,
)
    requires
        14 * entries.len() <= pos,
        14 * entries.len() <= stream.len(),
        entries.len() <= archive::MAX_ENTRIES,
    ensures
        match archive::index_from(
            stream,
            solid,
            size,
            archive::entry_cap(stream.len()),
            pos,
            seen,
            entries,
        ) {
            Ok((all, _)) => {
                &&& 14 * all.len() <= stream.len()
                &&& all.len() <= archive::MAX_ENTRIES
            },
            Err(e) => e == crate::error::ErrorView::TooManyEntries ==> stream.len() >= 14
                * archive::MAX_ENTRIES,
        },
    decreases archive::bytes_ahead(stream, pos),
{
    archive::lemma_record_advances(stream, size, pos);
    if archive::entry_due(stream, pos) && entries.len() >= archive::entry_cap(stream.len()) {
    } else {
        match archive::record_at(stream, size, pos) {
            Record::Start { next } => {
                lemma_count_from(stream, solid, size, next, seen.with_start(), entries);
            },
            Record::Entry { entry, next } => {
                assert(archive::entry_due(stream, pos));
                lemma_count_from(stream, solid, size, next, seen, entries.push(entry));
            },
            Record::Other { next, directory } => {
                let later = seen.with_directory(directory);
                lemma_count_from(stream, solid, size, next, later, entries);
            },
            Record::Bad { .. } => {
                reveal(archive::local_header);
            },
            _ => {},
        }
    }
}

/// The entries of an archive are in the order of their data, and no data
/// reaches into the header of the next entry.
pub proof fn lemma_entries_in_order(stream: Seq<u8>, solid: nat, tail: Seq<u8>, i: int, j: int)
    requires
        archive::index(stream, solid, tail) is Ok,
        0 <= i < j < archive::index(stream, solid, tail)->Ok_0.0.len(),
    ensures
        ({
            let entries = archive::index(stream, solid, tail)->Ok_0.0;
            entries[i].data_pos + entries[i].compressed_size + 14 <= entries[j].data_pos
        }),
{
    lemma_order_from(
        stream,
        solid,
        archive::comment_section_size(tail),
        archive::entry_cap(stream.len()),
        0,
        archive::nothing_seen(),
        Seq::empty(),
        i,
        j,
    );
}

proof fn lemma_order_from(
    stream: Seq<u8>,
    solid: nat,
    size: nat,
    max_entries: nat,
    pos: nat,
    seen: Seen,
    entries: Seq<EntryView>,
    i: int,
    j: int,
)
    requires
        ({
            let whole = archive::index_from(stream, solid, size, max_entries, pos, seen, entries);
            whole is Ok && entries.len() <= i < j < whole->Ok_0.0.len()
        }),
    ensures
        ({
            let all = archive::index_from(
                stream,
                solid,
                size,
                max_entries,
                pos,
                seen,
                entries,
            )->Ok_0.0;
            all[i].data_pos + all[i].compressed_size + 14 <= all[j].data_pos
        }),
    decreases archive::bytes_ahead(stream, pos),
{
    archive::lemma_record_advances(stream, size, pos);
    match archive::record_at(stream, size, pos) {
        Record::Start { next } => {
            let later = seen.with_start();
            lemma_order_from(stream, solid, size, max_entries, next, later, entries, i, j);
        },
        Record::Entry { entry, next } => {
            let more = entries.push(entry);
            lemma_later_entries(stream, solid, size, max_entries, next, seen, more);
            if i == entries.len() {
                let all = archive::index_from(stream, solid, size, max_entries, next, seen, more)->Ok_0.0;
                assert(all.take(more.len() as int)[i] == entry);
                assert(next == entry.data_pos + entry.compressed_size) by {
                    reveal(archive::local_header);
                }
            } else {
                lemma_order_from(stream, solid, size, max_entries, next, seen, more, i, j);
            }
        },
        Record::Other { next, directory } => {
            let later = seen.with_directory(directory);
            lemma_order_from(stream, solid, size, max_entries, next, later, entries, i, j);
        },
        _ => {},
    }
}

/// Whether the first `k` entries of a whole archive have all their data in its
/// first `n` bytes and are fine.
pub open spec fn complete_and_fine(
    entries: Seq<EntryView>,
    k: nat,
    stream: Seq<u8>,
    n: nat,
    password: Option<Seq<u8>>,
) -> bool {
    &&& k <= entries.len()
    &&& forall|i: int|
        0 <= i < k ==> {
            &&& (#[trigger] entries[i]).data_pos + entries[i].compressed_size <= n
            &&& extract::extracted(entries[i], stream, stream.len(), password).1 is None
        }
}

/// Whether an entry cannot be extracted because some of its data is missing:
/// it is a file of a known method, within the size it declares.
pub open spec fn fails_for_want_of_data(
    entry: EntryView,
    stream: Seq<u8>,
    solid: nat,
    password: Option<Seq<u8>>,
) -> bool {
    let failure = extract::extracted(entry, stream, solid, password).1;
    &&& extract::prepared(entry, password) is Ok
    &&& !entry.is_directory()
    &&& extract::is_cut(entry, solid)
    &&& failure is Some
    &&& !(failure->Some_0 is UnknownCompressionMethod)
    &&& !(failure->Some_0 is UncompressedSizeExceeded)
}

/// Whether a run over what is left of an archive does all that is due: it
/// writes what the first `k` entries hold before anything else, does not claim
/// to have everything where the archive is truncated, and ends with a warning
/// where entry `k` fails for want of data.
pub open spec fn yields_complete_files(
    run: extract::RunView,
    truncated: bool,
    all: Seq<EntryView>,
    k: nat,
    stream: Seq<u8>,
    n: nat,
    left: Seq<u8>,
    solid: nat,
    password: Option<Seq<u8>>,
) -> bool {
    let files = Seq::new(
        k,
        |i: int| extract::extracted(all[i], stream, stream.len(), password).0,
    ).flatten();
    &&& files.len() <= run.written.len()
    &&& run.written.take(files.len() as int) == files
    &&& truncated ==> run.result != Ok::<bool, crate::error::ErrorView>(true)
    &&& k < all.len() && all[k as int].data_pos <= n && fails_for_want_of_data(
        all[k as int],
        left,
        solid,
        password,
    ) ==> run.result == Ok::<bool, crate::error::ErrorView>(false)
}

/// Of an archive that shares its first `n` bytes and its first entries with a
/// whole one, the files that are complete there come out first.
proof fn lemma_complete_files_come_out(
    all: Seq<EntryView>,
    kept: (Seq<EntryView>, bool),
    stream: Seq<u8>,
    other: Seq<u8>,
    solid: nat,
    n: nat,
    password: Option<Seq<u8>>,
    show: bool,
    k: nat,
)
    requires
        n <= stream.len(),
        n <= other.len(),
        stream.take(n as int) == other.take(n as int),
        complete_and_fine(all, k, stream, n, password),
        starts_with_headers(all, kept.0, n),
    ensures
        yields_complete_files(
            extract::all_from(kept.0, 0, other, solid, kept.1, password, show),
            kept.1,
            all,
            k,
            stream,
            n,
            other,
            solid,
            password,
        ),
{
    let len = stream.len();
    let run = extract::all_from(kept.0, 0, other, solid, kept.1, password, show);
    let files = Seq::new(k, |i: int| extract::extracted(all[i], stream, len, password).0);
    assert forall|i: int| 0 <= i < k implies i < kept.0.len() && extract::extracted(
        #[trigger] kept.0[i],
        other,
        solid,
        password,
    ) == extract::extracted(all[i], stream, len, password) by {
        assert(all[i].data_pos <= n);
        extract::lemma_complete_file_survives_cut(
            all[i],
            stream,
            len,
            other,
            solid,
            n,
            password,
        );
    }
    if k > 0 {
        assert(all[k - 1].data_pos <= n);
    }
    assert forall|j: int| 0 <= j < k implies extract::extracted(
        #[trigger] kept.0[j],
        other,
        solid,
        password,
    ).1 is None by {
        assert(extract::extracted(all[j], stream, len, password).1 is None) by {
            assert(all[j].data_pos + all[j].compressed_size <= n);
        }
    }
    extract::lemma_fine_entries_are_written(kept.0, k, other, solid, kept.1, password, show);
    let written = Seq::new(k, |j: int| extract::extracted(kept.0[j], other, solid, password).0);
    assert(written =~= files);
    let rest = extract::all_from(kept.0, k, other, solid, kept.1, password, show).written;
    assert(run.written == files.flatten() + rest);
    assert(run.written.take(files.flatten().len() as int) =~= files.flatten());
    extract::lemma_complete_means_every_entry(kept.0, other, solid, kept.1, password, show);
    if k < all.len() && all[k as int].data_pos <= n && fails_for_want_of_data(
        all[k as int],
        other,
        solid,
        password,
    ) {
        assert(kept.0[k as int] == all[k as int]);
        extract::lemma_cut_file_is_truncated(all[k as int], other, solid, password);
        extract::lemma_cut_file_ends_the_run(
            kept.0,
            k,
            other,
            solid,
            kept.1,
            password,
            show,
        );
    }
}

/// Extracting all of a truncated archive writes every complete file: of a whole
/// archive cut at `n` bytes, the first `k` files, which have all their data
/// there and are fine, come out first, as from the whole archive. Where the
/// next one is cut, the run ends with a warning.
pub proof fn lemma_truncated_archive_yields_complete_files(
    stream: Seq<u8>,
    tail: Seq<u8>,
    n: nat,
    solid: nat,
    cut_tail: Seq<u8>,
    password: Option<Seq<u8>>,
    show: bool,
    k: nat,
)
    requires
        n <= stream.len(),
        whole_index(stream, tail) is Ok,
        comments_agree(stream, tail, cut_tail),
        complete_and_fine(whole_index(stream, tail)->Ok_0.0, k, stream, n, password),
    ensures
        archive::index(stream.take(n as int), solid, cut_tail) is Ok,
        ({
            let left = stream.take(n as int);
            let kept = archive::index(left, solid, cut_tail)->Ok_0;
            yields_complete_files(
                extract::all_from(kept.0, 0, left, solid, kept.1, password, show),
                kept.1,
                whole_index(stream, tail)->Ok_0.0,
                k,
                stream,
                n,
                left,
                solid,
                password,
            )
        }),
{
    lemma_truncated_archive_keeps_files(stream, tail, n, solid, cut_tail);
    let cut = stream.take(n as int);
    let all = whole_index(stream, tail)->Ok_0.0;
    let kept = archive::index(cut, solid, cut_tail)->Ok_0;
    assert(cut.take(n as int) =~= cut);
    assert forall|i: int| 0 <= i < all.len() && (#[trigger] all[i]).data_pos <= n implies i
        < kept.0.len() && kept.0[i] == all[i] by {
        assert(all.take(kept.0.len() as int)[i] == all[i]);
    }
    lemma_complete_files_come_out(all, kept, stream, cut, solid, n, password, show, k);
}

/// Extracting all of a set of which the last volumes are missing writes every
/// complete file: the first `k` files, which have all their data in the volumes
/// that are there and are fine, come out first, as from the full set. Where the
/// next one is cut, the run ends with a warning.
pub proof fn lemma_missing_volumes_yield_complete_files(
    parts: Seq<Seq<u8>>,
    m: nat,
    password: Option<Seq<u8>>,
    show: bool,
    k: nat,
)
    requires
        0 < m < parts.len(),
        multivolume::framing_fits(parts),
        full_index(parts) is Ok,
        multivolume::joined(parts, m).len() >= 4,
        archive::number_at(set_stream(parts), 0, 4) == archive::SIG_ALZ_FILE_HEADER,
        complete_and_fine(
            full_index(parts)->Ok_0.0,
            k,
            set_stream(parts),
            multivolume::joined(parts, m).len(),
            password,
        ),
    ensures
        set_index(parts.take(m as int)) is Ok,
        ({
            let left = parts.take(m as int);
            let kept = set_index(left)->Ok_0;
            yields_complete_files(
                extract::all_from(
                    kept.0,
                    0,
                    set_stream(left),
                    set_solid(left),
                    kept.1,
                    password,
                    show,
                ),
                kept.1,
                full_index(parts)->Ok_0.0,
                k,
                set_stream(parts),
                multivolume::joined(parts, m).len(),
                set_stream(left),
                set_solid(left),
                password,
            )
        }),
{
    lemma_set_in_common(parts, m);
    lemma_missing_volumes_keep_files(parts, m);
    lemma_complete_files_come_out(
        full_index(parts)->Ok_0.0,
        set_index(parts.take(m as int))->Ok_0,
        set_stream(parts),
        set_stream(parts.take(m as int)),
        set_solid(parts.take(m as int)),
        multivolume::joined(parts, m).len(),
        password,
        show,
        k,
    );
}

} // verus!
