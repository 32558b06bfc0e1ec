//! DEFLATE extraction.
use crate::crypto::ZipCrypto;
use crate::decompress;
use crate::error::{unexpected_eof, AlzError, AlzResult};
use vstd::prelude::*;

verus! {

/// Output space of the first attempt.
pub const FIRST_ROOM: usize = 65536;

/// The most output space that can be given at once.
pub const MAX_ROOM: usize = usize::MAX / 2;

/// What a fresh `flate2::Decompress` for raw DEFLATE data makes of a whole
/// stream in one call with `room` bytes of output space: its output, and
/// whether the stream came to its end, or nothing where the data is corrupt.
pub uninterp spec fn inflate_outcome(stream: Seq<u8>, room: nat) -> (Seq<u8>, Option<bool>);

/// One finishing call of `flate2::Decompress::decompress` on `stream`, without
/// a zlib header. What the DEFLATE format makes of a stream is given a name
/// and not described; the output fits the space. Left unsaid: that where the
/// end was not reached the space is full or the stream ran out, and that the
/// front of a stream which is not corrupt is not corrupt either.
#[verifier::external_body]
fn inflate(stream: &[u8], room: usize) -> (r: (Vec<u8>, Option<bool>))
    requires
        room <= MAX_ROOM,
    ensures
        (r.0@, r.1) == inflate_outcome(stream@, room as nat),
        r.0@.len() <= room,
{
    let mut decoder = flate2::Decompress::new(false);
    let mut out = vec![0u8; room];
    let end = match decoder.decompress(stream, &mut out, flate2::FlushDecompress::Finish) {
        Ok(flate2::Status::StreamEnd) => Some(true),
        Ok(flate2::Status::Ok) => Some(false),
        Ok(flate2::Status::BufError) => Some(false),
        Err(_) => None,
    };
    out.truncate(decoder.total_out() as usize);
    (out, end)
}

/// The output space of the next attempt after `room` bytes were filled.
pub open spec fn wider_room(room: nat, cap: nat) -> nat {
    let wide = if room * 8 <= MAX_ROOM {
        room * 8
    } else {
        MAX_ROOM as nat
    };
    if wide <= cap {
        wide
    } else {
        cap + 1
    }
}

/// The output space of the first attempt under a limit.
pub open spec fn first_room(cap: nat) -> nat {
    if FIRST_ROOM <= cap {
        FIRST_ROOM as nat
    } else {
        cap + 1
    }
}

/// The outcome of the last attempt: there is one with more output space as
/// long as the space was filled, the limit is not passed and more space can be
/// given.
pub open spec fn last_outcome(stream: Seq<u8>, room: nat, cap: nat) -> (Seq<u8>, Option<bool>)
    decreases MAX_ROOM - room,
{
    let outcome = inflate_outcome(stream, room);
    if outcome.1 == Some(false) && outcome.0.len() == room && 0 < room <= cap && room < MAX_ROOM {
        last_outcome(stream, wider_room(room, cap), cap)
    } else {
        outcome
    }
}

/// What an outcome amounts to under a limit: the whole output, or an error.
pub open spec fn judged(outcome: (Seq<u8>, Option<bool>), cap: u64) -> Option<
    crate::error::ErrorView,
> {
    if outcome.0.len() > cap {
        Some(crate::error::ErrorView::UncompressedSizeExceeded { limit: cap })
    } else {
        match outcome.1 {
            None => Some(crate::error::ErrorView::InflateFailed("corrupt deflate stream"@)),
            Some(true) => None,
            Some(false) => if outcome.0.len() >= MAX_ROOM {
                Some(crate::error::ErrorView::InflateFailed("deflate stream too large"@))
            } else {
                Some(crate::error::eof_error())
            },
        }
    }
}

/// What is written of an outcome: all of it, but nothing where it is too much.
pub open spec fn written(outcome: (Seq<u8>, Option<bool>), cap: u64) -> Seq<u8> {
    if outcome.0.len() > cap {
        Seq::empty()
    } else {
        outcome.0
    }
}

/// Hold the outcome of inflating to the limit: write the output to `writer`
/// and return its CRC32, or say what is wrong.
pub fn judge_outcome(
    output: Vec<u8>,
    end: Option<bool>,
    cap: u64,
    writer: &mut Vec<u8>,
) -> (r: AlzResult<u32>)
    ensures
        final(writer)@ == old(writer)@ + written((output@, end), cap),
        match r {
            Ok(crc) => {
                &&& judged((output@, end), cap) is None
                &&& crc == crate::crypto::crc32_of(output@)
            },
            Err(e) => judged((output@, end), cap) == Some(e@),
        },
        r is Ok <==> output@.len() <= cap && end == Some(true),
        output@.len() <= cap ==> final(writer)@ == old(writer)@ + output@,
        output@.len() > cap ==> final(writer)@ == old(writer)@ && (r matches Err(e) && e@ == (
        crate::error::ErrorView::UncompressedSizeExceeded { limit: cap })),
        output@.len() <= cap && end is None ==> (r matches Err(e) && e@ is InflateFailed),
        output@.len() <= cap && output@.len() < usize::MAX / 2 && end == Some(false) ==> (
        r matches Err(e) && e@ == crate::error::eof_error()),
{
    let n: usize = output.len();
    if n as u64 > cap {
        assert(writer@ + Seq::<u8>::empty() =~= writer@);
        return Err(AlzError::UncompressedSizeExceeded { limit: cap });
    }
    let crc: u32 = decompress::crc32(output.as_slice());
    let mut output = output;
    writer.append(&mut output);
    match end {
        None => Err(AlzError::InflateFailed(String::from_str("corrupt deflate stream"))),
        Some(ended) => if ended {
            Ok(crc)
        } else if n >= MAX_ROOM {
            Err(AlzError::InflateFailed(String::from_str("deflate stream too large")))
        } else {
            Err(unexpected_eof())
        },
    }
}

/// The data of a DEFLATE entry: at most `size` bytes.
pub open spec fn entry_data(data: Seq<u8>, size: u64) -> Seq<u8> {
    if data.len() <= size {
        data
    } else {
        data.take(size as int)
    }
}

/// Inflate a DEFLATE stream of at most `compressed_size` bytes to `writer`,
/// optionally decrypting, erroring if more than `max_output` bytes would be
/// produced. Returns the CRC32 of the output.
pub fn extract_deflate(
    reader: &[u8],
    writer: &mut Vec<u8>,
    compressed_size: u64,
    max_output: u64,
    crypto: Option<&mut ZipCrypto>,
) -> (r: AlzResult<u32>)
    ensures
        ({
            let data = entry_data(reader@, compressed_size);
            let stream = decompress::decrypted(decompress::cipher_keys(crypto), data);
            let outcome = last_outcome(stream, first_room(max_output as nat), max_output as nat);
            &&& crypto matches Some(c) ==> final(c)@ == crate::crypto::keys_after_cipher(c@, data)
            &&& final(writer)@ == old(writer)@ + written(outcome, max_output)
            &&& match r {
                Ok(crc) => {
                    &&& judged(outcome, max_output) is None
                    &&& crc == crate::crypto::crc32_of(outcome.0)
                },
                Err(e) => judged(outcome, max_output) == Some(e@),
            }
        }),
{
    let size: usize = if reader.len() as u64 <= compressed_size {
        reader.len()
    } else {
        compressed_size as usize
    };
    let mut stream: Vec<u8> = vstd::slice::slice_to_vec(
        vstd::slice::slice_subrange(reader, 0, size),
    );
    assert(stream@ =~= entry_data(reader@, compressed_size));
    match crypto {
        Some(c) => {
            c.decrypt(&mut stream);
        },
        None => {},
    }
    let (output, end) = inflate_within(stream.as_slice(), max_output);
    judge_outcome(output, end, max_output, writer)
}

/// Inflate a stream, with more and more output space up to just past the
/// limit.
fn inflate_within(stream: &[u8], cap: u64) -> (r: (Vec<u8>, Option<bool>))
    ensures
        (r.0@, r.1) == last_outcome(stream@, first_room(cap as nat), cap as nat),
{
    let mut room: usize = if FIRST_ROOM as u64 <= cap {
        FIRST_ROOM
    } else {
        cap as usize + 1
    };
    let mut outcome = inflate(stream, room);
    let ghost wanted = last_outcome(stream@, first_room(cap as nat), cap as nat);
    while outcome.1 == Some(false) && outcome.0.len() == room && room as u64 <= cap && room
        < MAX_ROOM
        invariant
            0 < room <= MAX_ROOM,
            (outcome.0@, outcome.1) == inflate_outcome(stream@, room as nat),
            last_outcome(stream@, room as nat, cap as nat) == wanted,
        decreases MAX_ROOM - room,
    {
        let wide: usize = if room <= MAX_ROOM / 8 {
            room * 8
        } else {
            MAX_ROOM
        };
        room = if wide as u64 <= cap {
            wide
        } else {
            cap as usize + 1
        };
        outcome = inflate(stream, room);
    }
    outcome
}

/// Whether a stream inflates to some data: with more output space than that
/// takes, the decoder comes to the end of the stream; with less, it fills the
/// space; and with just as much, either.
pub open spec fn inflates_to(stream: Seq<u8>, data: Seq<u8>) -> bool {
    &&& forall|room: nat|
        room > data.len() ==> #[trigger] inflate_outcome(stream, room) == (data, Some(true))
    &&& forall|room: nat|
        room < data.len() ==> #[trigger] inflate_outcome(stream, room) == (
            data.take(room as int),
            Some(false),
        )
    &&& inflate_outcome(stream, data.len()) == (data, Some(true)) || inflate_outcome(
        stream,
        data.len(),
    ) == (data, Some(false))
}

/// Whether a stream runs out after some data: the end is not reached in
/// however much output space.
pub open spec fn runs_out_after(stream: Seq<u8>, data: Seq<u8>) -> bool {
    &&& forall|room: nat|
        room >= data.len() ==> #[trigger] inflate_outcome(stream, room) == (data, Some(false))
    &&& forall|room: nat|
        room < data.len() ==> #[trigger] inflate_outcome(stream, room) == (
            data.take(room as int),
            Some(false),
        )
}

/// A stream that inflates to some data gives that data where it is within the
/// limit, however many attempts that takes, and passes the limit where it is
/// not.
pub proof fn lemma_inflated_data_comes_out(stream: Seq<u8>, data: Seq<u8>, cap: u64)
    requires
        inflates_to(stream, data),
        data.len() < usize::MAX / 2,
    ensures
        ({
            let outcome = last_outcome(stream, first_room(cap as nat), cap as nat);
            &&& data.len() <= cap ==> outcome.0 == data && judged(outcome, cap) is None && written(
                outcome,
                cap,
            ) == data
            &&& data.len() > cap ==> judged(outcome, cap) == Some(
                crate::error::ErrorView::UncompressedSizeExceeded { limit: cap },
            ) && written(outcome, cap).len() == 0
        }),
{
    lemma_attempts_end(stream, data, first_room(cap as nat), cap);
}

proof fn lemma_attempts_end(stream: Seq<u8>, data: Seq<u8>, room: nat, cap: u64)
    requires
        inflates_to(stream, data),
        data.len() < MAX_ROOM,
        0 < room <= cap + 1,
        room <= MAX_ROOM,
    ensures
        ({
            let outcome = last_outcome(stream, room, cap as nat);
            &&& data.len() <= cap ==> outcome == (data, Some(true))
            &&& data.len() > cap ==> outcome.0.len() > cap
        }),
    decreases MAX_ROOM - room,
{
    let outcome = inflate_outcome(stream, room);
    if outcome.1 == Some(false) && outcome.0.len() == room && room <= cap && room < MAX_ROOM {
        lemma_attempts_end(stream, data, wider_room(room, cap as nat), cap);
    }
}

/// A stream that runs out after some data within the limit gives that data and
/// the end of the input.
pub proof fn lemma_cut_stream_is_noticed(stream: Seq<u8>, data: Seq<u8>, cap: u64)
    requires
        runs_out_after(stream, data),
        data.len() < usize::MAX / 2,
        data.len() <= cap,
    ensures
        ({
            let outcome = last_outcome(stream, first_room(cap as nat), cap as nat);
            &&& judged(outcome, cap) == Some(crate::error::eof_error())
            &&& written(outcome, cap) == data
        }),
{
    lemma_attempts_run_out(stream, data, first_room(cap as nat), cap);
}

proof fn lemma_attempts_run_out(stream: Seq<u8>, data: Seq<u8>, room: nat, cap: u64)
    requires
        runs_out_after(stream, data),
        data.len() < MAX_ROOM,
        data.len() <= cap,
        0 < room <= cap + 1,
        room <= MAX_ROOM,
    ensures
        last_outcome(stream, room, cap as nat) == (data, Some(false)),
    decreases MAX_ROOM - room,
{
    let outcome = inflate_outcome(stream, room);
    if outcome.1 == Some(false) && outcome.0.len() == room && room <= cap && room < MAX_ROOM {
        lemma_attempts_run_out(stream, data, wider_room(room, cap as nat), cap);
    }
}

/// A stream that the decoder finds corrupt fails, with an error that says so,
/// unless what was emitted before passes the limit.
pub proof fn lemma_corrupt_stream_fails(stream: Seq<u8>, cap: u64)
    requires
        forall|room: nat| (#[trigger] inflate_outcome(stream, room)).1 is None,
    ensures
        ({
            let outcome = last_outcome(stream, first_room(cap as nat), cap as nat);
            outcome.0.len() <= cap ==> judged(outcome, cap) is Some && judged(
                outcome,
                cap,
            )->Some_0 is InflateFailed
        }),
{
}

/// The data of an entry is the front of what there is, no more than declared.
pub proof fn lemma_entry_data(data: Seq<u8>, behind: Seq<u8>, size: u64)
    ensures
        data.len() == size ==> entry_data(data + behind, size) == data,
        data.len() <= size ==> entry_data(data, size) == data,
{
    if data.len() == size {
        assert(entry_data(data + behind, size) =~= data);
    }
}

} // verus!
