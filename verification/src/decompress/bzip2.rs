//! ALZ-modified bzip2 extraction.
//!
//! ALZ bzip2 differs from a standard bzip2 stream:
//!
//! - the `BZh9` stream header is absent (block size is hardcoded to 9);
//! - each block is introduced by the 4-byte marker `DLZ\x01` instead of the
//!   48-bit `0x314159265359`, and the stream ends with `DLZ\x02` in place of
//!   `0x177245385090` plus the combined CRC;
//! - the per-block CRC and the randomised bit are omitted;
//! - the block payload (origPtr + Huffman/MTF/BWT data) is otherwise identical.
//!
//! Each block is rewrapped as a standalone single-block standard stream
//! (`BZh9` + block magic + faked zero CRC + randomised = 0 + payload + EOS +
//! faked combined CRC) and decoded with the `bzip2` crate.
//!
//! Block boundaries are found by decoding rather than by scanning. The 4-byte
//! `DLZ` marker can occur by coincidence inside a block's compressed payload,
//! so a naive scan for the next marker mis-splits multi-block streams. A
//! candidate cut before a block's true end yields a truncated block that
//! produces no output (bzip2 only emits after the whole block's inverse-BWT),
//! so the first candidate cut that produces output is the real boundary.
use crate::crypto::ZipCrypto;
use crate::decompress;
use crate::decompress::bits;
use crate::decompress::bits::{BitReader, BitWriter};
use crate::error::{AlzError, AlzResult};
use crate::text;
use vstd::prelude::*;

verus! {

/// ALZ bzip2 block header "DLZ\x01", as a big-endian number.
pub const ALZ_BLOCK_MAGIC_U32: u32 = 0x444C5A01;

/// ALZ bzip2 end-of-stream "DLZ\x02", as a big-endian number.
pub const ALZ_EOS_MAGIC_U32: u32 = 0x444C5A02;

/// Bound on the in-memory copy of the compressed stream.
pub const MAX_BZ2_COMPRESSED: u64 = 536_870_912;

/// Guard against a payload packed with spurious DLZ markers forcing many
/// decode attempts for one block.
pub const MAX_CANDIDATES_PER_BLOCK: u32 = 4096;

/// Output space of one call of the decoder.
pub const PIECE: usize = 32768;

/// The head of a standard single-block stream: "BZh9", the block magic (pi
/// digits 0x314159265359) and a zero block CRC.
pub open spec fn probe_head() -> Seq<u8> {
    seq![
        0x42u8,
        0x5a,
        0x68,
        0x39,
        0x31,
        0x41,
        0x59,
        0x26,
        0x53,
        0x59,
        0,
        0,
        0,
        0,
    ]
}

/// The end of a standard stream: the end-of-stream magic (sqrt(pi) digits
/// 0x177245385090) and a zero combined CRC.
pub open spec fn probe_tail() -> Seq<u8> {
    seq![0x17u8, 0x72, 0x45, 0x38, 0x50, 0x90, 0, 0, 0, 0]
}

/// The standard single-block stream around the payload bits from `start` to
/// `end`, with the bit `randomised = 0` before them.
pub open spec fn probe_bits(data: Seq<u8>, start: int, end: int) -> Seq<bool> {
    bits::bits_of(probe_head()).push(false) + bits::bits_of(data).subrange(start, end)
        + bits::bits_of(probe_tail())
}

/// The number that the 32 bits from position `bit` spell.
pub open spec fn word_at(data: Seq<u8>, bit: int) -> nat {
    bits::bits_value(bits::bit_window(data, bit, 32))
}

/// Whether a DLZ block or end-of-stream marker begins at bit `i`.
pub open spec fn is_marker(data: Seq<u8>, i: int) -> bool {
    &&& 0 <= i
    &&& i + 32 <= data.len() * 8
    &&& word_at(data, i) == ALZ_BLOCK_MAGIC_U32 || word_at(data, i) == ALZ_EOS_MAGIC_U32
}

/// The first place from `from` on where a block may end: the next marker, or
/// the end of the data.
pub open spec fn next_cut(data: Seq<u8>, from: int) -> int
    decreases data.len() * 8 - from,
{
    if from < 0 || from + 32 > data.len() * 8 {
        data.len() * 8 as int
    } else if is_marker(data, from) {
        from
    } else {
        next_cut(data, from + 1)
    }
}

/// A bzip2 decoder, `bzip2::Decompress`, made without the option that saves
/// memory.
#[verifier::external_body]
pub struct Decoder {
    inner: bzip2::Decompress,
}

/// The calls of `decompress` that a decoder has been through: the input that
/// each was given, and its output space.
pub uninterp spec fn decoder_calls(decoder: Decoder) -> Seq<(Seq<u8>, nat)>;

/// What the last of a series of calls of `decompress` does on a decoder that
/// was made for it: how much input it consumes, what it emits, and whether
/// the stream came to its end, or nothing where it fails.
pub uninterp spec fn bzip2_call(calls: Seq<(Seq<u8>, nat)>) -> (nat, Seq<u8>, Option<bool>);

/// How much input a series of calls consumes.
pub open spec fn total_consumed(calls: Seq<(Seq<u8>, nat)>) -> nat
    decreases calls.len(),
{
    if calls.len() == 0 {
        0
    } else {
        total_consumed(calls.drop_last()) + bzip2_call(calls).0
    }
}

/// How much output a series of calls emits.
pub open spec fn total_emitted(calls: Seq<(Seq<u8>, nat)>) -> nat
    decreases calls.len(),
{
    if calls.len() == 0 {
        0
    } else {
        total_emitted(calls.drop_last()) + bzip2_call(calls).1.len()
    }
}

/// `bzip2::Decompress::new` makes a decoder that has not been called.
#[verifier::external_body]
fn new_decoder() -> (decoder: Decoder)
    ensures
        decoder_calls(decoder) == Seq::<(Seq<u8>, nat)>::empty(),
{
    Decoder { inner: bzip2::Decompress::new(false) }
}

/// `bzip2::Decompress::total_in` is how much input the calls have consumed; it
/// counts in 64 bits and wraps.
#[verifier::external_body]
fn total_in(decoder: &Decoder) -> (n: u64)
    ensures
        n == total_consumed(decoder_calls(*decoder)) % 0x1_0000_0000_0000_0000,
{
    decoder.inner.total_in()
}

/// `bzip2::Decompress::total_out` is how much output the calls have emitted;
/// it counts in 64 bits and wraps.
#[verifier::external_body]
fn total_out(decoder: &Decoder) -> (n: u64)
    ensures
        n == total_emitted(decoder_calls(*decoder)) % 0x1_0000_0000_0000_0000,
{
    decoder.inner.total_out()
}

/// One call of `bzip2::Decompress::decompress` with `room` bytes of output
/// space. What it does is a function of the calls so far and of its input and
/// space; it consumes no more than its input, and what it emits stands at the
/// front of the space. What the bzip2 format makes of a stream is given a name
/// and not described.
#[verifier::external_body]
fn decompress_piece(decoder: &mut Decoder, input: &[u8], room: usize) -> (r: (
    Vec<u8>,
    Option<bool>,
))
    requires
        room <= usize::MAX / 2,
        decoder_calls(*old(decoder)).len() > 0 ==> bzip2_call(
            decoder_calls(*old(decoder)),
        ).2 == Some(false),
    ensures
        decoder_calls(*final(decoder)) == decoder_calls(*old(decoder)).push(
            (input@, room as nat),
        ),
        r.0@.len() == room,
        is_piece(
            bzip2_call(decoder_calls(*final(decoder))),
            input@,
            r.0@,
            r.1,
        ),
{
    let mut space = vec![0u8; room];
    let end = match decoder.inner.decompress(input, &mut space) {
        Ok(bzip2::Status::Ok) => Some(false),
        Ok(bzip2::Status::FlushOk) => Some(false),
        Ok(bzip2::Status::RunOk) => Some(false),
        Ok(bzip2::Status::FinishOk) => Some(false),
        Ok(bzip2::Status::MemNeeded) => Some(false),
        Ok(bzip2::Status::StreamEnd) => Some(true),
        Err(_) => None,
    };
    (space, end)
}

/// Whether a call on some input left the space and the end that it names.
pub open spec fn is_piece(
    call: (nat, Seq<u8>, Option<bool>),
    input: Seq<u8>,
    space: Seq<u8>,
    end: Option<bool>,
) -> bool {
    &&& call.0 <= input.len()
    &&& call.1.len() <= space.len()
    &&& space.take(call.1.len() as int) == call.1
    &&& call.2 == end
}

/// What a call of the decoder means for the stream.
#[derive(Debug, Clone, Copy, PartialEq, Eq, Structural)]
pub enum PieceVerdict {
    /// The output passes the limit.
    Exceeded,
    /// There is no more output.
    Last,
    /// There may be more output.
    More,
}

/// What a call means that consumed and emitted so much, with `cap` bytes left
/// to the limit. A stream goes on until its end, a failure, or a call that
/// gets nowhere.
pub open spec fn piece_verdict(
    consumed: nat,
    produced: nat,
    end: Option<bool>,
    cap: nat,
) -> PieceVerdict {
    if produced > cap {
        PieceVerdict::Exceeded
    } else if end != Some(false) || (consumed == 0 && produced == 0) {
        PieceVerdict::Last
    } else {
        PieceVerdict::More
    }
}

/// Judge a call of the decoder.
pub fn judge_piece(consumed: usize, produced: usize, end: Option<bool>, cap: u64) -> (v:
    PieceVerdict)
    ensures
        v == piece_verdict(consumed as nat, produced as nat, end, cap as nat),
        v == PieceVerdict::Exceeded <==> produced > cap,
        v == PieceVerdict::More <==> produced <= cap && end == Some(false) && (consumed > 0
            || produced > 0),
{
    if produced as u64 > cap {
        return PieceVerdict::Exceeded;
    }
    match end {
        // An in-progress status: stop on no progress (input exhausted with
        // nothing more to emit), guarding against an infinite spin.
        Some(false) => if consumed == 0 && produced == 0 {
            PieceVerdict::Last
        } else {
            PieceVerdict::More
        },
        // The faked zero block CRC makes the decoder fail once a block is
        // fully decoded and emitted; that is the signal that it completed.
        _ => PieceVerdict::Last,
    }
}

/// What a decoder emits for a standalone stream from byte `pos` on, behind
/// `calls`, with `cap` bytes left to the limit: the pieces that keep the
/// limit, and whether one passes it.
pub open spec fn probe_run(
    stream: Seq<u8>,
    calls: Seq<(Seq<u8>, nat)>,
    pos: nat,
    cap: nat,
) -> (Seq<u8>, bool)
    decreases stream.len() - pos + cap,
{
    let next = calls.push((stream.skip(pos as int), PIECE as nat));
    let (consumed, produced, end) = bzip2_call(next);
    match piece_verdict(consumed, produced.len(), end, cap) {
        PieceVerdict::Exceeded => (Seq::empty(), true),
        PieceVerdict::More if pos + consumed <= stream.len() => {
            let rest = probe_run(stream, next, pos + consumed, (cap - produced.len()) as nat);
            (produced + rest.0, rest.1)
        },
        _ => (produced, false),
    }
}

/// What a decoder emits for a standalone stream under a limit.
pub open spec fn probe_output(stream: Seq<u8>, cap: nat) -> (Seq<u8>, bool) {
    probe_run(stream, Seq::empty(), 0, cap)
}

/// How a standalone stream decodes under a limit.
pub open spec fn probe_result(stream: Seq<u8>, cap: u64) -> Result<
    Seq<u8>,
    crate::error::ErrorView,
> {
    let (output, exceeded) = probe_output(stream, cap as nat);
    if exceeded {
        Err(crate::error::ErrorView::UncompressedSizeExceeded { limit: cap })
    } else {
        Ok(output)
    }
}

/// What the counters of a decoder say of a call.
proof fn lemma_counters(calls: Seq<(Seq<u8>, nat)>, call: (Seq<u8>, nat))
    ensures
        total_consumed(calls.push(call)) == total_consumed(calls) + bzip2_call(
            calls.push(call),
        ).0,
        total_emitted(calls.push(call)) == total_emitted(calls) + bzip2_call(
            calls.push(call),
        ).1.len(),
{
    assert(calls.push(call).drop_last() =~= calls);
}

/// The distance between two readings of a counter that wraps.
fn counted(before: u64, after: u64, Ghost(base): Ghost<nat>, Ghost(n): Ghost<nat>) -> (d: u64)
    requires
        before == base % 0x1_0000_0000_0000_0000,
        after == (base + n) % 0x1_0000_0000_0000_0000,
        n <= u64::MAX,
    ensures
        d == n,
{
    after.wrapping_sub(before)
}

/// Decode one standalone standard bzip2 stream into `out`, capped at `cap`
/// bytes. Returns the number of bytes produced (0 if the block is truncated /
/// could not be completed).
pub fn decode_probe(std_stream: &[u8], out: &mut Vec<u8>, cap: u64) -> (r: AlzResult<u64>)
    ensures
        ({
            let (output, exceeded) = probe_output(std_stream@, cap as nat);
            &&& final(out)@ == old(out)@ + output
            &&& match r {
                Ok(n) => !exceeded && n == output.len(),
                Err(e) => exceeded && e@
                    == crate::error::ErrorView::UncompressedSizeExceeded { limit: cap },
            }
        }),
{
    let ghost start = out@;
    let ghost whole = probe_output(std_stream@, cap as nat);
    let mut decoder = new_decoder();
    let len: usize = std_stream.len();
    let mut input_pos: usize = 0;
    let mut produced_total: u64 = 0;
    assert(out@ + whole.0 =~= start + whole.0);
    loop
        invariant
            len == std_stream@.len(),
            input_pos <= len,
            produced_total <= cap,
            start == old(out)@,
            whole == probe_output(std_stream@, cap as nat),
            out@.len() == start.len() + produced_total,
            decoder_calls(decoder).len() > 0 ==> bzip2_call(decoder_calls(decoder)).2
                == Some(false),
            ({
                let rest = probe_run(
                    std_stream@,
                    decoder_calls(decoder),
                    input_pos as nat,
                    (cap - produced_total) as nat,
                );
                &&& start + whole.0 == out@ + rest.0
                &&& whole.1 == rest.1
            }),
        decreases len - input_pos + cap - produced_total,
    {
        let ghost calls = decoder_calls(decoder);
        let ghost before = out@;
        let ghost rest = probe_run(
            std_stream@,
            calls,
            input_pos as nat,
            (cap - produced_total) as nat,
        );
        let before_in: u64 = total_in(&decoder);
        let before_out: u64 = total_out(&decoder);
        let input = vstd::slice::slice_subrange(std_stream, input_pos, len);
        assert(input@ =~= std_stream@.skip(input_pos as int));
        let (mut piece, end) = decompress_piece(&mut decoder, input, PIECE);
        let ghost call = bzip2_call(decoder_calls(decoder));
        proof {
            lemma_counters(calls, (input@, PIECE as nat));
        }
        let consumed: usize = counted(
            before_in,
            total_in(&decoder),
            Ghost(total_consumed(calls)),
            Ghost(call.0),
        ) as usize;
        let produced: usize = counted(
            before_out,
            total_out(&decoder),
            Ghost(total_emitted(calls)),
            Ghost(call.1.len()),
        ) as usize;
        match judge_piece(consumed, produced, end, cap - produced_total) {
            PieceVerdict::Exceeded => {
                assert(before + rest.0 =~= before);
                return Err(AlzError::UncompressedSizeExceeded { limit: cap });
            },
            PieceVerdict::Last => {
                piece.truncate(produced);
                out.append(&mut piece);
                assert(out@ =~= before + rest.0);
                return Ok(produced_total + produced as u64);
            },
            PieceVerdict::More => {
                piece.truncate(produced);
                out.append(&mut piece);
                proof {
                    let next = probe_run(
                        std_stream@,
                        decoder_calls(decoder),
                        (input_pos + consumed) as nat,
                        (cap - produced_total - produced) as nat,
                    );
                    assert(before + (call.1 + next.0) =~= (before + call.1) + next.0);
                }
                input_pos = input_pos + consumed;
                produced_total = produced_total + produced as u64;
            },
        }
    }
}

/// What a decoder emits keeps the limit.
pub proof fn lemma_probe_keeps_the_limit(
    stream: Seq<u8>,
    calls: Seq<(Seq<u8>, nat)>,
    pos: nat,
    cap: nat,
)
    requires
        pos <= stream.len(),
    ensures
        probe_run(stream, calls, pos, cap).0.len() <= cap,
    decreases stream.len() - pos + cap,
{
    let next = calls.push((stream.skip(pos as int), PIECE as nat));
    let (consumed, produced, end) = bzip2_call(next);
    if piece_verdict(consumed, produced.len(), end, cap) == PieceVerdict::More && pos + consumed
        <= stream.len() {
        lemma_probe_keeps_the_limit(
            stream,
            next,
            pos + consumed,
            (cap - produced.len()) as nat,
        );
    }
}

/// The limit does not matter to a stream that keeps it.
pub proof fn lemma_limit_does_not_matter(
    stream: Seq<u8>,
    calls: Seq<(Seq<u8>, nat)>,
    pos: nat,
    cap: nat,
    other: nat,
)
    requires
        pos <= stream.len(),
        !probe_run(stream, calls, pos, cap).1,
        probe_run(stream, calls, pos, cap).0.len() <= other,
    ensures
        probe_run(stream, calls, pos, other) == probe_run(stream, calls, pos, cap),
    decreases stream.len() - pos + cap,
{
    let next = calls.push((stream.skip(pos as int), PIECE as nat));
    let (consumed, produced, end) = bzip2_call(next);
    if piece_verdict(consumed, produced.len(), end, cap) == PieceVerdict::More && pos + consumed
        <= stream.len() {
        lemma_limit_does_not_matter(
            stream,
            next,
            pos + consumed,
            (cap - produced.len()) as nat,
            (other - produced.len()) as nat,
        );
    }
}

/// Build a standalone standard single-block bzip2 stream from one ALZ block's
/// payload bits, inserting `randomised = 0` before origPtr (which shifts the
/// subsequent block bits).
#[verifier::rlimit(40)]
pub fn build_block_probe(payload: &[u8], start_bit: u64, end_bit: u64) -> (stream: Vec<u8>)
    requires
        payload@.len() <= MAX_BZ2_COMPRESSED,
        start_bit <= end_bit <= payload@.len() * 8,
    ensures
        stream@ == bits::packed(probe_bits(payload@, start_bit as int, end_bit as int)),
{
    let mut w: BitWriter = BitWriter::new();
    let head: [u8; 14] = [
        0x42, 0x5a, 0x68, 0x39, 0x31, 0x41, 0x59, 0x26, 0x53, 0x59, 0, 0, 0, 0,
    ];
    let tail: [u8; 10] = [0x17, 0x72, 0x45, 0x38, 0x50, 0x90, 0, 0, 0, 0];
    assert(head@ =~= probe_head());
    assert(tail@ =~= probe_tail());
    w.write_bytes(head.as_slice());
    w.write_bits(0, 1);
    let ghost front = bits::bits_of(probe_head()).push(false);
    assert((0u32 >> 0u32) & 1 == 0) by (bit_vector);
    assert(w.written() =~= front);

    let ghost all = bits::bits_of(payload@);
    let mut r: BitReader<'_> = BitReader::at(payload, start_bit);
    let mut at: u64 = start_bit;
    assert(front + all.subrange(start_bit as int, start_bit as int) =~= front);
    while at < end_bit
        invariant
            start_bit <= at <= end_bit <= payload@.len() * 8,
            w.wf(),
            r.wf(),
            r.data@ == payload@,
            r.position() == at,
            all == bits::bits_of(payload@),
            w.written() == front + all.subrange(start_bit as int, at as int),
        decreases end_bit - at,
    {
        let remaining: u64 = end_bit - at;
        let n: usize = if remaining < 24 {
            remaining as usize
        } else {
            24
        };
        let val: u32 = match r.read_bits(n) {
            Ok(v) => v,
            Err(_) => 0,
        };
        w.write_bits(val, n);
        proof {
            let window = bits::bit_window(payload@, at as int, n as nat);
            bits::lemma_low_bits_of_value(window, val);
            assert(window =~= all.subrange(at as int, at + n));
            assert(all.subrange(start_bit as int, at + n) =~= all.subrange(
                start_bit as int,
                at as int,
            ) + window);
            assert(front + all.subrange(start_bit as int, at as int) + window =~= front + (
            all.subrange(start_bit as int, at as int) + window));
        }
        at = at + n as u64;
    }
    w.write_bytes(tail.as_slice());
    assert(w.written() =~= probe_bits(payload@, start_bit as int, end_bit as int));
    w.flush();
    w.into_bytes()
}

/// Read the 32 bits starting at `bit` as a big-endian number, or None if fewer
/// than 32 bits remain.
pub fn peek32(data: &[u8], bit: u64) -> (r: Option<u32>)
    requires
        data@.len() * 8 <= u64::MAX,
    ensures
        match r {
            Some(v) => bit + 32 <= data@.len() * 8 && v == word_at(data@, bit as int),
            None => bit + 32 > data@.len() * 8,
        },
{
    let total: u64 = data.len() as u64 * 8;
    if total < 32 || bit > total - 32 {
        return None;
    }
    let mut r: BitReader<'_> = BitReader::at(data, bit);
    match r.read_bits(32) {
        Ok(v) => Some(v),
        Err(_) => None,
    }
}

/// First bit offset >= `from` where a 32-bit DLZ block or EOS marker begins.
#[verifier::rlimit(40)]
pub fn next_marker(data: &[u8], from: u64) -> (r: Option<u64>)
    requires
        data@.len() * 8 <= u64::MAX,
    ensures
        match r {
            Some(p) => {
                &&& from <= p
                &&& is_marker(data@, p as int)
                &&& forall|i: int| from <= i < p ==> !is_marker(data@, i)
            },
            None => forall|i: int| from <= i ==> !is_marker(data@, i),
        },
{
    let nbits: u64 = data.len() as u64 * 8;
    let mut window: u32 = match peek32(data, from) {
        Some(v) => v,
        None => {
            return None;
        },
    };
    if window == ALZ_BLOCK_MAGIC_U32 || window == ALZ_EOS_MAGIC_U32 {
        return Some(from);
    }
    let mut start: u64 = from;
    while start < nbits - 32
        invariant
            nbits == data@.len() * 8,
            from <= start <= nbits - 32,
            window == word_at(data@, start as int),
            forall|i: int| from <= i <= start ==> !is_marker(data@, i),
        decreases nbits - 32 - start,
    {
        let last: u64 = start + 32;
        let index: usize = (last / 8) as usize;
        let byte: u8 = data[index];
        let shift: u8 = 7 - (last % 8) as u8;
        let bit: u8 = (byte >> shift) & 1;
        assert(bit == 0 || bit == 1) by (bit_vector)
            requires
                bit == (byte >> shift) & 1,
        ;
        let b: u32 = bit as u32;
        assert((window << 1) | b == (window as u64 * 2 + b as u64) % 0x1_0000_0000) by (bit_vector)
            requires
                b <= 1,
        ;
        proof {
            lemma_slide_word(data@, start as int);
        }
        window = (window << 1) | b;
        start = start + 1;
        if window == ALZ_BLOCK_MAGIC_U32 || window == ALZ_EOS_MAGIC_U32 {
            return Some(start);
        }
    }
    None
}

/// The word one bit further on: the word shifted left, with the next bit in.
pub proof fn lemma_slide_word(data: Seq<u8>, i: int)
    requires
        0 <= i,
        i + 33 <= data.len() * 8,
    ensures
        word_at(data, i + 1) == (word_at(data, i) * 2 + (if bits::bits_of(data)[i + 32] {
            1nat
        } else {
            0nat
        })) % 0x1_0000_0000,
{
    let long = bits::bit_window(data, i, 33);
    assert(long.drop_last() =~= bits::bit_window(data, i, 32));
    assert(long.drop_first() =~= bits::bit_window(data, i + 1, 32));
    bits::lemma_first_bit(long);
    bits::lemma_bits_value_bound(long.drop_first());
    vstd::arithmetic::power2::lemma2_to64();
}

/// The cut that the search for a marker finds.
proof fn lemma_next_cut(data: Seq<u8>, from: int, cut: int)
    requires
        0 <= from,
        forall|i: int| from <= i < cut ==> !is_marker(data, i),
        is_marker(data, cut) && from <= cut || cut == data.len() * 8,
    ensures
        next_cut(data, from) == cut,
    decreases data.len() * 8 - from,
{
    if from + 32 <= data.len() * 8 {
        if !is_marker(data, from) {
            lemma_next_cut(data, from + 1, cut);
        }
    }
}

/// A cut is not before the place where the search begins, and within the
/// data.
proof fn lemma_next_cut_bounds(data: Seq<u8>, from: int)
    requires
        0 <= from <= data.len() * 8,
    ensures
        from <= next_cut(data, from) <= data.len() * 8,
    decreases data.len() * 8 - from,
{
    if from + 32 <= data.len() * 8 && !is_marker(data, from) {
        lemma_next_cut_bounds(data, from + 1);
    }
}

/// How the search for the end of a block comes out.
pub enum BlockView {
    /// The block ends at bit `end` and decodes to `output`.
    Found { end: int, output: Seq<u8> },
    /// The block cannot be taken.
    Failed(crate::error::ErrorView),
}

/// What a decode attempt up to the cut at bit `cut` says about the block.
pub enum CutVerdict {
    /// The block ends at the cut.
    Boundary,
    /// The cut is a false marker before the true end: try the next one.
    TryNext,
    /// There is no place left where the block could end.
    Undecodable,
}

/// What a decode attempt up to a cut says about the block: it ends there if
/// there was output.
pub open spec fn cut_verdict(output_len: nat, cut: int, total_bits: int) -> CutVerdict {
    if output_len > 0 {
        CutVerdict::Boundary
    } else if cut >= total_bits {
        CutVerdict::Undecodable
    } else {
        CutVerdict::TryNext
    }
}

/// Judge a decode attempt up to a cut by the length of its output.
pub fn judge_cut(output_len: u64, cut: u64, total_bits: u64) -> (v: CutVerdict)
    ensures
        v == cut_verdict(output_len as nat, cut as int, total_bits as int),
        v is Boundary <==> output_len > 0,
        v is Undecodable <==> output_len == 0 && cut >= total_bits,
{
    if output_len > 0 {
        CutVerdict::Boundary
    } else if cut >= total_bits {
        CutVerdict::Undecodable
    } else {
        CutVerdict::TryNext
    }
}

/// The block whose payload begins at bit `start`: of the next `tries` places
/// from `from` on where it may end, the first one up to which it decodes to
/// some output.
pub open spec fn find_block(data: Seq<u8>, start: int, from: int, tries: nat, cap: u64) -> BlockView
    decreases tries,
{
    let cut = next_cut(data, from);
    if tries == 0 {
        BlockView::Failed(crate::error::ErrorView::Bzip2Failed("block boundary not found"@))
    } else {
        match probe_result(bits::packed(probe_bits(data, start, cut)), cap) {
            Err(failure) => BlockView::Failed(failure),
            Ok(output) => match cut_verdict(output.len(), cut, data.len() * 8 as int) {
                CutVerdict::Boundary => BlockView::Found { end: cut, output },
                CutVerdict::Undecodable => BlockView::Failed(
                    crate::error::ErrorView::Bzip2Failed("could not decode bzip2 block"@),
                ),
                CutVerdict::TryNext => find_block(data, start, cut + 1, (tries - 1) as nat, cap),
            },
        }
    }
}

/// The output of a stream of blocks from bit `pos` on, with `room` bytes of
/// output left, and how it ends.
pub open spec fn decode_blocks(data: Seq<u8>, pos: int, room: u64) -> (
    Seq<u8>,
    Option<crate::error::ErrorView>,
)
    decreases data.len() * 8 - pos,
{
    if pos < 0 || pos + 32 > data.len() * 8 || word_at(data, pos) == ALZ_EOS_MAGIC_U32 {
        (Seq::empty(), None)
    } else if word_at(data, pos) != ALZ_BLOCK_MAGIC_U32 {
        (
            Seq::empty(),
            Some(
                crate::error::ErrorView::Bzip2Failed(
                    "expected ALZ block header, got "@ + text::hex_padded(word_at(data, pos), 8),
                ),
            ),
        )
    } else {
        match find_block(data, pos + 32, pos + 32, MAX_CANDIDATES_PER_BLOCK as nat, room) {
            BlockView::Failed(failure) => (Seq::empty(), Some(failure)),
            BlockView::Found { end, output } => {
                proof {
                    lemma_block_is_inside(
                        data,
                        pos + 32,
                        pos + 32,
                        MAX_CANDIDATES_PER_BLOCK as nat,
                        room,
                    );
                }
                let rest = decode_blocks(data, end, (room - output.len()) as u64);
                (output + rest.0, rest.1)
            },
        }
    }
}

/// The failure as the caller of the extraction sees it: a passed limit is the
/// declared size of the whole entry.
pub open spec fn with_limit(
    failure: crate::error::ErrorView,
    max_output: u64,
) -> crate::error::ErrorView {
    match failure {
        crate::error::ErrorView::UncompressedSizeExceeded { .. } =>
        crate::error::ErrorView::UncompressedSizeExceeded { limit: max_output },
        _ => failure,
    }
}

/// A block ends within the data, not before the search began, and its output
/// is within the limit.
pub proof fn lemma_block_is_inside(data: Seq<u8>, start: int, from: int, tries: nat, cap: u64)
    requires
        0 <= from <= data.len() * 8,
    ensures
        find_block(data, start, from, tries, cap) matches BlockView::Found { end, output } ==> from
            <= end <= data.len() * 8 && 0 < output.len() <= cap,
    decreases tries,
{
    lemma_next_cut_bounds(data, from);
    let cut = next_cut(data, from);
    lemma_probe_keeps_the_limit(
        bits::packed(probe_bits(data, start, cut)),
        Seq::empty(),
        0,
        cap as nat,
    );
    if tries > 0 && cut < data.len() * 8 {
        lemma_block_is_inside(data, start, cut + 1, (tries - 1) as nat, cap);
    }
}

/// The output of a stream of blocks is never longer than the limit.
pub proof fn lemma_blocks_keep_the_limit(data: Seq<u8>, pos: int, room: u64)
    ensures
        decode_blocks(data, pos, room).0.len() <= room,
    decreases data.len() * 8 - pos,
{
    if !(pos < 0 || pos + 32 > data.len() * 8 || word_at(data, pos) == ALZ_EOS_MAGIC_U32)
        && word_at(data, pos) == ALZ_BLOCK_MAGIC_U32 {
        lemma_block_is_inside(data, pos + 32, pos + 32, MAX_CANDIDATES_PER_BLOCK as nat, room);
        match find_block(data, pos + 32, pos + 32, MAX_CANDIDATES_PER_BLOCK as nat, room) {
            BlockView::Failed(_) => {},
            BlockView::Found { end, output } => {
                lemma_blocks_keep_the_limit(data, end, (room - output.len()) as u64);
            },
        }
    }
}

/// A stream of blocks fails in one of two ways: its output passes the limit,
/// or it is no such stream.
pub proof fn lemma_block_failures(data: Seq<u8>, pos: int, room: u64)
    ensures
        decode_blocks(data, pos, room).1 matches Some(e) ==> e is UncompressedSizeExceeded
            || e is Bzip2Failed,
    decreases data.len() * 8 - pos,
{
    if !(pos < 0 || pos + 32 > data.len() * 8 || word_at(data, pos) == ALZ_EOS_MAGIC_U32)
        && word_at(data, pos) == ALZ_BLOCK_MAGIC_U32 {
        lemma_block_is_inside(data, pos + 32, pos + 32, MAX_CANDIDATES_PER_BLOCK as nat, room);
        lemma_find_failures(data, pos + 32, pos + 32, MAX_CANDIDATES_PER_BLOCK as nat, room);
        match find_block(data, pos + 32, pos + 32, MAX_CANDIDATES_PER_BLOCK as nat, room) {
            BlockView::Failed(_) => {},
            BlockView::Found { end, output } => {
                lemma_block_failures(data, end, (room - output.len()) as u64);
            },
        }
    }
}

proof fn lemma_find_failures(data: Seq<u8>, start: int, from: int, tries: nat, cap: u64)
    ensures
        find_block(data, start, from, tries, cap) matches BlockView::Failed(e) ==> e
            is UncompressedSizeExceeded || e is Bzip2Failed,
    decreases tries,
{
    if tries > 0 {
        lemma_find_failures(data, start, next_cut(data, from) + 1, (tries - 1) as nat, cap);
    }
}

/// Find the end of the block whose payload begins at bit `start` by decoding
/// candidate cuts. Returns the end and the decoded block.
pub fn decode_block(data: &[u8], start: u64, cap: u64) -> (r: AlzResult<(u64, Vec<u8>)>)
    requires
        data@.len() <= MAX_BZ2_COMPRESSED,
        start <= data@.len() * 8,
    ensures
        match (
            r,
            find_block(data@, start as int, start as int, MAX_CANDIDATES_PER_BLOCK as nat, cap),
        ) {
            (Ok((end, out)), BlockView::Found { end: e, output }) => end == e && out@ == output,
            (Err(e), BlockView::Failed(failure)) => e@ == failure,
            _ => false,
        },
{
    let total_bits: u64 = data.len() as u64 * 8;
    let mut from: u64 = start;
    let mut tries: u32 = MAX_CANDIDATES_PER_BLOCK;
    let ghost whole = find_block(
        data@,
        start as int,
        start as int,
        MAX_CANDIDATES_PER_BLOCK as nat,
        cap,
    );
    while tries > 0
        invariant
            data@.len() <= MAX_BZ2_COMPRESSED,
            total_bits == data@.len() * 8,
            start <= from <= total_bits,
            tries <= MAX_CANDIDATES_PER_BLOCK,
            find_block(data@, start as int, from as int, tries as nat, cap) == whole,
            whole == find_block(
                data@,
                start as int,
                start as int,
                MAX_CANDIDATES_PER_BLOCK as nat,
                cap,
            ),
        decreases tries,
    {
        let cut: u64 = match next_marker(data, from) {
            Some(p) => p,
            None => total_bits,
        };
        proof {
            lemma_next_cut(data@, from as int, cut as int);
        }
        let probe: Vec<u8> = build_block_probe(data, start, cut);
        let mut out: Vec<u8> = Vec::new();
        match decode_probe(probe.as_slice(), &mut out, cap) {
            Ok(produced) => {
                assert(out@ =~= Seq::<u8>::empty() + out@);
                match judge_cut(produced, cut, total_bits) {
                    CutVerdict::Boundary => {
                        return Ok((cut, out));
                    },
                    CutVerdict::Undecodable => {
                        return Err(
                            AlzError::Bzip2Failed(
                                String::from_str("could not decode bzip2 block"),
                            ),
                        );
                    },
                    CutVerdict::TryNext => {},
                }
            },
            Err(e) => {
                return Err(e);
            },
        }
        from = cut + 1;
        tries = tries - 1;
    }
    Err(AlzError::Bzip2Failed(String::from_str("block boundary not found")))
}

/// Decode a decrypted stream of blocks, appending the output of each block to
/// `writer` until the stream ends or fails.
#[verifier::rlimit(40)]
pub fn decode_stream(alz_data: &[u8], writer: &mut Vec<u8>, max_output: u64) -> (r: AlzResult<()>)
    requires
        alz_data@.len() <= MAX_BZ2_COMPRESSED,
    ensures
        final(writer)@ == old(writer)@ + decode_blocks(alz_data@, 0, max_output).0,
        match (r, decode_blocks(alz_data@, 0, max_output).1) {
            (Ok(_), None) => true,
            (Err(e), Some(failure)) => e@ == with_limit(failure, max_output),
            _ => false,
        },
{
    let ghost data = alz_data@;
    let ghost written = writer@;
    let ghost whole = decode_blocks(data, 0, max_output);
    let start: usize = writer.len();
    let mut produced_total: u64 = 0;
    let mut pos: u64 = 0;
    assert(writer@.subrange(start as int, start as int) + whole.0 =~= whole.0);

    // Read the 4-byte marker at the current bit position each iteration; a
    // missing marker (fewer than 32 bits left) ends the stream.
    loop
        invariant
            data == alz_data@,
            data.len() <= MAX_BZ2_COMPRESSED,
            pos <= data.len() * 8,
            produced_total <= max_output,
            start <= writer@.len(),
            start == written.len(),
            written == old(writer)@,
            writer@.subrange(0, start as int) == written,
            whole == decode_blocks(data, 0, max_output),
            whole.0 == writer@.subrange(start as int, writer@.len() as int) + decode_blocks(
                data,
                pos as int,
                (max_output - produced_total) as u64,
            ).0,
            whole.1 == decode_blocks(data, pos as int, (max_output - produced_total) as u64).1,
        ensures
            start <= writer@.len(),
            start == written.len(),
            writer@.subrange(0, start as int) == written,
            whole.0 == writer@.subrange(start as int, writer@.len() as int),
            whole.1 is None,
        decreases data.len() * 8 - pos,
    {
        let ghost rest = decode_blocks(data, pos as int, (max_output - produced_total) as u64);
        let ghost so_far = writer@.subrange(start as int, writer@.len() as int);
        let marker: u32 = match peek32(alz_data, pos) {
            Some(m) => m,
            None => {
                assert(so_far + rest.0 =~= so_far);
                break;
            },
        };
        if marker == ALZ_EOS_MAGIC_U32 {
            assert(so_far + rest.0 =~= so_far);
            break;
        }
        if marker != ALZ_BLOCK_MAGIC_U32 {
            let mut message: String = String::from_str("expected ALZ block header, got ");
            text::push_number(&mut message, marker as u64, 16, 8, '0');
            assert(so_far + rest.0 =~= so_far);
            assert(writer@ =~= written + so_far);
            return Err(AlzError::Bzip2Failed(message));
        }
        pos = pos + 32;
        proof {
            lemma_block_is_inside(
                data,
                pos as int,
                pos as int,
                MAX_CANDIDATES_PER_BLOCK as nat,
                (max_output - produced_total) as u64,
            );
        }
        match decode_block(alz_data, pos, max_output - produced_total) {
            Ok((end, mut block_out)) => {
                let ghost block = block_out@;
                let ghost before = writer@;
                produced_total = produced_total + block_out.len() as u64;
                writer.append(&mut block_out);
                pos = end;
                proof {
                    let after = decode_blocks(
                        data,
                        pos as int,
                        (max_output - produced_total) as u64,
                    );
                    assert(writer@.subrange(start as int, writer@.len() as int) =~= so_far
                        + block);
                    assert(writer@.subrange(0, start as int) =~= before.subrange(0, start as int));
                    assert(so_far + (block + after.0) =~= (so_far + block) + after.0);
                }
            },
            Err(e) => {
                assert(so_far + rest.0 =~= so_far);
                assert(writer@ =~= written + so_far);
                return Err(
                    match e {
                        AlzError::UncompressedSizeExceeded { .. } => {
                            AlzError::UncompressedSizeExceeded { limit: max_output }
                        },
                        other => other,
                    },
                );
            },
        }
    }
    assert(writer@ =~= written + whole.0);
    Ok(())
}

/// Extract ALZ-modified bzip2 data, appending decoded output to `writer` and
/// stopping if more than `max_output` bytes would be produced.
/// Returns the CRC32 of the decompressed data.
pub fn extract_bzip2(
    reader: &[u8],
    writer: &mut Vec<u8>,
    _compressed_size: u64,
    max_output: u64,
    crypto: Option<&mut ZipCrypto>,
) -> (r: AlzResult<u32>)
    ensures
        ({
            let data = decompress::decrypted(decompress::cipher_keys(crypto), reader@);
            let (output, failure) = decode_blocks(data, 0, max_output);
            if reader@.len() > MAX_BZ2_COMPRESSED {
                &&& r matches Err(e) && e@ == crate::error::ErrorView::Bzip2Failed(
                    "compressed size exceeds limit"@,
                )
                &&& final(writer)@ == old(writer)@
                &&& crypto matches Some(c) ==> final(c)@ == c@
            } else {
                &&& final(writer)@ == old(writer)@ + output
                &&& crypto matches Some(c) ==> final(c)@ == crate::crypto::keys_after_cipher(
                    c@,
                    reader@,
                )
                &&& match r {
                    Ok(crc) => failure is None && crc == crate::crypto::crc32_of(output),
                    Err(e) => failure matches Some(f) && e@ == with_limit(f, max_output),
                }
            }
        }),
{
    if reader.len() as u64 > MAX_BZ2_COMPRESSED {
        return Err(AlzError::Bzip2Failed(String::from_str("compressed size exceeds limit")));
    }
    let mut alz_data: Vec<u8> = vstd::slice::slice_to_vec(reader);
    if let Some(c) = crypto {
        c.decrypt(&mut alz_data);
    }
    let start: usize = writer.len();
    match decode_stream(alz_data.as_slice(), writer, max_output) {
        Ok(_) => {
            assert(writer@.subrange(start as int, writer@.len() as int) =~= decode_blocks(
                alz_data@,
                0,
                max_output,
            ).0);
            Ok(
                decompress::crc32(
                    vstd::slice::slice_subrange(writer.as_slice(), start, writer.len()),
                ),
            )
        },
        Err(e) => Err(e),
    }
}

/// A block of an ALZ stream: its payload bits, and the data they stand for.
pub struct Block {
    pub payload: Seq<bool>,
    pub data: Seq<u8>,
}

/// The bits of a stream of blocks: a block marker before each payload, and the
/// end-of-stream marker behind the last.
pub open spec fn framed(blocks: Seq<Block>) -> Seq<bool>
    decreases blocks.len(),
{
    if blocks.len() == 0 {
        bits::low_bits(ALZ_EOS_MAGIC_U32, 32)
    } else {
        bits::low_bits(ALZ_BLOCK_MAGIC_U32, 32) + blocks[0].payload + framed(blocks.drop_first())
    }
}

/// The data of all blocks, joined.
pub open spec fn block_data(blocks: Seq<Block>) -> Seq<u8>
    decreases blocks.len(),
{
    if blocks.len() == 0 {
        Seq::empty()
    } else {
        blocks[0].data + block_data(blocks.drop_first())
    }
}

/// How many markers stand between `from` and `end` that are none: where a
/// payload happens to hold the bits of one.
pub open spec fn false_markers(data: Seq<u8>, from: int, end: int) -> nat
    decreases end - from,
{
    let cut = next_cut(data, from);
    if from < 0 || cut < from || cut >= end {
        0
    } else {
        1 + false_markers(data, cut + 1, end)
    }
}

/// Whether the decoder tells the true end of a block: for the whole payload,
/// which begins at bit `start`, it emits the data of the block, and for what
/// is before a false marker nothing. There are fewer false markers than cuts
/// are tried.
pub open spec fn end_shows(data: Seq<u8>, start: int, block: Block) -> bool {
    let end = start + block.payload.len();
    &&& block.data.len() > 0
    &&& probe_output(bits::packed(probe_bits(data, start, end)), block.data.len()) == (
        block.data,
        false,
    )
    &&& forall|cut: int|
        start <= cut < end && #[trigger] is_marker(data, cut) ==> probe_output(
            bits::packed(probe_bits(data, start, cut)),
            0,
        ) == (Seq::<u8>::empty(), false)
    &&& false_markers(data, start, end) < 4096
}

/// Whether the decoder tells the true end of every block from bit `pos` on.
pub open spec fn ends_show(data: Seq<u8>, pos: int, blocks: Seq<Block>) -> bool
    decreases blocks.len(),
{
    blocks.len() > 0 ==> {
        &&& end_shows(data, pos + 32, blocks[0])
        &&& ends_show(data, pos + 32 + blocks[0].payload.len(), blocks.drop_first())
    }
}

/// A stream of blocks gives back the data of its blocks, also where payloads
/// happen to hold the bits of markers.
pub proof fn lemma_framed_blocks_come_back(blocks: Seq<Block>, max_output: u64)
    requires
        ends_show(bits::packed(framed(blocks)), 0, blocks),
        block_data(blocks).len() <= max_output,
    ensures
        decode_blocks(bits::packed(framed(blocks)), 0, max_output) == (
            block_data(blocks),
            None::<crate::error::ErrorView>,
        ),
{
    let all = framed(blocks);
    let data = bits::packed(all);
    bits::lemma_packed_bits_come_back(all);
    assert(bits::bits_of(data).subrange(0, all.len() as int) =~= all);
    lemma_framed_from(data, 0, blocks, max_output);
}

proof fn lemma_framed_from(data: Seq<u8>, pos: int, blocks: Seq<Block>, room: u64)
    requires
        0 <= pos,
        pos + framed(blocks).len() <= data.len() * 8,
        bits::bits_of(data).subrange(pos, pos + framed(blocks).len()) == framed(blocks),
        ends_show(data, pos, blocks),
        block_data(blocks).len() <= room,
    ensures
        decode_blocks(data, pos, room) == (block_data(blocks), None::<crate::error::ErrorView>),
    decreases blocks.len(),
{
    let here = framed(blocks);
    let all = bits::bits_of(data);
    lemma_marker_at_front(data, pos, blocks);
    if blocks.len() > 0 {
        let block = blocks[0];
        let rest = blocks.drop_first();
        let start = pos + 32;
        let end = start + block.payload.len();
        let later = framed(rest);
        assert(here.len() == 32 + block.payload.len() + later.len());
        assert(all.subrange(end, end + later.len()) =~= here.subrange(
            32 + block.payload.len() as int,
            here.len() as int,
        ));
        assert(here.subrange(32 + block.payload.len() as int, here.len() as int) =~= later);
        lemma_marker_at_front(data, end, rest);
        lemma_end_is_found(
            data,
            start,
            start,
            block,
            MAX_CANDIDATES_PER_BLOCK as nat,
            room,
        );
        lemma_framed_from(data, end, rest, (room - block.data.len()) as u64);
    }
}

/// Framed blocks start with a marker.
proof fn lemma_marker_at_front(data: Seq<u8>, pos: int, blocks: Seq<Block>)
    requires
        0 <= pos,
        pos + framed(blocks).len() <= data.len() * 8,
        bits::bits_of(data).subrange(pos, pos + framed(blocks).len()) == framed(blocks),
    ensures
        framed(blocks).len() >= 32,
        is_marker(data, pos),
        word_at(data, pos) == if blocks.len() == 0 {
            ALZ_EOS_MAGIC_U32
        } else {
            ALZ_BLOCK_MAGIC_U32
        },
{
    let here = framed(blocks);
    let magic = if blocks.len() == 0 {
        ALZ_EOS_MAGIC_U32
    } else {
        ALZ_BLOCK_MAGIC_U32
    };
    let all = bits::bits_of(data);
    let window = bits::bit_window(data, pos, 32);
    assert forall|i: int| 0 <= i < 32 implies window[i] == bits::low_bits(magic, 32)[i] by {
        assert(all.subrange(pos, pos + here.len())[i] == here[i]);
    }
    assert(window =~= bits::low_bits(magic, 32));
    vstd::arithmetic::power2::lemma2_to64();
    bits::lemma_value_of_low_bits(magic, 32);
}

/// The search for the end of a block gets past the false markers.
proof fn lemma_end_is_found(
    data: Seq<u8>,
    start: int,
    from: int,
    block: Block,
    tries: nat,
    room: u64,
)
    requires
        0 <= start <= from <= start + block.payload.len(),
        is_marker(data, start + block.payload.len()),
        end_shows(data, start, block),
        false_markers(data, from, start + block.payload.len()) < tries,
        block.data.len() <= room,
    ensures
        find_block(data, start, from, tries, room) == (BlockView::Found {
            end: start + block.payload.len(),
            output: block.data,
        }),
    decreases tries,
{
    let end = start + block.payload.len();
    let cut = next_cut(data, from);
    lemma_cut_is_first(data, from, end);
    let stream = bits::packed(probe_bits(data, start, cut));
    if cut == end {
        lemma_limit_does_not_matter(stream, Seq::empty(), 0, block.data.len(), room as nat);
    } else {
        lemma_limit_does_not_matter(stream, Seq::empty(), 0, 0, room as nat);
        lemma_end_is_found(data, start, cut + 1, block, (tries - 1) as nat, room);
    }
}

/// A cut is at a marker, and at none behind the first.
proof fn lemma_cut_is_first(data: Seq<u8>, from: int, marker: int)
    requires
        0 <= from <= marker,
        is_marker(data, marker),
    ensures
        from <= next_cut(data, from) <= marker,
        is_marker(data, next_cut(data, from)),
    decreases marker - from,
{
    if !is_marker(data, from) {
        lemma_cut_is_first(data, from + 1, marker);
    }
}

/// A stream whose output is longer than a limit passes it.
proof fn lemma_limit_is_passed(
    stream: Seq<u8>,
    calls: Seq<(Seq<u8>, nat)>,
    pos: nat,
    cap: nat,
    less: nat,
)
    requires
        pos <= stream.len(),
        !probe_run(stream, calls, pos, cap).1,
        less < probe_run(stream, calls, pos, cap).0.len(),
    ensures
        probe_run(stream, calls, pos, less).1,
    decreases stream.len() - pos + cap,
{
    let next = calls.push((stream.skip(pos as int), PIECE as nat));
    let (consumed, produced, end) = bzip2_call(next);
    if piece_verdict(consumed, produced.len(), end, cap) == PieceVerdict::More && pos + consumed
        <= stream.len() && produced.len() <= less {
        lemma_limit_is_passed(
            stream,
            next,
            pos + consumed,
            (cap - produced.len()) as nat,
            (less - produced.len()) as nat,
        );
    }
}

/// A stream of blocks with more data than the limit is refused for it.
pub proof fn lemma_larger_blocks_are_refused(blocks: Seq<Block>, max_output: u64)
    requires
        ends_show(bits::packed(framed(blocks)), 0, blocks),
        block_data(blocks).len() > max_output,
    ensures
        decode_blocks(bits::packed(framed(blocks)), 0, max_output).1 matches Some(e) && with_limit(
            e,
            max_output,
        ) == (crate::error::ErrorView::UncompressedSizeExceeded { limit: max_output }),
{
    let all = framed(blocks);
    let data = bits::packed(all);
    bits::lemma_packed_bits_come_back(all);
    assert(bits::bits_of(data).subrange(0, all.len() as int) =~= all);
    lemma_larger_from(data, 0, blocks, max_output);
}

proof fn lemma_larger_from(data: Seq<u8>, pos: int, blocks: Seq<Block>, room: u64)
    requires
        0 <= pos,
        pos + framed(blocks).len() <= data.len() * 8,
        bits::bits_of(data).subrange(pos, pos + framed(blocks).len()) == framed(blocks),
        ends_show(data, pos, blocks),
        block_data(blocks).len() > room,
    ensures
        decode_blocks(data, pos, room).1 matches Some(e) && e is UncompressedSizeExceeded,
    decreases blocks.len(),
{
    let here = framed(blocks);
    let all = bits::bits_of(data);
    lemma_marker_at_front(data, pos, blocks);
    let block = blocks[0];
    let rest = blocks.drop_first();
    let start = pos + 32;
    let end = start + block.payload.len();
    let later = framed(rest);
    assert(here.len() == 32 + block.payload.len() + later.len());
    assert(all.subrange(end, end + later.len()) =~= here.subrange(
        32 + block.payload.len() as int,
        here.len() as int,
    ));
    assert(here.subrange(32 + block.payload.len() as int, here.len() as int) =~= later);
    lemma_marker_at_front(data, end, rest);
    if block.data.len() <= room {
        lemma_end_is_found(data, start, start, block, MAX_CANDIDATES_PER_BLOCK as nat, room);
        lemma_larger_from(data, end, rest, (room - block.data.len()) as u64);
    } else {
        lemma_end_is_too_much(data, start, start, block, MAX_CANDIDATES_PER_BLOCK as nat, room);
    }
}

/// The search for the end of a block stops where its output is too much.
proof fn lemma_end_is_too_much(
    data: Seq<u8>,
    start: int,
    from: int,
    block: Block,
    tries: nat,
    room: u64,
)
    requires
        0 <= start <= from <= start + block.payload.len(),
        is_marker(data, start + block.payload.len()),
        end_shows(data, start, block),
        false_markers(data, from, start + block.payload.len()) < tries,
        block.data.len() > room,
    ensures
        find_block(data, start, from, tries, room) matches BlockView::Failed(e) && e
            is UncompressedSizeExceeded,
    decreases tries,
{
    let end = start + block.payload.len();
    let cut = next_cut(data, from);
    lemma_cut_is_first(data, from, end);
    let stream = bits::packed(probe_bits(data, start, cut));
    if cut == end {
        lemma_limit_is_passed(stream, Seq::empty(), 0, block.data.len(), room as nat);
    } else {
        lemma_limit_does_not_matter(stream, Seq::empty(), 0, 0, room as nat);
        lemma_end_is_too_much(data, start, cut + 1, block, (tries - 1) as nat, room);
    }
}

/// Whether a decoder emits some pieces for a stream, call by call, each with
/// 32768 bytes of output space: it goes on as long as it is not at the end and
/// gets somewhere.
pub open spec fn emits(
    stream: Seq<u8>,
    calls: Seq<(Seq<u8>, nat)>,
    pos: nat,
    pieces: Seq<Seq<u8>>,
) -> bool
    decreases pieces.len(),
{
    let next = calls.push((stream.skip(pos as int), 32768));
    let (consumed, produced, end) = bzip2_call(next);
    let goes_on = end == Some(false) && (consumed > 0 || produced.len() > 0);
    &&& pieces.len() > 0
    &&& produced == pieces[0]
    &&& pos + consumed <= stream.len()
    &&& goes_on <==> pieces.len() > 1
    &&& goes_on ==> emits(stream, next, pos + consumed, pieces.drop_first())
}

/// What a decoder emits for a stream is decoded, all of it, however many calls
/// that takes; where it is more than the limit, the limit is passed.
pub proof fn lemma_all_pieces_are_decoded(
    stream: Seq<u8>,
    calls: Seq<(Seq<u8>, nat)>,
    pos: nat,
    pieces: Seq<Seq<u8>>,
    cap: nat,
)
    requires
        emits(stream, calls, pos, pieces),
    ensures
        pieces.flatten().len() <= cap ==> probe_run(stream, calls, pos, cap) == (
            pieces.flatten(),
            false,
        ),
        pieces.flatten().len() > cap ==> probe_run(stream, calls, pos, cap).1,
    decreases pieces.len(),
{
    let next = calls.push((stream.skip(pos as int), PIECE as nat));
    let (consumed, produced, end) = bzip2_call(next);
    let rest = pieces.drop_first();
    assert(pieces.flatten() == pieces.first() + rest.flatten());
    if pieces.len() > 1 {
        if produced.len() <= cap {
            lemma_all_pieces_are_decoded(
                stream,
                next,
                pos + consumed,
                rest,
                (cap - produced.len()) as nat,
            );
        }
    } else {
        assert(rest.len() == 0);
        assert(rest.flatten() =~= Seq::<u8>::empty());
        assert(pieces.flatten() =~= pieces[0]);
    }
}

/// A block is rewrapped as a standard stream, bit for bit: `BZh9`, the magic of
/// a block, no checksum, no randomisation, the payload, the magic of the end,
/// and no checksum; filled up with zeros.
pub proof fn lemma_probe_is_a_standard_stream(data: Seq<u8>, start: int, end: int)
    requires
        0 <= start <= end <= data.len() * 8,
    ensures
        exists|pad: nat|
            pad < 8 && bits::bits_of(bits::packed(probe_bits(data, start, end))) == bits::bits_of(
                seq![0x42u8, 0x5a, 0x68, 0x39, 0x31, 0x41, 0x59, 0x26, 0x53, 0x59, 0, 0, 0, 0],
            ) + seq![false] + bits::bits_of(data).subrange(start, end) + bits::bits_of(
                seq![0x17u8, 0x72, 0x45, 0x38, 0x50, 0x90, 0, 0, 0, 0],
            ) + #[trigger] bits::zero_bits(pad),
{
    let all = probe_bits(data, start, end);
    bits::lemma_packed_bits_come_back(all);
    let pad = (bits::packed(all).len() * 8 - all.len()) as nat;
    let head = bits::bits_of(
        seq![0x42u8, 0x5a, 0x68, 0x39, 0x31, 0x41, 0x59, 0x26, 0x53, 0x59, 0, 0, 0, 0],
    );
    let tail = bits::bits_of(seq![0x17u8, 0x72, 0x45, 0x38, 0x50, 0x90, 0, 0, 0, 0]);
    assert(probe_head() =~= seq![
        0x42u8,
        0x5a,
        0x68,
        0x39,
        0x31,
        0x41,
        0x59,
        0x26,
        0x53,
        0x59,
        0,
        0,
        0,
        0,
    ]);
    assert(probe_tail() =~= seq![0x17u8, 0x72, 0x45, 0x38, 0x50, 0x90, 0, 0, 0, 0]);
    assert(all =~= head + seq![false] + bits::bits_of(data).subrange(start, end) + tail);
    assert(bits::bits_of(bits::packed(all)) == head + seq![false] + bits::bits_of(data).subrange(
        start,
        end,
    ) + tail + bits::zero_bits(pad));
}

/// What starts with neither marker is no stream of blocks, and is refused with
/// what stands there.
pub proof fn lemma_no_marker_is_refused(data: Seq<u8>, pos: int, room: u64)
    requires
        0 <= pos,
        pos + 32 <= data.len() * 8,
        word_at(data, pos) != 0x444C5A01,
        word_at(data, pos) != 0x444C5A02,
    ensures
        decode_blocks(data, pos, room) == (
            Seq::<u8>::empty(),
            Some(
                crate::error::ErrorView::Bzip2Failed(
                    "expected ALZ block header, got "@ + text::padded(
                        text::digits(word_at(data, pos), 16),
                        8,
                        '0',
                    ),
                ),
            ),
        ),
{
}

/// The word at a byte is its four bytes, the first of them highest; and the
/// word one bit further on is the same, moved up, with the next bit.
pub proof fn lemma_words_of_bytes(data: Seq<u8>, i: int)
    requires
        0 <= i,
        i + 4 <= data.len(),
    ensures
        word_at(data, 8 * i) == data[i] * 0x100_0000 + data[i + 1] * 0x1_0000 + data[i + 2] * 0x100
            + data[i + 3],
{
    bits::lemma_byte_value(data, i);
    bits::lemma_byte_value(data, i + 1);
    bits::lemma_byte_value(data, i + 2);
    bits::lemma_byte_value(data, i + 3);
    let a = bits::bit_window(data, 8 * i, 8);
    let b = bits::bit_window(data, 8 * (i + 1), 8);
    let c = bits::bit_window(data, 8 * (i + 2), 8);
    let d = bits::bit_window(data, 8 * (i + 3), 8);
    assert(bits::bit_window(data, 8 * i, 32) =~= a + b + c + d);
    bits::lemma_value_of_two(a + b + c, d);
    bits::lemma_value_of_two(a + b, c);
    bits::lemma_value_of_two(a, b);
    vstd::arithmetic::power2::lemma2_to64();
}

/// A marker is where its 32 bits stand.
pub proof fn lemma_markers(data: Seq<u8>, i: int)
    ensures
        is_marker(data, i) <==> 0 <= i && i + 32 <= data.len() * 8 && (word_at(data, i)
            == 0x444C5A01 || word_at(data, i) == 0x444C5A02),
{
}

/// Where fewer than 32 bits are left, a stream of blocks ends, with nothing
/// wrong.
pub proof fn lemma_no_room_for_a_marker(data: Seq<u8>, pos: int, room: u64)
    requires
        0 <= pos,
        pos + 32 > data.len() * 8,
    ensures
        decode_blocks(data, pos, room) == (Seq::<u8>::empty(), None::<crate::error::ErrorView>),
{
}

/// The bits of a stream of blocks without the end-of-stream marker.
pub open spec fn framed_without_end(blocks: Seq<Block>) -> Seq<bool>
    decreases blocks.len(),
{
    if blocks.len() == 0 {
        Seq::empty()
    } else {
        bits::low_bits(0x444C5A01, 32) + blocks[0].payload + framed_without_end(
            blocks.drop_first(),
        )
    }
}

/// A stream of blocks that ends with the data, without a marker, gives back the
/// data of its blocks too.
pub proof fn lemma_blocks_without_end_come_back(
    data: Seq<u8>,
    blocks: Seq<Block>,
    max_output: u64,
)
    requires
        bits::bits_of(data) == framed_without_end(blocks),
        ends_show(data, 0, blocks),
        block_data(blocks).len() <= max_output,
    ensures
        decode_blocks(data, 0, max_output) == (
            block_data(blocks),
            None::<crate::error::ErrorView>,
        ),
{
    let all = bits::bits_of(data);
    assert(all.subrange(0, all.len() as int) =~= all);
    lemma_open_from(data, 0, blocks, max_output);
}

proof fn lemma_open_from(data: Seq<u8>, pos: int, blocks: Seq<Block>, room: u64)
    requires
        0 <= pos,
        pos + framed_without_end(blocks).len() == data.len() * 8,
        bits::bits_of(data).subrange(pos, data.len() * 8 as int) == framed_without_end(blocks),
        ends_show(data, pos, blocks),
        block_data(blocks).len() <= room,
    ensures
        decode_blocks(data, pos, room) == (block_data(blocks), None::<crate::error::ErrorView>),
    decreases blocks.len(),
{
    let here = framed_without_end(blocks);
    let all = bits::bits_of(data);
    let total = data.len() * 8 as int;
    if blocks.len() > 0 {
        let block = blocks[0];
        let rest = blocks.drop_first();
        let start = pos + 32;
        let end = start + block.payload.len();
        let later = framed_without_end(rest);
        assert(here.len() == 32 + block.payload.len() + later.len());
        assert(all.subrange(end, total) =~= here.subrange(
            32 + block.payload.len() as int,
            here.len() as int,
        ));
        assert(here.subrange(32 + block.payload.len() as int, here.len() as int) =~= later);
        lemma_open_marker(data, pos, blocks);
        if rest.len() > 0 {
            lemma_open_marker(data, end, rest);
            lemma_end_is_found(data, start, start, block, MAX_CANDIDATES_PER_BLOCK as nat, room);
        } else {
            assert(end == total);
            lemma_last_end_is_found(
                data,
                start,
                start,
                block,
                MAX_CANDIDATES_PER_BLOCK as nat,
                room,
            );
        }
        lemma_open_from(data, end, rest, (room - block.data.len()) as u64);
    }
}

/// Blocks without an end start with a marker.
proof fn lemma_open_marker(data: Seq<u8>, pos: int, blocks: Seq<Block>)
    requires
        0 <= pos,
        blocks.len() > 0,
        pos + framed_without_end(blocks).len() == data.len() * 8,
        bits::bits_of(data).subrange(pos, data.len() * 8 as int) == framed_without_end(blocks),
    ensures
        is_marker(data, pos),
        word_at(data, pos) == ALZ_BLOCK_MAGIC_U32,
{
    let here = framed_without_end(blocks);
    let all = bits::bits_of(data);
    let window = bits::bit_window(data, pos, 32);
    assert forall|i: int| 0 <= i < 32 implies window[i] == bits::low_bits(
        ALZ_BLOCK_MAGIC_U32,
        32,
    )[i] by {
        assert(all.subrange(pos, data.len() * 8 as int)[i] == here[i]);
    }
    assert(window =~= bits::low_bits(ALZ_BLOCK_MAGIC_U32, 32));
    vstd::arithmetic::power2::lemma2_to64();
    bits::lemma_value_of_low_bits(ALZ_BLOCK_MAGIC_U32, 32);
}

/// The search for the end of the last block comes to the end of the data.
proof fn lemma_last_end_is_found(
    data: Seq<u8>,
    start: int,
    from: int,
    block: Block,
    tries: nat,
    room: u64,
)
    requires
        0 <= start <= from <= start + block.payload.len(),
        start + block.payload.len() == data.len() * 8,
        end_shows(data, start, block),
        false_markers(data, from, start + block.payload.len()) < tries,
        block.data.len() <= room,
    ensures
        find_block(data, start, from, tries, room) == (BlockView::Found {
            end: start + block.payload.len(),
            output: block.data,
        }),
    decreases tries,
{
    let end = start + block.payload.len();
    let cut = next_cut(data, from);
    lemma_next_cut_bounds(data, from);
    lemma_cut_or_end(data, from);
    let stream = bits::packed(probe_bits(data, start, cut));
    if cut == end {
        lemma_limit_does_not_matter(stream, Seq::empty(), 0, block.data.len(), room as nat);
    } else {
        lemma_limit_does_not_matter(stream, Seq::empty(), 0, 0, room as nat);
        lemma_last_end_is_found(data, start, cut + 1, block, (tries - 1) as nat, room);
    }
}

/// A cut is at a marker or at the end of the data.
proof fn lemma_cut_or_end(data: Seq<u8>, from: int)
    requires
        0 <= from,
    ensures
        is_marker(data, next_cut(data, from)) || next_cut(data, from) == data.len() * 8,
    decreases data.len() * 8 - from,
{
    if from + 32 <= data.len() * 8 && !is_marker(data, from) {
        lemma_cut_or_end(data, from + 1);
    }
}

} // verus!
