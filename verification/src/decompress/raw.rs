//! Store (uncompressed) extraction.
use crate::crypto::ZipCrypto;
use crate::decompress;
use crate::error::{unexpected_eof, AlzError, AlzResult};
use vstd::prelude::*;

verus! {

pub const BUF_SIZE: usize = 32768;

/// How many of `size` stored bytes come out, given the bytes that are there
/// and the bytes that may come out: all of them, or the whole buffers before
/// the one that cannot be filled or is too much.
pub open spec fn raw_len(available: nat, size: nat, max_output: nat) -> nat {
    let bound = if available <= max_output {
        available
    } else {
        max_output
    };
    if size <= bound {
        size
    } else {
        bound / BUF_SIZE as nat * BUF_SIZE as nat
    }
}

/// How the copy ends: well, at the end of the data, or at the output limit.
/// A buffer that cannot be filled is noticed before one that is too much.
pub open spec fn raw_failure(available: nat, size: nat, max_output: u64) -> Option<
    crate::error::ErrorView,
> {
    let done = raw_len(available, size, max_output as nat);
    let next = if done + BUF_SIZE <= size {
        done + BUF_SIZE
    } else {
        size as int
    };
    if done == size {
        None
    } else if next > available {
        Some(crate::error::eof_error())
    } else {
        Some(crate::error::ErrorView::UncompressedSizeExceeded { limit: max_output })
    }
}

/// Copy `size` stored bytes to `writer`, optionally decrypting, erroring if
/// more than `max_output` bytes would be produced. Returns the CRC32.
#[verifier::rlimit(40)]
pub fn extract_raw(
    reader: &[u8],
    writer: &mut Vec<u8>,
    size: u64,
    max_output: u64,
    crypto: Option<&mut ZipCrypto>,
) -> (r: AlzResult<u32>)
    ensures
        ({
            let taken = reader@.take(
                raw_len(reader@.len(), size as nat, max_output as nat) as int,
            );
            let plain = decompress::decrypted(decompress::cipher_keys(crypto), taken);
            &&& final(writer)@ == old(writer)@ + plain
            &&& crypto matches Some(c) ==> final(c)@ == crate::crypto::keys_after_cipher(c@, taken)
            &&& match r {
                Ok(crc) => {
                    &&& raw_failure(reader@.len(), size as nat, max_output) is None
                    &&& crc == crate::crypto::crc32_of(plain)
                },
                Err(e) => raw_failure(reader@.len(), size as nat, max_output) == Some(e@),
            }
        }),
        // The copy succeeds exactly where the bytes are there and are allowed,
        // and is then all of them.
        r is Ok <==> size <= reader@.len() && size <= max_output,
        r is Ok && crypto is None ==> final(writer)@ == old(writer)@ + reader@.take(size as int),
        r is Ok ==> final(writer)@.len() == old(writer)@.len() + size,
        r matches Err(e) ==> e@ == crate::error::eof_error() || e@
            == (crate::error::ErrorView::UncompressedSizeExceeded { limit: max_output }),
        size <= max_output ==> (r matches Err(e) ==> e@ == crate::error::eof_error()),
        size <= reader@.len() ==> (r matches Err(e) ==> e@
            != crate::error::eof_error()),
        final(writer)@.len() <= old(writer)@.len() + max_output,
        // A copy that fails leaves the whole buffers before that.
        r is Err ==> ({
            let n = final(writer)@.len() - old(writer)@.len();
            &&& n % 32768 == 0
            &&& 0 <= n <= reader@.len()
            &&& reader@.len() - n < 32768 || max_output - n < 32768
            &&& crypto is None ==> final(writer)@ == old(writer)@ + reader@.take(n)
        }),
{
    let ghost first = crypto;
    let ghost keys = decompress::cipher_keys(crypto);
    let ghost written = writer@;
    let start: usize = writer.len();
    let mut cipher = crypto;
    let mut done: u64 = 0;
    let mut failure: Option<AlzError> = None;
    assert(written + decompress::decrypted(keys, reader@.take(0)) =~= written);
    assert(reader@.take(0) =~= Seq::<u8>::empty());

    while done < size && failure.is_none()
        invariant
            done <= size,
            done <= reader@.len(),
            done <= max_output,
            done < size ==> done % BUF_SIZE as u64 == 0,
            first is Some <==> cipher is Some,
            keys == decompress::cipher_keys(first),
            first is Some ==> {
                &&& *final(cipher->0) == *final(first->0)
                &&& cipher->0@ == crate::crypto::keys_after_cipher(
                    first->0@,
                    reader@.take(done as int),
                )
            },
            writer@ == written + decompress::decrypted(keys, reader@.take(done as int)),
            failure matches Some(e) ==> {
                &&& done == raw_len(reader@.len(), size as nat, max_output as nat)
                &&& raw_failure(reader@.len(), size as nat, max_output) == Some(e@)
            },
        decreases size - done, (if failure is None {
                1int
            } else {
                0int
            }),
    {
        // Clamp against a u64 bound before narrowing to usize; a bare
        // `remaining as usize` would truncate on 32-bit targets.
        let remaining: u64 = size - done;
        let to_read: usize = if remaining < BUF_SIZE as u64 {
            remaining as usize
        } else {
            BUF_SIZE
        };
        let ghost next = done + to_read;
        proof {
            lemma_whole_buffers(reader@.len(), size as nat, max_output as nat, done as nat);
        }
        if reader.len() - (done as usize) < to_read {
            failure = Some(unexpected_eof());
        } else if max_output - done < to_read as u64 {
            failure = Some(AlzError::UncompressedSizeExceeded { limit: max_output });
        } else {
            let from: usize = done as usize;
            let mut chunk: Vec<u8> = vstd::slice::slice_to_vec(
                vstd::slice::slice_subrange(reader, from, from + to_read),
            );
            let ghost raw = chunk@;
            cipher = match cipher {
                Some(c) => {
                    c.decrypt(&mut chunk);
                    Some(c)
                },
                None => None,
            };
            proof {
                let head = reader@.take(done as int);
                assert(reader@.take(next as int) =~= head + raw);
                match keys {
                    Some(k) => {
                        crate::crypto::lemma_decipher_concat(k, head, raw);
                    },
                    None => {},
                }
                assert(written + (decompress::decrypted(keys, head) + chunk@) =~= written
                    + decompress::decrypted(keys, head) + chunk@);
            }
            writer.append(&mut chunk);
            done = done + to_read as u64;
        }
    }
    match failure {
        Some(e) => Err(e),
        None => {
            let ghost plain = decompress::decrypted(keys, reader@.take(done as int));
            let crc: u32 = decompress::crc32(
                vstd::slice::slice_subrange(writer.as_slice(), start, writer.len()),
            );
            assert(writer@.subrange(start as int, writer@.len() as int) =~= plain);
            Ok(crc)
        },
    }
}

/// Where the copy stands at whole buffers, the next buffer decides: it goes
/// through, or the copy ends here.
proof fn lemma_whole_buffers(available: nat, size: nat, max_output: nat, done: nat)
    requires
        done < size,
        done <= available,
        done <= max_output,
        done % BUF_SIZE as nat == 0,
    ensures
        ({
            let step = if size - done < BUF_SIZE {
                size - done
            } else {
                BUF_SIZE as int
            };
            done + step > available || done + step > max_output ==> raw_len(
                available,
                size,
                max_output,
            ) == done
        }),
{
    let bound = if available <= max_output {
        available
    } else {
        max_output
    };
    if size > bound && done + BUF_SIZE > bound {
        assert(bound / BUF_SIZE as nat * BUF_SIZE as nat == done) by (nonlinear_arith)
            requires
                done % BUF_SIZE as nat == 0,
                done <= bound,
                bound < done + BUF_SIZE as nat,
                BUF_SIZE as nat > 0,
        ;
    }
}

} // verus!
