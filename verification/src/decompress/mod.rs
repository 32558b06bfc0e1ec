//! Decompression of entry data.
use vstd::prelude::*;

pub mod bits;
pub mod bzip2;
pub mod deflate;
pub mod raw;

verus! {

/// The CRC-32 checksum of `data` by `crc32fast::hash`, which computes the
/// common CRC-32 (IEEE polynomial, reflected, register inverted before and
/// after).
#[verifier::external_body]
pub(crate) fn crc32(data: &[u8]) -> (crc: u32)
    ensures
        crc == crate::crypto::crc32_of(data@),
{
    crc32fast::hash(data)
}

/// The keys of the cipher that entry data goes through, if there is one.
pub open spec fn cipher_keys(crypto: Option<&mut crate::crypto::ZipCrypto>) -> Option<
    crate::crypto::CipherKeys,
> {
    match crypto {
        Some(c) => Some(c@),
        None => None,
    }
}

/// Entry data as it reads after decryption: the data itself where there is no
/// cipher.
pub open spec fn decrypted(keys: Option<crate::crypto::CipherKeys>, data: Seq<u8>) -> Seq<u8> {
    match keys {
        Some(k) => crate::crypto::deciphered(k, data),
        None => data,
    }
}

/// The cipher keys after `data` was decrypted.
pub open spec fn keys_after(
    keys: Option<crate::crypto::CipherKeys>,
    data: Seq<u8>,
) -> Option<crate::crypto::CipherKeys> {
    match keys {
        Some(k) => Some(crate::crypto::keys_after_cipher(k, data)),
        None => None,
    }
}

} // verus!
