//! Extractor for the ALZ archive format.
//!
//! Opens ALZ archives (store, DEFLATE, and ALZ-modified bzip2 entries, with
//! optional traditional ZIP encryption and multi-volume splits) from the bytes
//! of their volumes. Open an archive with [`archive::AlzArchive`] and take
//! entries out with [`extract`].

pub mod archive;
pub mod arguments;
pub mod cli;
pub mod crypto;
pub mod decompress;
pub mod dostime;
pub mod encoding;
pub mod error;
pub mod extract;
pub mod layout;
pub mod multivolume;
pub mod roundtrip;
pub mod text;
pub mod truncation;
