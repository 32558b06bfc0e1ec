//! CP949/EUC-KR filename and password conversion.
use vstd::prelude::*;
use vstd::string::*;
use vstd::utf8::*;

verus! {

/// The longest text that is converted, in bytes: the size of what a converter
/// allocates for it is still a number.
pub const MAX_TEXT_BYTES: usize = usize::MAX / 64;

/// The text that `encoding_rs::EUC_KR.decode` makes of some bytes.
pub uninterp spec fn euc_kr_decoded(bytes: Seq<u8>) -> Seq<char>;

/// The bytes that `encoding_rs::EUC_KR.encode` makes of a text.
pub uninterp spec fn euc_kr_encoded(text: Seq<char>) -> Seq<u8>;

/// The text of a filename: as UTF-8 where the bytes are valid UTF-8, as
/// CP949/EUC-KR otherwise.
pub open spec fn filename_text(bytes: Seq<u8>) -> Seq<char> {
    if valid_utf8(bytes) {
        decode_utf8(bytes)
    } else {
        euc_kr_decoded(bytes)
    }
}

/// `std::str::from_utf8` gives the text that the bytes encode where they are
/// valid UTF-8, and an error where they are not.
#[verifier::external_body]
fn utf8_text(bytes: &[u8]) -> (r: Option<&str>)
    ensures
        r is Some <==> valid_utf8(bytes@),
        r matches Some(s) ==> encode_utf8(s@) == bytes@,
{
    std::str::from_utf8(bytes).ok()
}

/// `encoding_rs::EUC_KR.decode` decodes CP949 (the extension of EUC-KR that
/// the Encoding Standard calls euc-kr), with malformed sequences replaced; a
/// byte order mark at the front selects UTF-8 or UTF-16 instead. It allocates
/// by the length of the input, and panics where that size overflows. The text
/// is a function of the bytes alone; which text it is stays unstated.
#[verifier::external_body]
fn decode_euc_kr(bytes: &[u8]) -> (text: String)
    requires
        bytes@.len() <= MAX_TEXT_BYTES,
    ensures
        text@ == euc_kr_decoded(bytes@),
{
    encoding_rs::EUC_KR.decode(bytes).0.into_owned()
}

/// `encoding_rs::EUC_KR.encode` encodes a text as CP949, with numeric
/// character references for what has no code there; a text of ASCII characters
/// comes back as its own bytes. It allocates by the length of the input, and
/// panics where that size overflows. The bytes are a function of the text
/// alone; which bytes a character beyond ASCII gets stays unstated.
#[verifier::external_body]
fn encode_euc_kr(text: &str) -> (bytes: Vec<u8>)
    requires
        encode_utf8(text@).len() <= MAX_TEXT_BYTES,
    ensures
        bytes@ == euc_kr_encoded(text@),
        is_ascii_chars(text@) ==> bytes@ == encode_utf8(text@),
{
    encoding_rs::EUC_KR.encode(text).0.into_owned()
}

/// Convert CP949/EUC-KR encoded filename bytes to a UTF-8 string.
pub fn cp949_to_utf8(bytes: &[u8]) -> (text: String)
    requires
        bytes@.len() <= MAX_TEXT_BYTES,
    ensures
        text@ == filename_text(bytes@),
        valid_utf8(bytes@) ==> encode_utf8(text@) == bytes@,
        !valid_utf8(bytes@) ==> text@ == euc_kr_decoded(bytes@),
{
    match utf8_text(bytes) {
        Some(s) => {
            proof {
                encode_utf8_decode_utf8(s@);
                decode_utf8_encode_utf8(bytes@);
            }
            String::from_str(s)
        },
        None => decode_euc_kr(bytes),
    }
}

/// Encode a password string to CP949/EUC-KR bytes for ZIP key derivation.
/// ALZ producers are ANSI-codepage Korean Windows apps and derive the
/// traditional-ZIP keys from the CP949 byte representation of the password,
/// not UTF-8. ASCII passwords encode identically in both, so this only
/// changes behavior for non-ASCII passwords.
pub fn password_to_cp949(password: &str) -> (bytes: Vec<u8>)
    requires
        encode_utf8(password@).len() <= MAX_TEXT_BYTES,
    ensures
        bytes@ == euc_kr_encoded(password@),
        is_ascii_chars(password@) ==> bytes@ == encode_utf8(password@),
{
    encode_euc_kr(password)
}

/// A filename that is stored as UTF-8 comes out as it was.
pub proof fn lemma_utf8_names_pass_through(name: Seq<char>)
    ensures
        filename_text(encode_utf8(name)) == name,
{
    encode_utf8_valid_utf8(name);
    encode_utf8_decode_utf8(name);
}

} // verus!
