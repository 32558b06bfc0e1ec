//! Error type returned across the crate.
use crate::text;
use vstd::prelude::*;
use vstd::std_specs::convert::FromSpecImpl;

verus! {

/// What kind of I/O failure an [`IoError`] stands for.
#[derive(Debug, Clone, Copy, PartialEq, Eq, Structural)]
pub enum IoKind {
    /// A file was not found.
    NotFound,
    /// The data ended before the bytes that were asked for.
    UnexpectedEof,
    /// A parameter, such as a seek target, was out of range.
    InvalidInput,
    /// The reader of a pipe has gone.
    BrokenPipe,
    /// Any other failure.
    Other,
}

/// An I/O failure: its kind and its text.
#[derive(Debug)]
pub struct IoError {
    pub kind: IoKind,
    pub message: String,
}

/// The model of an [`IoError`].
pub struct IoErrorView {
    pub kind: IoKind,
    pub message: Seq<char>,
}

impl View for IoError {
    type V = IoErrorView;

    open spec fn view(&self) -> IoErrorView {
        IoErrorView { kind: self.kind, message: self.message@ }
    }
}

/// An error from opening, parsing, or extracting an ALZ archive.
#[derive(Debug)]
pub enum AlzError {
    /// The input does not start with an ALZ signature.
    NotAlzFile,
    /// A header or field is malformed or inconsistent.
    CorruptedFile,
    /// The archive file (or a volume) could not be opened.
    CantOpenFile(IoError),
    /// The destination file could not be created or written.
    CantOpenDestFile(IoError),
    /// A local file header declares an out-of-range filename length.
    InvalidFilenameLength,
    /// DEFLATE decompression failed.
    InflateFailed(String),
    /// bzip2 decompression failed.
    Bzip2Failed(String),
    /// The decompressed data does not match the stored CRC32.
    InvalidFileCrc {
        /// CRC32 stored in the archive.
        expected: u32,
        /// CRC32 of the decompressed data.
        got: u32,
    },
    /// The size-field width bits in a file descriptor are not 0/1/2/4/8 bytes.
    InvalidSizeFieldWidth(u8),
    /// The entry uses a compression method this extractor does not support.
    UnknownCompressionMethod(u8),
    /// Decompression produced more than the declared uncompressed size.
    UncompressedSizeExceeded {
        /// The declared uncompressed size that was exceeded.
        limit: u64,
    },
    /// The entry count exceeds what the archive size could hold.
    TooManyEntries,
    /// An encrypted entry was reached without a password.
    PasswordNotSet,
    /// The password failed the encryption header check.
    InvalidPassword,
    /// An entry name or symlink target would escape the destination directory.
    PathTraversal(String),
    /// An underlying I/O error.
    Io(IoError),
}

/// The model of an [`AlzError`].
pub enum ErrorView {
    NotAlzFile,
    CorruptedFile,
    CantOpenFile(IoErrorView),
    CantOpenDestFile(IoErrorView),
    InvalidFilenameLength,
    InflateFailed(Seq<char>),
    Bzip2Failed(Seq<char>),
    InvalidFileCrc { expected: u32, got: u32 },
    InvalidSizeFieldWidth(u8),
    UnknownCompressionMethod(u8),
    UncompressedSizeExceeded { limit: u64 },
    TooManyEntries,
    PasswordNotSet,
    InvalidPassword,
    PathTraversal(Seq<char>),
    Io(IoErrorView),
}

impl View for AlzError {
    type V = ErrorView;

    open spec fn view(&self) -> ErrorView {
        match *self {
            AlzError::NotAlzFile => ErrorView::NotAlzFile,
            AlzError::CorruptedFile => ErrorView::CorruptedFile,
            AlzError::CantOpenFile(e) => ErrorView::CantOpenFile(e@),
            AlzError::CantOpenDestFile(e) => ErrorView::CantOpenDestFile(e@),
            AlzError::InvalidFilenameLength => ErrorView::InvalidFilenameLength,
            AlzError::InflateFailed(s) => ErrorView::InflateFailed(s@),
            AlzError::Bzip2Failed(s) => ErrorView::Bzip2Failed(s@),
            AlzError::InvalidFileCrc { expected, got } => ErrorView::InvalidFileCrc {
                expected,
                got,
            },
            AlzError::InvalidSizeFieldWidth(v) => ErrorView::InvalidSizeFieldWidth(v),
            AlzError::UnknownCompressionMethod(m) => ErrorView::UnknownCompressionMethod(m),
            AlzError::UncompressedSizeExceeded { limit } => ErrorView::UncompressedSizeExceeded {
                limit,
            },
            AlzError::TooManyEntries => ErrorView::TooManyEntries,
            AlzError::PasswordNotSet => ErrorView::PasswordNotSet,
            AlzError::InvalidPassword => ErrorView::InvalidPassword,
            AlzError::PathTraversal(p) => ErrorView::PathTraversal(p@),
            AlzError::Io(e) => ErrorView::Io(e@),
        }
    }
}

impl ErrorView {
    /// The text that describes the error to a user.
    pub open spec fn message(self) -> Seq<char> {
        match self {
            ErrorView::NotAlzFile => "not an ALZ file"@,
            ErrorView::CorruptedFile => "corrupted file"@,
            ErrorView::CantOpenFile(e) => "can't open archive file: "@ + e.message,
            ErrorView::CantOpenDestFile(e) => "can't open dest file: "@ + e.message,
            ErrorView::InvalidFilenameLength => "invalid filename length"@,
            ErrorView::InflateFailed(s) => "inflate failed: "@ + s,
            ErrorView::Bzip2Failed(s) => "bzip2 decompress failed: "@ + s,
            ErrorView::InvalidFileCrc { expected, got } => "invalid file CRC: expected "@
                + text::hex_padded(expected as nat, 8) + ", got "@ + text::hex_padded(got as nat, 8),
            ErrorView::InvalidSizeFieldWidth(v) => "invalid size field width: 0x"@ + text::hex_padded(
                v as nat,
                2,
            ),
            ErrorView::UnknownCompressionMethod(m) => "unknown compression method: "@ + text::decimal(
                m as nat,
            ),
            ErrorView::UncompressedSizeExceeded { limit } =>
            "decompressed output exceeds declared size ("@ + text::decimal(limit as nat) + " bytes)"@,
            ErrorView::TooManyEntries => "too many file entries for archive size"@,
            ErrorView::PasswordNotSet => "password was not set"@,
            ErrorView::InvalidPassword => "invalid password"@,
            ErrorView::PathTraversal(p) => "path traversal blocked: "@ + p,
            ErrorView::Io(e) => e.message,
        }
    }

    /// A premature end of data (missing volume or partial download), not a
    /// format error.
    pub open spec fn is_truncation(self) -> bool {
        self matches ErrorView::Io(e) && e.kind == IoKind::UnexpectedEof
    }

    /// The reader of the output has closed its end of the pipe.
    pub open spec fn is_broken_pipe(self) -> bool {
        ||| self matches ErrorView::Io(e) && e.kind == IoKind::BrokenPipe
        ||| self matches ErrorView::CantOpenDestFile(e) && e.kind == IoKind::BrokenPipe
    }
}

/// The error of a read that the data cannot fill.
pub open spec fn eof_error() -> ErrorView {
    ErrorView::Io(
        IoErrorView { kind: IoKind::UnexpectedEof, message: "failed to fill whole buffer"@ },
    )
}

/// The error of a seek whose target has no position.
pub open spec fn seek_range_error() -> IoErrorView {
    IoErrorView { kind: IoKind::InvalidInput, message: "seek position out of range"@ }
}

/// Make the error of a read that the data cannot fill.
pub fn unexpected_eof() -> (e: AlzError)
    ensures
        e@ == eof_error(),
{
    AlzError::Io(
        IoError {
            kind: IoKind::UnexpectedEof,
            message: String::from_str("failed to fill whole buffer"),
        },
    )
}

impl AlzError {
    /// The text that describes the error to a user.
    pub fn message(&self) -> (s: String)
        ensures
            s@ == self@.message(),
    {
        let mut s: String = String::new();
        match self {
            AlzError::NotAlzFile => s.append("not an ALZ file"),
            AlzError::CorruptedFile => s.append("corrupted file"),
            AlzError::CantOpenFile(e) => {
                s.append("can't open archive file: ");
                s.append(e.message.as_str());
            },
            AlzError::CantOpenDestFile(e) => {
                s.append("can't open dest file: ");
                s.append(e.message.as_str());
            },
            AlzError::InvalidFilenameLength => s.append("invalid filename length"),
            AlzError::InflateFailed(t) => {
                s.append("inflate failed: ");
                s.append(t.as_str());
            },
            AlzError::Bzip2Failed(t) => {
                s.append("bzip2 decompress failed: ");
                s.append(t.as_str());
            },
            AlzError::InvalidFileCrc { expected, got } => {
                s.append("invalid file CRC: expected ");
                text::push_number(&mut s, *expected as u64, 16, 8, '0');
                s.append(", got ");
                text::push_number(&mut s, *got as u64, 16, 8, '0');
            },
            AlzError::InvalidSizeFieldWidth(v) => {
                s.append("invalid size field width: 0x");
                text::push_number(&mut s, *v as u64, 16, 2, '0');
            },
            AlzError::UnknownCompressionMethod(m) => {
                s.append("unknown compression method: ");
                text::push_number(&mut s, *m as u64, 10, 0, '0');
            },
            AlzError::UncompressedSizeExceeded { limit } => {
                s.append("decompressed output exceeds declared size (");
                text::push_number(&mut s, *limit, 10, 0, '0');
                s.append(" bytes)");
            },
            AlzError::TooManyEntries => s.append("too many file entries for archive size"),
            AlzError::PasswordNotSet => s.append("password was not set"),
            AlzError::InvalidPassword => s.append("invalid password"),
            AlzError::PathTraversal(p) => {
                s.append("path traversal blocked: ");
                s.append(p.as_str());
            },
            AlzError::Io(e) => s.append(e.message.as_str()),
        }
        assert(s@ =~= self@.message());
        s
    }

    /// Whether this is a premature end of data (missing volume or partial
    /// download), not a format error; every entry before the cut is intact.
    pub fn is_truncation(&self) -> (b: bool)
        ensures
            b <==> self@.is_truncation(),
            b <==> (self matches AlzError::Io(e) && e.kind == IoKind::UnexpectedEof),
    {
        match self {
            AlzError::Io(e) => e.kind == IoKind::UnexpectedEof,
            _ => false,
        }
    }

    /// Whether the reader of the output has closed its end of the pipe.
    pub fn is_broken_pipe(&self) -> (b: bool)
        ensures
            b <==> self@.is_broken_pipe(),
            b <==> (self matches AlzError::Io(e) && e.kind == IoKind::BrokenPipe) || (
            self matches AlzError::CantOpenDestFile(e) && e.kind == IoKind::BrokenPipe),
    {
        match self {
            AlzError::Io(e) => e.kind == IoKind::BrokenPipe,
            AlzError::CantOpenDestFile(e) => e.kind == IoKind::BrokenPipe,
            _ => false,
        }
    }
}

impl From<IoError> for AlzError {
    fn from(e: IoError) -> (r: Self) {
        AlzError::Io(e)
    }
}

impl FromSpecImpl<IoError> for AlzError {
    open spec fn obeys_from_spec() -> bool {
        true
    }

    open spec fn from_spec(e: IoError) -> Self {
        AlzError::Io(e)
    }
}

pub type AlzResult<T> = Result<T, AlzError>;

/// The model of an error is of the same kind and says the same.
pub proof fn lemma_error_model_is_faithful(e: AlzError)
    ensures
        e is NotAlzFile <==> e@ is NotAlzFile,
        e is CorruptedFile <==> e@ is CorruptedFile,
        e is InvalidFilenameLength <==> e@ is InvalidFilenameLength,
        e is TooManyEntries <==> e@ is TooManyEntries,
        e is PasswordNotSet <==> e@ is PasswordNotSet,
        e is InvalidPassword <==> e@ is InvalidPassword,
        e@ matches ErrorView::InvalidSizeFieldWidth(v) ==> e == AlzError::InvalidSizeFieldWidth(v),
        e@ matches ErrorView::UnknownCompressionMethod(m) ==> e
            == AlzError::UnknownCompressionMethod(m),
        e@ matches ErrorView::UncompressedSizeExceeded { limit } ==> e == (
        AlzError::UncompressedSizeExceeded { limit }),
        e@ matches ErrorView::InvalidFileCrc { expected, got } ==> e == (AlzError::InvalidFileCrc {
            expected,
            got,
        }),
        e@ matches ErrorView::PathTraversal(p) ==> (e matches AlzError::PathTraversal(s) && s@ == p),
        e@ matches ErrorView::InflateFailed(p) ==> (e matches AlzError::InflateFailed(s) && s@ == p),
        e@ matches ErrorView::Bzip2Failed(p) ==> (e matches AlzError::Bzip2Failed(s) && s@ == p),
        e@ matches ErrorView::CantOpenFile(io) ==> (e matches AlzError::CantOpenFile(s) && s.kind
            == io.kind && s.message@ == io.message),
        e@ matches ErrorView::CantOpenDestFile(io) ==> (e matches AlzError::CantOpenDestFile(s)
            && s.kind == io.kind && s.message@ == io.message),
        e@ matches ErrorView::Io(io) ==> (e matches AlzError::Io(s) && s.kind == io.kind
            && s.message@ == io.message),
{
}

/// The text of an error ends with what caused it, behind what went wrong; an
/// I/O failure of no other kind says nothing more than its cause.
pub proof fn lemma_messages_end_with_the_cause(cause: Seq<char>, kind: IoKind)
    ensures
        ErrorView::Io(IoErrorView { kind, message: cause }).message() == cause,
        ErrorView::CantOpenFile(IoErrorView { kind, message: cause }).message()
            == "can't open archive file: "@ + cause,
        ErrorView::CantOpenDestFile(IoErrorView { kind, message: cause }).message()
            == "can't open dest file: "@ + cause,
        ErrorView::InflateFailed(cause).message() == "inflate failed: "@ + cause,
        ErrorView::Bzip2Failed(cause).message() == "bzip2 decompress failed: "@ + cause,
        ErrorView::PathTraversal(cause).message() == "path traversal blocked: "@ + cause,
{
}

/// The text of an error gives its numbers so that they can be read back:
/// checksums as eight hexadecimal digits, a width as two, a method and a size
/// in decimal.
pub proof fn lemma_messages_give_the_numbers(a: u32, b: u32, c: u8, n: u64)
    ensures
        exists|x: Seq<char>, y: Seq<char>|
            #![trigger text::digits_value(x, 16), text::digits_value(y, 16)]
            {
                &&& x.len() == 8 && y.len() == 8
                &&& text::digits_value(x, 16) == a && text::digits_value(y, 16) == b
                &&& (ErrorView::InvalidFileCrc { expected: a, got: b }).message()
                    == "invalid file CRC: expected "@ + x + ", got "@ + y
            },
        exists|x: Seq<char>|
            {
                &&& x.len() == 2
                &&& #[trigger] text::digits_value(x, 16) == c
                &&& ErrorView::InvalidSizeFieldWidth(c).message()
                    == "invalid size field width: 0x"@ + x
            },
        exists|x: Seq<char>|
            {
                &&& #[trigger] text::digits_value(x, 10) == c
                &&& ErrorView::UnknownCompressionMethod(c).message()
                    == "unknown compression method: "@ + x
            },
        exists|x: Seq<char>|
            {
                &&& #[trigger] text::digits_value(x, 10) == n
                &&& (ErrorView::UncompressedSizeExceeded { limit: n }).message()
                    == "decompressed output exceeds declared size ("@ + x + " bytes)"@
            },
{
    assert(vstd::arithmetic::power::pow(16, 8) == 0x1_0000_0000) by {
        reveal_with_fuel(vstd::arithmetic::power::pow, 9);
    }
    assert(vstd::arithmetic::power::pow(16, 2) == 0x100) by {
        reveal_with_fuel(vstd::arithmetic::power::pow, 3);
    }
    text::lemma_hex_field(a as nat, 8);
    text::lemma_hex_field(b as nat, 8);
    text::lemma_hex_field(c as nat, 2);
    text::lemma_digits_stand_for_the_number(c as nat, 10);
    text::lemma_digits_stand_for_the_number(n as nat, 10);
    let x = text::hex_padded(a as nat, 8);
    let y = text::hex_padded(b as nat, 8);
    assert(text::digits_value(x, 16) == a && text::digits_value(y, 16) == b);
    assert(text::digits_value(text::hex_padded(c as nat, 2), 16) == c);
    assert(text::digits_value(text::decimal(c as nat), 10) == c);
    assert(text::digits_value(text::decimal(n as nat), 10) == n);
}

} // verus!
