use unalz::error::{AlzError, IoError, IoKind};

fn io(kind: IoKind) -> IoError {
    IoError { kind, message: "some text".to_string() }
}

#[test]
fn every_error_has_its_text() {
    let cases: Vec<(AlzError, &str)> = vec![
        (AlzError::NotAlzFile, "not an ALZ file"),
        (AlzError::CorruptedFile, "corrupted file"),
        (AlzError::CantOpenFile(io(IoKind::NotFound)), "can't open archive file: some text"),
        (AlzError::CantOpenDestFile(io(IoKind::Other)), "can't open dest file: some text"),
        (AlzError::InvalidFilenameLength, "invalid filename length"),
        (AlzError::InflateFailed("x".to_string()), "inflate failed: x"),
        (AlzError::Bzip2Failed("y".to_string()), "bzip2 decompress failed: y"),
        (
            AlzError::InvalidFileCrc { expected: 0xCBF43926, got: 0xff },
            "invalid file CRC: expected cbf43926, got 000000ff",
        ),
        (AlzError::InvalidSizeFieldWidth(0x30), "invalid size field width: 0x30"),
        (AlzError::UnknownCompressionMethod(17), "unknown compression method: 17"),
        (
            AlzError::UncompressedSizeExceeded { limit: 1000 },
            "decompressed output exceeds declared size (1000 bytes)",
        ),
        (AlzError::TooManyEntries, "too many file entries for archive size"),
        (AlzError::PasswordNotSet, "password was not set"),
        (AlzError::InvalidPassword, "invalid password"),
        (AlzError::PathTraversal("../a".to_string()), "path traversal blocked: ../a"),
        (AlzError::Io(io(IoKind::Other)), "some text"),
    ];
    for (e, text) in cases {
        assert_eq!(e.message(), text);
    }
}

#[test]
fn only_a_premature_end_is_truncation() {
    assert!(AlzError::Io(io(IoKind::UnexpectedEof)).is_truncation());
    assert!(!AlzError::Io(io(IoKind::Other)).is_truncation());
    assert!(!AlzError::CantOpenFile(io(IoKind::UnexpectedEof)).is_truncation());
    assert!(!AlzError::CorruptedFile.is_truncation());
}

#[test]
fn broken_pipes_are_recognised() {
    assert!(AlzError::Io(io(IoKind::BrokenPipe)).is_broken_pipe());
    assert!(AlzError::CantOpenDestFile(io(IoKind::BrokenPipe)).is_broken_pipe());
    assert!(!AlzError::Io(io(IoKind::UnexpectedEof)).is_broken_pipe());
}

#[test]
fn an_io_failure_becomes_an_error() {
    let e: AlzError = io(IoKind::InvalidInput).into();
    assert!(matches!(e, AlzError::Io(IoError { kind: IoKind::InvalidInput, .. })));
}
