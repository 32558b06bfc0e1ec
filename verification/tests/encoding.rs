use unalz::encoding::{cp949_to_utf8, password_to_cp949};

#[test]
fn test_utf8_passthrough() {
    assert_eq!(cp949_to_utf8(b"hello.txt"), "hello.txt");
    assert_eq!(cp949_to_utf8("테스트.txt".as_bytes()), "테스트.txt");
}

#[test]
fn test_cp949_decode() {
    // "한글" in CP949: 0xC7, 0xD1, 0xB1, 0xDB
    let cp949 = b"\xc7\xd1\xb1\xdb";
    assert_eq!(cp949_to_utf8(cp949), "한글");
}

#[test]
fn test_empty() {
    assert_eq!(cp949_to_utf8(b""), "");
}

#[test]
fn test_password_to_cp949() {
    // ASCII passwords are unchanged (CP949 is an ASCII superset).
    assert_eq!(password_to_cp949("test1234"), b"test1234");
    // "한글" round-trips to its CP949 bytes.
    assert_eq!(password_to_cp949("한글"), b"\xc7\xd1\xb1\xdb");
}
