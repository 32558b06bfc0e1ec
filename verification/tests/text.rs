use unalz::text::{chars_of, push_number, spells, text_of};

#[test]
fn numbers_are_padded() {
    let mut s = String::from("x");
    push_number(&mut s, 255, 16, 4, '0');
    assert_eq!(s, "x00ff");
    push_number(&mut s, 0, 10, 0, ' ');
    assert_eq!(s, "x00ff0");
    let mut s = String::new();
    push_number(&mut s, 123456, 10, 3, ' ');
    assert_eq!(s, "123456");
    let mut s = String::new();
    push_number(&mut s, u64::MAX, 10, 21, ' ');
    assert_eq!(s, " 18446744073709551615");
}

#[test]
fn characters_come_and_go() {
    let v = chars_of("a한b");
    assert_eq!(v, vec!['a', '한', 'b']);
    assert_eq!(text_of(&v, 1, 3), "한b");
    assert!(spells(&v, 0, 2, "a한"));
    assert!(!spells(&v, 0, 2, "ab"));
    assert!(!spells(&v, 0, 2, "a"));
}
