use unalz::crypto::{ZipCrypto, CRC32_TABLE, ENCR_HEADER_LEN};

#[test]
fn test_initial_keys() {
    let c = ZipCrypto::new(b"");
    assert_eq!(c.key, [305419896, 591751049, 878082192]);
}

#[test]
fn test_key_update_deterministic() {
    let c1 = ZipCrypto::new(b"password");
    let c2 = ZipCrypto::new(b"password");
    assert_eq!(c1.key, c2.key);
}

#[test]
fn test_different_passwords_different_keys() {
    let c1 = ZipCrypto::new(b"abc");
    let c2 = ZipCrypto::new(b"xyz");
    assert_ne!(c1.key, c2.key);
}

fn encrypt(c: &mut ZipCrypto, data: &mut [u8]) {
    for b in data.iter_mut() {
        let plain = *b;
        *b = plain ^ c.decrypt_byte();
        c.update_keys(plain);
    }
}

#[test]
fn test_encrypt_decrypt_roundtrip() {
    let data = b"hello world";
    let mut encrypted = *data;

    let mut c = ZipCrypto::new(b"secret");
    for b in encrypted.iter_mut() {
        let plain = *b;
        *b = plain ^ c.decrypt_byte();
        c.update_keys(plain);
    }

    let mut c = ZipCrypto::new(b"secret");
    c.decrypt(&mut encrypted);
    assert_eq!(&encrypted, data);
}

#[test]
fn test_crc32_table_spot_check() {
    // CRC32 of 0x00 with polynomial 0xEDB88320
    assert_eq!(CRC32_TABLE[0], 0x00000000);
    assert_eq!(CRC32_TABLE[1], 0x77073096);
    assert_eq!(CRC32_TABLE[255], 0x2D02EF8D);
}

#[test]
fn crc32_byte_makes_the_common_checksum() {
    let mut crc = 0xffff_ffffu32;
    for &b in b"123456789" {
        crc = ZipCrypto::crc32_byte(crc, b);
    }
    assert_eq!(!crc, 0xCBF43926);
    assert_eq!(crc32fast::hash(b"123456789"), 0xCBF43926);
}

#[test]
fn deciphering_goes_on_across_pieces() {
    let mut data = *b"one long stretch of text";
    encrypt(&mut ZipCrypto::new(b"pw"), &mut data);
    let mut c = ZipCrypto::new(b"pw");
    let (first, second) = data.split_at_mut(7);
    c.decrypt(first);
    c.decrypt(second);
    assert_eq!(&data, b"one long stretch of text");
}

fn header(crc: u32, time: u32, descr: bool) -> [u8; ENCR_HEADER_LEN] {
    let mut plain = [7u8; ENCR_HEADER_LEN];
    plain[ENCR_HEADER_LEN - 1] = if descr { (time >> 8) as u8 } else { (crc >> 24) as u8 };
    encrypt(&mut ZipCrypto::new(b"test1234"), &mut plain);
    plain
}

#[test]
fn right_password_is_accepted() {
    let h = header(0x12345678, 0x4E8C2209, false);
    assert!(ZipCrypto::new(b"test1234").check_header(&h, 0x12345678, 0x4E8C2209, false));
    assert!(!ZipCrypto::new(b"wrong").check_header(&h, 0x12345678, 0x4E8C2209, false));
    // The check byte comes from the time where there is a data descriptor.
    let h = header(0x12345678, 0x4E8C2209, true);
    assert!(ZipCrypto::new(b"test1234").check_header(&h, 0x12345678, 0x4E8C2209, true));
    assert!(!ZipCrypto::new(b"test1234").check_header(&h, 0x12345678, 0x4E8C2209, false));
}

#[test]
fn check_header_leaves_the_keys_behind_the_header() {
    let h = header(0x12345678, 0, false);
    let mut checked = ZipCrypto::new(b"test1234");
    checked.check_header(&h, 0x12345678, 0, false);
    let mut run = ZipCrypto::new(b"test1234");
    let mut copy = h;
    run.decrypt(&mut copy);
    assert_eq!(checked.key, run.key);
}

#[test]
fn enciphering_undoes_deciphering() {
    let cipher = *b"\x01\x80any bytes at all\xff";
    let mut data = cipher;
    ZipCrypto::new(b"pw").decrypt(&mut data);
    assert_ne!(data, cipher);
    encrypt(&mut ZipCrypto::new(b"pw"), &mut data);
    assert_eq!(data, cipher);
}
