use chrono::{DateTime, Datelike, Local, Timelike};
use unalz::dostime::{dos_datetime_to_string, dos_datetime_to_systime};

#[test]
fn test_dos_datetime_to_string() {
    // 2019-04-12 04:16:18
    assert_eq!(dos_datetime_to_string(0x4E8C2209), "2019-04-12 04:16:18");
    // 1980-01-01 00:00:00 (minimum DOS date)
    assert_eq!(dos_datetime_to_string(0x00210000), "1980-01-01 00:00:00");
}

#[test]
fn test_dos_datetime_to_systime() {
    // 2019-04-12 04:16:18 local time, whatever the host timezone is.
    let t = std::time::UNIX_EPOCH
        + std::time::Duration::from_secs(dos_datetime_to_systime(0x4E8C2209).unwrap());
    let dt: DateTime<Local> = t.into();
    assert_eq!(
        (
            dt.year(),
            dt.month(),
            dt.day(),
            dt.hour(),
            dt.minute(),
            dt.second()
        ),
        (2019, 4, 12, 4, 16, 18)
    );
}

#[test]
fn test_invalid_date() {
    // Month 0 is invalid
    assert!(dos_datetime_to_systime(0).is_none());
}

#[test]
fn dates_outside_the_calendar_have_no_time() {
    // 2019-02-30
    assert!(dos_datetime_to_systime((39 << 25) | (2 << 21) | (30 << 16)).is_none());
    // 2020-02-29 is a leap day.
    assert!(dos_datetime_to_systime((40 << 25) | (2 << 21) | (29 << 16) | (12 << 11)).is_some());
    // Hour 31
    assert!(dos_datetime_to_systime((40 << 25) | (2 << 21) | (28 << 16) | (31 << 11)).is_none());
}

#[test]
fn every_text_is_aligned() {
    assert_eq!(dos_datetime_to_string(0), "1980-00-00 00:00:00");
    assert_eq!(dos_datetime_to_string(u32::MAX), "2107-15-31 31:63:62");
    assert_eq!(dos_datetime_to_string(u32::MAX).len(), 19);
}

#[test]
fn texts_are_in_the_order_of_the_stamps() {
    let stamps = [
        0,
        1,
        0x1f,
        0x20,
        0x7ff,
        0x800,
        0xffff,
        0x1_0000,
        0x1f_ffff,
        0x20_0000,
        0x00210000,
        0x1ff_ffff,
        0x200_0000,
        0x4E8C2209,
        0x4E8C220A,
        u32::MAX,
    ];
    for &a in &stamps {
        for &b in &stamps {
            assert_eq!(a < b, dos_datetime_to_string(a) < dos_datetime_to_string(b));
            assert_eq!(a == b, dos_datetime_to_string(a) == dos_datetime_to_string(b));
        }
    }
}
