use unalz::error::{AlzError, IoKind};
use unalz::multivolume::{volume_path, MultiVolumeReader, SeekFrom};

/// Cut `data` into volumes: every volume but the first has a header of eight
/// bytes, every volume but the last a trailer of sixteen.
fn split(data: &[u8], cuts: &[usize]) -> Vec<Vec<u8>> {
    let mut volumes = Vec::new();
    let mut from = 0;
    for i in 0..=cuts.len() {
        let to = if i < cuts.len() { cuts[i] } else { data.len() };
        let mut v = Vec::new();
        if i > 0 {
            v.extend_from_slice(&[0xEE; 8]);
        }
        v.extend_from_slice(&data[from..to]);
        if i < cuts.len() {
            v.extend_from_slice(&[0xDD; 16]);
        }
        volumes.push(v);
        from = to;
    }
    volumes
}

fn sample(n: usize) -> Vec<u8> {
    (0..n).map(|i| (i * 7 % 251) as u8).collect()
}

/// A non-last volume smaller than its framing (header + 16-byte trailer)
/// must error, not panic/underflow.
#[test]
fn truncated_volume_errors_instead_of_panicking() {
    let result = MultiVolumeReader::open("x.alz", vec![b"ALZ\x01".to_vec(), vec![0u8; 4]]);
    assert!(matches!(result, Err(AlzError::CorruptedFile)));
}

/// Opening an archive whose name's last 3 bytes split a multi-byte UTF-8
/// character must not panic on the volume-prefix slice.
#[test]
fn non_char_boundary_name_does_not_panic() {
    // "рх" is 4 bytes (D1 80 D1 85); len-3 = 1 lands inside 'р'.
    let path = "\u{0440}\u{0445}";
    assert_eq!(volume_path(path, 0), Some(path.to_string()));
    assert_eq!(volume_path(path, 1), None);
    assert!(MultiVolumeReader::open(path, vec![vec![0u8; 32]]).is_ok());
}

#[test]
fn volume_names_follow_the_archive() {
    assert_eq!(volume_path("dir/x.alz", 0).unwrap(), "dir/x.alz");
    assert_eq!(volume_path("dir/x.alz", 1).unwrap(), "dir/x.a00");
    assert_eq!(volume_path("dir/x.alz", 100).unwrap(), "dir/x.a99");
    assert_eq!(volume_path("dir/x.alz", 101).unwrap(), "dir/x.b00");
    assert_eq!(volume_path("dir/x.alz", 999).unwrap(), "dir/x.j98");
    assert_eq!(volume_path("dir/x.alz", 1000), None);
    assert_eq!(volume_path("alz", 1), None);
    assert_eq!(volume_path("한글.alz", 2).unwrap(), "한글.a01");
}

#[test]
fn no_volume_is_an_error() {
    match MultiVolumeReader::open("gone.alz", vec![]) {
        Err(AlzError::CantOpenFile(e)) => {
            assert_eq!(e.kind, IoKind::NotFound);
            assert_eq!(e.message, "can't open: gone.alz");
        }
        _ => panic!("expected an error"),
    }
}

#[test]
fn a_split_reads_as_the_whole() {
    let data = sample(300);
    for cuts in [vec![], vec![100], vec![0], vec![300], vec![1, 2, 250], vec![50, 50, 200]] {
        let mut reader = MultiVolumeReader::open("x.alz", split(&data, &cuts)).unwrap();
        assert_eq!(reader.total_size(), 300);
        assert_eq!(reader.read_up_to(1000), data);
        assert_eq!(reader.stream_position(), 300);
    }
}

#[test]
fn reads_stop_at_the_end() {
    let data = sample(40);
    let mut reader = MultiVolumeReader::open("x.alz", split(&data, &[13])).unwrap();
    let mut buf = [0u8; 30];
    assert_eq!(reader.read(&mut buf).unwrap(), 30);
    assert_eq!(&buf[..], &data[..30]);
    assert_eq!(reader.read(&mut buf).unwrap(), 10);
    assert_eq!(&buf[..10], &data[30..]);
    // What was in the buffer before stays behind what was read.
    assert_eq!(&buf[10..], &data[10..30]);
    assert_eq!(reader.read(&mut buf).unwrap(), 0);
}

#[test]
fn reading_exactly_fails_at_the_end() {
    let mut reader = MultiVolumeReader::from_bytes(sample(10));
    assert_eq!(reader.read_exact(4).unwrap(), sample(10)[..4].to_vec());
    let e = reader.read_exact(7).unwrap_err();
    assert!(e.is_truncation());
    assert_eq!(e.message(), "failed to fill whole buffer");
    assert_eq!(reader.stream_position(), 10);
}

#[test]
fn seeks_go_where_they_should() {
    let data = sample(100);
    let mut reader = MultiVolumeReader::open("x.alz", split(&data, &[30, 60])).unwrap();
    assert_eq!(reader.seek(SeekFrom::Start(45)).unwrap(), 45);
    assert_eq!(reader.read_up_to(20), data[45..65].to_vec());
    assert_eq!(reader.seek(SeekFrom::Current(-35)).unwrap(), 30);
    assert_eq!(reader.read_up_to(1), data[30..31].to_vec());
    assert_eq!(reader.seek(SeekFrom::End(-1)).unwrap(), 99);
    assert_eq!(reader.read_up_to(5), data[99..].to_vec());
    // Past the end there is nothing to read, but a position.
    assert_eq!(reader.seek(SeekFrom::End(20)).unwrap(), 120);
    assert_eq!(reader.read_up_to(5), Vec::<u8>::new());
    assert_eq!(reader.seek(SeekFrom::Current(-21)).unwrap(), 99);
    let e = reader.seek(SeekFrom::Current(-100)).unwrap_err();
    assert_eq!(e.kind, IoKind::InvalidInput);
    assert_eq!(e.message, "seek position out of range");
    assert_eq!(reader.stream_position(), 99);
    reader.seek(SeekFrom::Start(u64::MAX)).unwrap();
    assert!(reader.seek(SeekFrom::Current(1)).is_err());
}

#[test]
fn the_tail_is_that_of_the_first_volume() {
    let data = sample(100);
    let reader = MultiVolumeReader::open("x.alz", split(&data, &[30])).unwrap();
    assert_eq!(reader.tail(), &[0xDD; 16]);
    let reader = MultiVolumeReader::from_bytes(data.clone());
    assert_eq!(&reader.tail()[..], &data[84..]);
    assert_eq!(MultiVolumeReader::from_bytes(sample(15)).tail(), &[0; 16]);
}

#[test]
fn reading_in_pieces_is_reading_at_once() {
    let data = sample(90);
    let mut reader = MultiVolumeReader::open("x.alz", split(&data, &[20, 45])).unwrap();
    let mut out = Vec::new();
    for n in [1, 19, 25, 30, 30] {
        out.extend(reader.read_up_to(n));
    }
    assert_eq!(out, data);
}

#[test]
fn volume_names_differ() {
    let mut names: Vec<String> = (0..1000).map(|i| volume_path("x.alz", i).unwrap()).collect();
    names.sort();
    names.dedup();
    assert_eq!(names.len(), 1000);
}
