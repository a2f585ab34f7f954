use rtar::{
    parse_octal, render_octal, ArchiveError, CString, EntryKind, FileMeta, FileType, UstarHeader,
    HEADER,
};

fn meta(kind: EntryKind, size: u64) -> FileMeta {
    FileMeta { mode: 0o100644, uid: 1000, gid: 100, mtime: 1_600_000_000, size, kind }
}

fn byte_sum_with_spaces(rec: &[u8; 512]) -> u32 {
    let mut sum: u32 = 0;
    for (i, b) in rec.iter().enumerate() {
        if (148..156).contains(&i) {
            sum += 0x20;
        } else {
            sum += *b as u32;
        }
    }
    sum
}

#[test]
fn blank_header_layout() {
    let h = UstarHeader::new();
    let rec = h.serialize_to_array();
    assert_eq!(rec.len(), HEADER);
    assert_eq!(&rec[148..156], b"        ");
    assert_eq!(&rec[257..265], b"ustar  \0");
    assert!(rec[0..148].iter().all(|b| *b == 0));
    assert!(rec[265..512].iter().all(|b| *b == 0));
    assert_eq!(h.compute_checksum(), byte_sum_with_spaces(&rec));
    assert_eq!(h.file_name(), "");
    assert_eq!(h.file_size(), Err(ArchiveError::MalformedOctal));
}

#[test]
fn encode_fields_of_a_file() {
    let h = UstarHeader::from_metadata("a.txt", &meta(EntryKind::File, 10));
    let rec = h.serialize_to_array();
    assert_eq!(&rec[0..6], b"a.txt\0");
    assert_eq!(&rec[100..108], b"0100644\0");
    assert_eq!(&rec[108..116], b"0001750\0");
    assert_eq!(&rec[116..124], b"0000144\0");
    assert_eq!(&rec[124..136], b"00000000012\0");
    assert_eq!(&rec[136..148], b"13727410000\0");
    assert_eq!(rec[156], b'0');
    assert_eq!(&rec[257..265], b"ustar  \0");
    assert_eq!(rec[154], 0);
    assert_eq!(rec[155], b' ');
    let expected = format!("{:06o}", byte_sum_with_spaces(&rec));
    assert_eq!(&rec[148..154], expected.as_bytes());
    assert_eq!(h.file_name(), "a.txt");
    assert_eq!(h.file_size(), Ok(10));
    assert_eq!(h.to_numeric_mode(), Ok(0o100644));
    assert_eq!(h.file_type(), FileType::Normal);
    assert_eq!(h.checksum(), Ok(h.compute_checksum()));
}

#[test]
fn round_trip_through_bytes() {
    for (name, kind, size) in [
        ("dir/file.bin", EntryKind::File, 123_456u64),
        ("dir", EntryKind::Directory, 4096),
        ("fifo", EntryKind::Other, 0),
    ] {
        let m = meta(kind, size);
        let h = UstarHeader::from_metadata(name, &m);
        let rec = h.serialize_to_array();
        let back = UstarHeader::from_bytes(&rec);
        assert_eq!(back.serialize_to_array(), rec);
        assert_eq!(back.file_name(), name);
        assert_eq!(back.checksum(), Ok(back.compute_checksum()));
        assert_eq!(back.checksum(), h.checksum());
        assert_eq!(back.to_numeric_mode(), Ok(m.mode));
        match kind {
            EntryKind::File => {
                assert_eq!(back.file_type(), FileType::Normal);
                assert_eq!(back.file_size(), Ok(size));
            }
            EntryKind::Directory => {
                assert_eq!(back.file_type(), FileType::Directory);
                assert_eq!(back.file_size(), Ok(0));
            }
            EntryKind::Other => {
                assert_eq!(back.file_type(), FileType::Unsupported(b'a'));
                assert_eq!(back.file_size(), Ok(size));
            }
        }
    }
}

#[test]
fn checksum_ignores_checksum_field() {
    let h = UstarHeader::from_metadata("x", &meta(EntryKind::File, 1));
    let mut rec = h.serialize_to_array();
    let before = UstarHeader::from_bytes(&rec).compute_checksum();
    for b in rec[148..156].iter_mut() {
        *b = b'7';
    }
    assert_eq!(UstarHeader::from_bytes(&rec).compute_checksum(), before);
    assert_eq!(before, byte_sum_with_spaces(&rec));
}

#[test]
fn name_split_200_characters() {
    let path: String = (0..200).map(|i| (b'a' + (i % 26) as u8) as char).collect();
    let h = UstarHeader::from_metadata(&path, &meta(EntryKind::File, 0));
    let rec = h.serialize_to_array();
    assert_eq!(&rec[345..499], &path.as_bytes()[..154]);
    assert_eq!(rec[499], 0);
    assert_eq!(&rec[0..46], &path.as_bytes()[154..]);
    assert!(rec[46..100].iter().all(|b| *b == 0));
    assert_eq!(h.file_name(), path);
}

#[test]
fn name_split_boundaries() {
    for len in [99usize, 100, 154, 155, 253] {
        let path: String = "p".repeat(len);
        let h = UstarHeader::from_metadata(&path, &meta(EntryKind::File, 0));
        assert_eq!(h.file_name(), path, "length {}", len);
    }
    let h = UstarHeader::from_metadata("q".repeat(120).as_str(), &meta(EntryKind::File, 0));
    assert_eq!(h.file_name[0], 0);
    assert_eq!(h.file_prefix[119], b'q');
}

#[test]
fn long_name_truncated_deterministically() {
    let path: String = (0..300).map(|i| (b'A' + (i % 26) as u8) as char).collect();
    let a = UstarHeader::from_metadata(&path, &meta(EntryKind::File, 0));
    let b = UstarHeader::from_metadata(&path, &meta(EntryKind::File, 0));
    assert_eq!(a.file_name(), &path[..253]);
    assert_eq!(a.serialize_to_array(), b.serialize_to_array());
}

#[test]
fn directory_size_is_zero() {
    let h = UstarHeader::from_metadata("d", &meta(EntryKind::Directory, 4096));
    let rec = h.serialize_to_array();
    assert_eq!(&rec[124..136], b"00000000000\0");
    assert_eq!(rec[156], b'5');
    assert_eq!(h.file_size(), Ok(0));
}

#[test]
fn type_flags() {
    let mut h = UstarHeader::new();
    for (flag, t) in [
        (b'0', FileType::Normal),
        (b'1', FileType::HardLink),
        (b'2', FileType::SymLink),
        (b'5', FileType::Directory),
        (b'3', FileType::Unsupported(b'3')),
        (0u8, FileType::Unsupported(0)),
    ] {
        h.file_type = [flag];
        assert_eq!(h.file_type(), t);
    }
}

#[test]
fn octal_parsing() {
    assert_eq!(parse_octal(b"0000644\0"), Some(0o644));
    assert_eq!(parse_octal(b"17"), Some(15));
    assert_eq!(parse_octal(b"012345\0 "), Some(0o12345));
    assert_eq!(parse_octal(b"\0\0\0"), None);
    assert_eq!(parse_octal(b""), None);
    assert_eq!(parse_octal(b"0000648\0"), None);
    assert_eq!(parse_octal(b"12 \0"), None);
    assert_eq!(parse_octal(b"77777777777\0"), Some(0o77777777777));
}

#[test]
fn octal_rendering() {
    assert_eq!(render_octal(0o644, 7), b"0000644".to_vec());
    assert_eq!(render_octal(10, 11), b"00000000012".to_vec());
    assert_eq!(render_octal(0, 3), b"000".to_vec());
    assert_eq!(render_octal(0o1234, 2), b"34".to_vec());
    assert_eq!(render_octal(5, 0), Vec::<u8>::new());
}

#[test]
fn malformed_fields_are_reported() {
    let mut h = UstarHeader::from_metadata("f", &meta(EntryKind::File, 8));
    h.file_size[3] = b'9';
    assert_eq!(h.file_size(), Err(ArchiveError::MalformedOctal));
    h.file_mode = [0; 8];
    assert_eq!(h.to_numeric_mode(), Err(ArchiveError::MalformedOctal));
    h.checksum = *b"zzzzzz\0 ";
    assert_eq!(h.checksum(), Err(ArchiveError::MalformedOctal));
}

#[test]
fn cstring_stops_at_nul() {
    assert_eq!(CString::new().as_str(), "");
    let c = CString::from_bytes(b"abc\0def");
    assert_eq!(c.as_str(), "abc");
    assert_eq!(c.to_string(), "abc");
    assert_eq!(CString::from_bytes(b"xyz").as_str(), "xyz");
    assert_eq!(CString::from_bytes(&[0u8; 4]).as_str(), "");
}

#[test]
fn serialize_zero_fills_padding() {
    let mut h = UstarHeader::from_metadata("p", &meta(EntryKind::File, 1));
    let clean = h.compute_checksum();
    h.padding = [1u8; 12];
    let rec = h.serialize_to_array();
    assert!(rec[500..512].iter().all(|b| *b == 0));
    assert_eq!(h.compute_checksum(), clean + 12);
    let mut raw = rec;
    raw[505] = 9;
    let back = UstarHeader::from_bytes(&raw);
    assert_eq!(back.padding[5], 9);
    assert!(back.serialize_to_array()[500..512].iter().all(|b| *b == 0));
}

#[test]
fn directory_size_never_written() {
    let a = UstarHeader::from_metadata("d", &meta(EntryKind::Directory, 4096));
    let b = UstarHeader::from_metadata("d", &meta(EntryKind::Directory, u64::MAX));
    assert_eq!(a.serialize_to_array(), b.serialize_to_array());
    assert_eq!(b.file_size(), Ok(0));
}

#[test]
fn owner_and_time_accessors() {
    let h = UstarHeader::from_metadata("f", &meta(EntryKind::File, 1));
    assert_eq!(h.uid(), Ok(1000));
    assert_eq!(h.gid(), Ok(100));
    assert_eq!(h.modified_time(), Ok(1_600_000_000));
    let mut bad = UstarHeader::from_bytes(&h.serialize_to_array());
    bad.modified[0] = b'9';
    assert_eq!(bad.modified_time(), Err(ArchiveError::MalformedOctal));
    bad.uid[0] = 0;
    assert_eq!(bad.uid(), Err(ArchiveError::MalformedOctal));
    bad.gid[2] = b'-';
    assert_eq!(bad.gid(), Err(ArchiveError::MalformedOctal));
}
