use rtar::{
    content_of, next_entry, pad_content, scan_archive, step_for, write_step, Action,
    ArchiveError, EntryKind, FileMeta, FileType, PathQueue, Step, UstarHeader, WriteStep, HEADER,
};

struct Source {
    path: &'static str,
    mode: u32,
    kind: EntryKind,
    data: Vec<u8>,
}

fn write_archive(sources: &[Source]) -> Vec<u8> {
    let mut out = Vec::new();
    for s in sources {
        let size = match s.kind {
            EntryKind::Directory => 4096,
            _ => s.data.len() as u64,
        };
        let m = FileMeta { mode: s.mode, uid: 0, gid: 0, mtime: 0, size, kind: s.kind };
        let h = UstarHeader::from_metadata(s.path, &m);
        out.extend_from_slice(&h.serialize_to_array());
        if let EntryKind::File = s.kind {
            out.extend_from_slice(&pad_content(&s.data));
        }
    }
    out.extend_from_slice(&[0u8; 1024]);
    out
}

/// What unpacking would do: (path, type, mode, content).
type Restored = Vec<(String, FileType, u32, Vec<u8>)>;

fn read_archive(archive: &[u8]) -> (Restored, Option<ArchiveError>) {
    let (offsets, stop) = scan_archive(archive);
    let mut done = Vec::new();
    for at in offsets {
        let h = UstarHeader::from_bytes(&archive[at..at + HEADER]);
        let e = next_entry(&h).unwrap().unwrap();
        let data = match step_for(Action::Extract, &e) {
            Step::WriteFile(span) => {
                content_of(&e, &archive[at + HEADER..at + HEADER + span as usize])
            }
            _ => Vec::new(),
        };
        done.push((e.name, e.file_type, e.mode, data));
    }
    (done, stop)
}

#[test]
fn single_file_round_trip() {
    let data = b"0123456789".to_vec();
    let archive = write_archive(&[Source {
        path: "a.txt",
        mode: 0o100640,
        kind: EntryKind::File,
        data: data.clone(),
    }]);
    assert_eq!(archive.len(), 512 + 512 + 1024);
    let (done, err) = read_archive(&archive);
    assert_eq!(err, None);
    assert_eq!(done, vec![("a.txt".to_string(), FileType::Normal, 0o100640, data)]);
}

#[test]
fn directory_with_two_files() {
    let archive = write_archive(&[
        Source { path: "d", mode: 0o40755, kind: EntryKind::Directory, data: Vec::new() },
        Source { path: "d/one", mode: 0o100644, kind: EntryKind::File, data: vec![1; 700] },
        Source { path: "d/two", mode: 0o100600, kind: EntryKind::File, data: vec![2; 3] },
    ]);
    let (done, err) = read_archive(&archive);
    assert_eq!(err, None);
    assert_eq!(done.len(), 3);
    assert_eq!(done[0], ("d".to_string(), FileType::Directory, 0o40755, Vec::new()));
    assert_eq!(done[1], ("d/one".to_string(), FileType::Normal, 0o100644, vec![1; 700]));
    assert_eq!(done[2], ("d/two".to_string(), FileType::Normal, 0o100600, vec![2; 3]));
}

#[test]
fn content_corruption_not_detected() {
    let mut archive = write_archive(&[Source {
        path: "a.txt",
        mode: 0o644,
        kind: EntryKind::File,
        data: b"hello".to_vec(),
    }]);
    archive[512 + 1] = b'X';
    let (done, err) = read_archive(&archive);
    assert_eq!(err, None);
    assert_eq!(done[0].3, b"hXllo".to_vec());
}

#[test]
fn header_corruption_aborts() {
    let sources = [
        Source { path: "first", mode: 0o644, kind: EntryKind::File, data: vec![7; 5] },
        Source { path: "second", mode: 0o644, kind: EntryKind::File, data: vec![8; 5] },
        Source { path: "third", mode: 0o644, kind: EntryKind::File, data: vec![9; 5] },
    ];
    let mut archive = write_archive(&sources);
    // The second header starts after the first header and its one block.
    archive[1024 + 2] ^= 0x01;
    let (done, err) = read_archive(&archive);
    assert_eq!(err, Some(ArchiveError::ChecksumMismatch));
    assert_eq!(done.len(), 1);
    assert_eq!(done[0].0, "first");
}

#[test]
fn unsupported_type_aborts() {
    let mut archive = write_archive(&[
        Source { path: "ok", mode: 0o644, kind: EntryKind::File, data: vec![1] },
        Source { path: "link", mode: 0o777, kind: EntryKind::File, data: Vec::new() },
        Source { path: "after", mode: 0o644, kind: EntryKind::File, data: vec![2] },
    ]);
    // Turn the second entry into a symbolic link, with a matching checksum.
    let mut h = UstarHeader::from_bytes(&archive[1024..1536]);
    h.file_type = [b'2'];
    h.checksum = [b' '; 8];
    let c = format!("{:06o}\0 ", h.compute_checksum());
    h.checksum.copy_from_slice(c.as_bytes());
    archive[1024..1536].copy_from_slice(&h.serialize_to_array());
    let (done, err) = read_archive(&archive);
    assert_eq!(err, Some(ArchiveError::UnsupportedEntryType(b'2')));
    assert_eq!(done.len(), 1);
}

#[test]
fn foreign_typeflag_is_unsupported() {
    let archive = write_archive(&[Source {
        path: "dev",
        mode: 0o644,
        kind: EntryKind::Other,
        data: Vec::new(),
    }]);
    let (_, err) = read_archive(&archive);
    assert_eq!(err, Some(ArchiveError::UnsupportedEntryType(b'a')));
}

#[test]
fn malformed_checksum_field() {
    let mut archive = write_archive(&[Source {
        path: "f",
        mode: 0o644,
        kind: EntryKind::File,
        data: vec![1],
    }]);
    archive[148] = b'9';
    let (_, err) = read_archive(&archive);
    assert_eq!(err, Some(ArchiveError::MalformedOctal));
}

#[test]
fn empty_archive_ends_at_once() {
    let (done, err) = read_archive(&[0u8; 1024]);
    assert!(done.is_empty());
    assert_eq!(err, None);
}

#[test]
fn prefix_only_name_is_not_the_end() {
    let long = "n".repeat(120);
    let m = FileMeta { mode: 0o644, uid: 0, gid: 0, mtime: 0, size: 0, kind: EntryKind::Directory };
    let h = UstarHeader::from_metadata(&long, &m);
    assert_eq!(h.file_name[0], 0);
    let e = next_entry(&h).unwrap().unwrap();
    assert_eq!(e.name, long);
    assert_eq!(e.blocks, 0);
}

#[test]
fn chunking_of_exact_multiples() {
    for k in 0..4usize {
        let data = vec![0xAB; 512 * k];
        let blocks = pad_content(&data);
        assert_eq!(blocks.len(), 512 * (k + 1));
        assert_eq!(&blocks[..512 * k], &data[..]);
        assert!(blocks[512 * k..].iter().all(|b| *b == 0));
    }
    let blocks = pad_content(&[5u8; 513]);
    assert_eq!(blocks.len(), 1024);
    assert_eq!(blocks[512], 5);
    assert_eq!(blocks[513], 0);
}

#[test]
fn entry_block_counts() {
    let m = FileMeta { mode: 0o644, uid: 0, gid: 0, mtime: 0, size: 1024, kind: EntryKind::File };
    let e = next_entry(&UstarHeader::from_metadata("f", &m)).unwrap().unwrap();
    assert_eq!(e.blocks, 3);
    let m = FileMeta { size: 10, ..m };
    let e = next_entry(&UstarHeader::from_metadata("f", &m)).unwrap().unwrap();
    assert_eq!(e.blocks, 1);
    assert_eq!(content_of(&e, &[3u8; 512]), vec![3u8; 10]);
}

#[test]
fn path_queue_order() {
    let mut q = PathQueue::new(vec!["a".to_string(), "b".to_string()]);
    assert!(!q.is_empty());
    assert_eq!(q.next(), Some("a".to_string()));
    q.push_children(vec!["a/1".to_string(), "a/2".to_string()]);
    assert_eq!(q.next(), Some("a/1".to_string()));
    assert_eq!(q.next(), Some("a/2".to_string()));
    assert_eq!(q.next(), Some("b".to_string()));
    assert_eq!(q.next(), None);
    assert!(q.is_empty());
}

#[test]
fn actions_are_distinct() {
    assert_ne!(Action::Extract, Action::Display);
    assert_ne!(Action::Archive, Action::Nop);
}

#[test]
fn steps_by_action_and_kind() {
    let m = FileMeta { mode: 0o644, uid: 0, gid: 0, mtime: 0, size: 600, kind: EntryKind::File };
    let file = next_entry(&UstarHeader::from_metadata("f", &m)).unwrap().unwrap();
    let d = FileMeta { kind: EntryKind::Directory, ..m };
    let dir = next_entry(&UstarHeader::from_metadata("d", &d)).unwrap().unwrap();
    assert_eq!(step_for(Action::Extract, &file), Step::WriteFile(1024));
    assert_eq!(step_for(Action::Display, &file), Step::Skip(1024));
    assert_eq!(step_for(Action::Extract, &dir), Step::MakeDir);
    assert_eq!(step_for(Action::Display, &dir), Step::Skip(0));
}

#[test]
fn truncated_archive_is_reported() {
    let archive = write_archive(&[Source {
        path: "big",
        mode: 0o644,
        kind: EntryKind::File,
        data: vec![1; 600],
    }]);
    let (done, err) = read_archive(&archive[..512 + 700]);
    assert!(done.is_empty());
    assert_eq!(err, Some(ArchiveError::Truncated));
    let (done, err) = read_archive(&archive[..512 + 1024 + 100]);
    assert_eq!(done.len(), 1);
    assert_eq!(err, Some(ArchiveError::Truncated));
}

#[test]
fn scan_offsets() {
    let archive = write_archive(&[
        Source { path: "d", mode: 0o755, kind: EntryKind::Directory, data: Vec::new() },
        Source { path: "d/f", mode: 0o644, kind: EntryKind::File, data: vec![1; 513] },
        Source { path: "g", mode: 0o644, kind: EntryKind::File, data: Vec::new() },
    ]);
    let (offsets, stop) = scan_archive(&archive);
    assert_eq!(offsets, vec![0, 512, 512 + 512 + 1024]);
    assert_eq!(stop, None);
}

#[test]
fn write_steps() {
    let m = FileMeta { mode: 0o644, uid: 0, gid: 0, mtime: 0, size: 77, kind: EntryKind::File };
    assert_eq!(write_step(&UstarHeader::from_metadata("f", &m)), Ok(WriteStep::CopyContent(77)));
    let d = FileMeta { kind: EntryKind::Directory, ..m };
    assert_eq!(write_step(&UstarHeader::from_metadata("d", &d)), Ok(WriteStep::ListChildren));
    let o = FileMeta { kind: EntryKind::Other, size: 3, ..m };
    assert_eq!(write_step(&UstarHeader::from_metadata("o", &o)), Ok(WriteStep::CopyContent(3)));
    let mut h = UstarHeader::from_metadata("f", &m);
    h.file_size = [b'x'; 12];
    assert_eq!(write_step(&h), Err(ArchiveError::MalformedOctal));
}

#[test]
fn non_octal_owner_or_time_is_refused() {
    let m = FileMeta { mode: 0o644, uid: 5, gid: 6, mtime: 7, size: 0, kind: EntryKind::File };
    for (lo, hi) in [(108usize, 116usize), (116, 124), (136, 148)] {
        let mut rec = UstarHeader::from_metadata("f", &m).serialize_to_array();
        rec[lo] = b'+';
        let mut h = UstarHeader::from_bytes(&rec);
        h.checksum = [b' '; 8];
        let c = format!("{:06o}\0 ", h.compute_checksum());
        h.checksum.copy_from_slice(c.as_bytes());
        assert_eq!(next_entry(&h).unwrap_err(), ArchiveError::MalformedOctal, "field at {}", lo);
        assert!(hi > lo);
    }
}
