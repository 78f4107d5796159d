use include_fs::{
    build_archive, parse_header, FsEntry, FsError, IncludeFsInner, SourceFile,
};

fn record(path: &[u8], size: u64, data_offset: u64) -> Vec<u8> {
    let mut bytes = Vec::new();
    bytes.extend_from_slice(&(path.len() as u16).to_le_bytes());
    bytes.extend_from_slice(path);
    bytes.extend_from_slice(&size.to_le_bytes());
    bytes.extend_from_slice(&data_offset.to_le_bytes());
    bytes
}

fn archive(count: u32, records: &[Vec<u8>], data: &[u8]) -> Vec<u8> {
    let mut bytes = b"INFS".to_vec();
    bytes.extend_from_slice(&count.to_le_bytes());
    for r in records {
        bytes.extend_from_slice(r);
    }
    bytes.extend_from_slice(data);
    bytes
}

fn scenario() -> Vec<u8> {
    let files = vec![
        SourceFile::new("a.txt", b"xyz"),
        SourceFile::new("dir/b.bin", b""),
    ];
    build_archive(&files).unwrap()
}

#[test]
fn scenario_round_trip() {
    let bytes = scenario();
    assert_eq!(bytes.len(), 61);
    let fs = IncludeFsInner::new(&bytes).unwrap();
    assert_eq!(fs.get("a.txt").unwrap(), b"xyz");
    assert_eq!(fs.get("dir/b.bin").unwrap(), b"");
    assert!(fs.file_exists("a.txt"));
    assert!(fs.file_exists("dir/b.bin"));
    assert!(!fs.file_exists("c.txt"));
    assert_eq!(fs.get("c.txt"), Err(FsError::NotFound));
    assert_eq!(fs.list_paths(), vec!["a.txt", "dir/b.bin"]);
}

#[test]
fn round_trip_gives_back_every_file() {
    let contents: Vec<Vec<u8>> = (0..20u32)
        .map(|i| (0..i * 37).map(|b| (b % 251) as u8).collect())
        .collect();
    let paths: Vec<String> = (0..20).map(|i| format!("dir{}/file-{}.bin", i % 3, i)).collect();
    let files: Vec<SourceFile> = paths
        .iter()
        .zip(contents.iter())
        .map(|(path, content)| SourceFile::new(path, content))
        .collect();
    let bytes = build_archive(&files).unwrap();
    let fs = IncludeFsInner::new(&bytes).unwrap();
    for (path, content) in paths.iter().zip(contents.iter()) {
        assert!(fs.file_exists(path));
        assert_eq!(fs.get(path).unwrap(), &content[..]);
    }
    assert!(!fs.file_exists("dir0/file-20.bin"));
    assert!(!fs.file_exists(""));
    let listed: Vec<String> = fs.list_paths().iter().map(|p| p.to_string()).collect();
    assert_eq!(listed, paths);
}

#[test]
fn round_trip_with_paths_beyond_ascii() {
    let files = vec![
        SourceFile::new("caf\u{e9}/\u{65e5}\u{672c}.txt", b"one"),
        SourceFile::new("\u{1f600}", b"two2"),
    ];
    let bytes = build_archive(&files).unwrap();
    let fs = IncludeFsInner::new(&bytes).unwrap();
    assert_eq!(fs.get("caf\u{e9}/\u{65e5}\u{672c}.txt").unwrap(), b"one");
    assert_eq!(fs.get("\u{1f600}").unwrap(), b"two2");
    assert_eq!(
        fs.list_paths(),
        vec!["caf\u{e9}/\u{65e5}\u{672c}.txt", "\u{1f600}"]
    );
}

#[test]
fn round_trip_with_the_longest_path() {
    let path = "a".repeat(65535);
    let files = vec![SourceFile::new(&path, b"content")];
    let bytes = build_archive(&files).unwrap();
    assert_eq!(bytes.len(), 8 + 2 + 65535 + 16 + 7);
    let fs = IncludeFsInner::new(&bytes).unwrap();
    assert_eq!(fs.get(&path).unwrap(), b"content");
}

#[test]
fn empty_archive_opens_to_an_empty_reader() {
    let bytes = build_archive(&[]).unwrap();
    assert_eq!(bytes.len(), 8);
    let fs = IncludeFsInner::new(&bytes).unwrap();
    assert!(fs.list_paths().is_empty());
    assert!(!fs.file_exists("a.txt"));
    assert_eq!(fs.get("a.txt"), Err(FsError::NotFound));
}

#[test]
fn damaged_magic_is_refused() {
    let good = scenario();
    for i in 0..4 {
        for flip in [0x01u8, 0x80, 0xff] {
            let mut bytes = good.clone();
            bytes[i] ^= flip;
            assert!(matches!(
                IncludeFsInner::new(&bytes),
                Err(FsError::InvalidArchive)
            ));
        }
    }
    assert!(IncludeFsInner::new(&good).is_ok());
}

#[test]
fn short_buffers_are_refused() {
    for bytes in [&b""[..], b"I", b"INF", b"INFS", b"INFS\0\0\0"] {
        assert!(matches!(
            IncludeFsInner::new(bytes),
            Err(FsError::InvalidArchive)
        ));
    }
    assert!(IncludeFsInner::new(b"INFS\0\0\0\0").is_ok());
}

#[test]
fn every_truncation_is_refused() {
    let good = scenario();
    for n in 0..good.len() {
        assert!(
            matches!(
                IncludeFsInner::new(&good[..n]),
                Err(FsError::InvalidArchive)
            ),
            "cut at {}",
            n
        );
    }
}

#[test]
fn count_beyond_the_records_is_refused() {
    let mut bytes = scenario();
    bytes[4] = 3;
    assert!(matches!(
        IncludeFsInner::new(&bytes),
        Err(FsError::InvalidArchive)
    ));
    let bytes = b"INFS\xff\xff\xff\xff".to_vec();
    assert!(matches!(
        IncludeFsInner::new(&bytes),
        Err(FsError::InvalidArchive)
    ));
}

#[test]
fn content_outside_the_archive_is_refused() {
    let header_len = 8 + 18 + 1;
    let bytes = archive(1, &[record(b"a", 4, header_len)], b"abc");
    assert!(matches!(
        IncludeFsInner::new(&bytes),
        Err(FsError::InvalidArchive)
    ));
    let bytes = archive(1, &[record(b"a", 3, header_len)], b"abc");
    let fs = IncludeFsInner::new(&bytes).unwrap();
    assert_eq!(fs.get("a").unwrap(), b"abc");
    let bytes = archive(1, &[record(b"a", 1, u64::MAX)], b"abc");
    assert!(matches!(
        IncludeFsInner::new(&bytes),
        Err(FsError::InvalidArchive)
    ));
    let bytes = archive(1, &[record(b"a", 0, header_len + 4)], b"abc");
    assert!(matches!(
        IncludeFsInner::new(&bytes),
        Err(FsError::InvalidArchive)
    ));
}

#[test]
fn content_is_taken_from_the_stated_offset() {
    // Offsets need not follow the builder's layout: the reader goes by the record.
    let header_len: u64 = 8 + (18 + 1) + (18 + 1);
    let bytes = archive(
        2,
        &[record(b"x", 2, header_len + 3), record(b"y", 4, header_len)],
        b"abcdef",
    );
    let fs = IncludeFsInner::new(&bytes).unwrap();
    assert_eq!(fs.get("x").unwrap(), b"de");
    assert_eq!(fs.get("y").unwrap(), b"abcd");
    // A record may point into the header.
    let bytes = archive(1, &[record(b"m", 4, 0)], b"");
    let fs = IncludeFsInner::new(&bytes).unwrap();
    assert_eq!(fs.get("m").unwrap(), b"INFS");
}

#[test]
fn later_record_replaces_an_earlier_one_of_the_same_path() {
    let header_len: u64 = 8 + 3 * (18 + 1);
    let bytes = archive(
        3,
        &[
            record(b"p", 2, header_len),
            record(b"q", 1, header_len + 2),
            record(b"p", 3, header_len + 3),
        ],
        b"aabccc",
    );
    let fs = IncludeFsInner::new(&bytes).unwrap();
    assert_eq!(fs.get("p").unwrap(), b"ccc");
    assert_eq!(fs.get("q").unwrap(), b"b");
    assert_eq!(fs.list_paths(), vec!["p", "q"]);
}

#[test]
fn path_bytes_that_are_not_utf8_are_read_lossily() {
    let header_len: u64 = 8 + (18 + 3);
    let bytes = archive(1, &[record(&[b'a', 0xff, b'b'], 2, header_len)], b"hi");
    let fs = IncludeFsInner::new(&bytes).unwrap();
    assert!(fs.file_exists("a\u{fffd}b"));
    assert_eq!(fs.get("a\u{fffd}b").unwrap(), b"hi");
    assert_eq!(fs.list_paths(), vec!["a\u{fffd}b"]);
    assert!(!fs.file_exists("ab"));
}

#[test]
fn path_bytes_that_are_utf8_are_read_as_their_text() {
    let header_len: u64 = 8 + (18 + 5);
    let bytes = archive(1, &[record(&[0x63, 0xc3, 0xa9, 0x2e, 0x74], 1, header_len)], b"!");
    let fs = IncludeFsInner::new(&bytes).unwrap();
    assert_eq!(fs.list_paths(), vec!["c\u{e9}.t"]);
    assert_eq!(fs.get("c\u{e9}.t").unwrap(), b"!");
}

#[test]
fn bytes_behind_the_contents_are_ignored() {
    let mut bytes = scenario();
    bytes.extend_from_slice(b"trailing");
    let fs = IncludeFsInner::new(&bytes).unwrap();
    assert_eq!(fs.get("a.txt").unwrap(), b"xyz");
    assert_eq!(fs.list_paths().len(), 2);
}

#[test]
fn parse_header_reads_the_records_in_order() {
    let bytes = scenario();
    let records = parse_header(&bytes).unwrap();
    assert_eq!(records.len(), 2);
    assert_eq!(records[0].path, b"a.txt".to_vec());
    assert_eq!(records[0].size, 3);
    assert_eq!(records[0].data_offset, 58);
    assert_eq!(records[1].path, b"dir/b.bin".to_vec());
    assert_eq!(records[1].size, 0);
    assert_eq!(records[1].data_offset, 61);
}

#[test]
fn parse_header_does_not_look_at_the_contents() {
    // The header alone parses, though the contents that it announces are missing.
    let bytes = scenario();
    let records = parse_header(&bytes[..58]).unwrap();
    assert_eq!(records.len(), 2);
    assert!(matches!(
        parse_header(&bytes[..57]),
        Err(FsError::InvalidArchive)
    ));
    assert!(matches!(
        parse_header(b"INFX\0\0\0\0"),
        Err(FsError::InvalidArchive)
    ));
    // Path bytes are kept as they are.
    let bytes = archive(1, &[record(&[0xff, 0xfe], 0, 0)], b"");
    let records = parse_header(&bytes).unwrap();
    assert_eq!(records[0].path, vec![0xff, 0xfe]);
}

#[test]
fn parse_header_reads_little_endian_fields() {
    let mut bytes = b"INFS\x01\x00\x00\x00\x02\x00ab".to_vec();
    bytes.extend_from_slice(&[0x08, 0x07, 0x06, 0x05, 0x04, 0x03, 0x02, 0x01]);
    bytes.extend_from_slice(&[0x11, 0x22, 0x33, 0x44, 0x55, 0x66, 0x77, 0x88]);
    let records = parse_header(&bytes).unwrap();
    assert_eq!(records.len(), 1);
    assert_eq!(records[0].path, b"ab".to_vec());
    assert_eq!(records[0].size, 0x0102030405060708);
    assert_eq!(records[0].data_offset, 0x8877665544332211);
}

#[test]
fn fs_entry_keeps_path_and_size() {
    let entry = FsEntry::new("a.txt".to_string(), 3, 58);
    assert_eq!(entry.path, "a.txt");
    assert_eq!(entry.size, 3);
}

#[test]
fn from_entries_indexes_by_path() {
    let entries = vec![
        FsEntry::new("one".to_string(), 2, 0),
        FsEntry::new("two".to_string(), 3, 2),
        FsEntry::new("one".to_string(), 1, 4),
    ];
    let fs = IncludeFsInner::from_entries(entries, b"abcde".to_vec()).unwrap();
    assert_eq!(fs.get("one").unwrap(), b"e");
    assert_eq!(fs.get("two").unwrap(), b"cde");
    assert_eq!(fs.list_paths(), vec!["one", "two"]);
    assert_eq!(fs.get("three"), Err(FsError::NotFound));
}

#[test]
fn from_entries_refuses_content_outside_the_bytes() {
    let entries = vec![
        FsEntry::new("one".to_string(), 2, 0),
        FsEntry::new("two".to_string(), 3, 3),
    ];
    assert!(matches!(
        IncludeFsInner::from_entries(entries, b"abcde".to_vec()),
        Err(FsError::InvalidArchive)
    ));
    let entries = vec![FsEntry::new("big".to_string(), u64::MAX, u64::MAX)];
    assert!(matches!(
        IncludeFsInner::from_entries(entries, b"abcde".to_vec()),
        Err(FsError::InvalidArchive)
    ));
    let fs = IncludeFsInner::from_entries(Vec::new(), Vec::new()).unwrap();
    assert!(fs.list_paths().is_empty());
}

#[test]
fn not_found_and_invalid_archive_differ() {
    assert_ne!(FsError::NotFound, FsError::InvalidArchive);
    let fs = IncludeFsInner::new(&scenario()).unwrap();
    assert_eq!(fs.get("missing"), Err(FsError::NotFound));
}

#[test]
fn entry_gives_what_the_record_says() {
    let fs = IncludeFsInner::new(&scenario()).unwrap();
    let entry = fs.entry("a.txt").unwrap();
    assert_eq!(entry.path, "a.txt");
    assert_eq!(entry.size, 3);
    assert_eq!(entry.data_offset, 58);
    let entry = fs.entry("dir/b.bin").unwrap();
    assert_eq!(entry.size, 0);
    assert_eq!(entry.data_offset, 61);
    assert!(fs.entry("c.txt").is_none());
}

#[test]
fn archive_bytes_are_the_bytes_that_were_opened() {
    let bytes = scenario();
    let fs = IncludeFsInner::new(&bytes).unwrap();
    assert_eq!(fs.archive_bytes(), &bytes[..]);
}
