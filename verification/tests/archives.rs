use jcd::archive::{collect, extract_class_filenames_from_jar, read_entries, ArchiveFault, ArchiveSource};
use jcd::index::ConflictIndex;
use jcd::label::{get_jar_name, ArchiveRef};
use jcd::policy::DistinctFrom;
use jcd::report::report;
use std::io::{Cursor, Write};
use std::rc::Rc;

const CRC_HELLO: u32 = 0x3610A686;
const CRC_DIGITS: u32 = 0xCBF43926;

fn jar(entries: &[(&str, &[u8])], deflate: bool) -> Vec<u8> {
    let method = if deflate { zip::CompressionMethod::Deflated } else { zip::CompressionMethod::Stored };
    let options = zip::write::FileOptions::default().compression_method(method);
    let mut writer = zip::ZipWriter::new(Cursor::new(Vec::new()));
    for (name, data) in entries {
        writer.start_file(*name, options).unwrap();
        writer.write_all(data).unwrap();
    }
    writer.finish().unwrap().into_inner()
}

fn source(path: &str, bytes: Vec<u8>) -> ArchiveSource {
    ArchiveSource { archive: ArchiveRef::new(path).unwrap(), bytes }
}

fn position_of(bytes: &[u8], pattern: &[u8], nth: usize) -> usize {
    let mut seen = 0;
    for start in 0..bytes.len() - pattern.len() + 1 {
        if &bytes[start..start + pattern.len()] == pattern {
            if seen == nth {
                return start;
            }
            seen += 1;
        }
    }
    panic!("pattern not found");
}

#[test]
fn read_entries_gives_name_size_and_checksum() {
    let bytes = jar(&[("a/Foo.class", b"hello"), ("META-INF/MANIFEST.MF", b"123456789"), ("empty", b"")], false);
    let entries = read_entries(&bytes).unwrap();
    assert_eq!(entries.len(), 3);
    assert_eq!((entries[0].name.as_str(), entries[0].size, entries[0].crc32), ("a/Foo.class", 5, CRC_HELLO));
    assert_eq!(
        (entries[1].name.as_str(), entries[1].size, entries[1].crc32),
        ("META-INF/MANIFEST.MF", 9, CRC_DIGITS)
    );
    assert_eq!((entries[2].name.as_str(), entries[2].size, entries[2].crc32), ("empty", 0, 0));
}

#[test]
fn read_entries_reads_uncompressed_size_of_deflated_entries() {
    let data = vec![b'a'; 4096];
    let bytes = jar(&[("Big.class", &data)], true);
    assert!(bytes.len() < 4096);
    let entries = read_entries(&bytes).unwrap();
    assert_eq!(entries.len(), 1);
    assert_eq!(entries[0].size, 4096);
}

#[test]
fn read_entries_of_empty_archive() {
    let bytes = jar(&[], false);
    assert!(read_entries(&bytes).unwrap().is_empty());
}

#[test]
fn bytes_that_are_no_archive_are_refused() {
    for bytes in [&b""[..], &b"not a zip archive at all, just text"[..], &[0u8; 64][..]] {
        let error = read_entries(bytes).err().unwrap();
        assert_eq!(error.fault, ArchiveFault::NotAnArchive);
        assert!(!error.detail.is_empty());
    }
}

#[test]
fn broken_local_header_is_an_unreadable_entry() {
    let mut bytes = jar(&[("A.class", b"hello"), ("B.class", b"hello")], false);
    let second = position_of(&bytes, b"PK\x03\x04", 1);
    bytes[second] = b'X';
    let error = read_entries(&bytes).err().unwrap();
    assert_eq!(error.fault, ArchiveFault::UnreadableEntry(1));

    let first = position_of(&bytes, b"PK\x03\x04", 0);
    bytes[first] = b'X';
    let error = read_entries(&bytes).err().unwrap();
    assert_eq!(error.fault, ArchiveFault::UnreadableEntry(0));
}

#[test]
fn extract_records_class_entries_under_the_label() {
    let bytes = jar(
        &[("a/Foo.class", b"hello"), ("META-INF/MANIFEST.MF", b"x"), ("a/readme.txt", b"x"), ("b/Bar.class", b"123456789")],
        false,
    );
    let label = Rc::new("one.jar".to_string());
    let excludes: Vec<String> = Vec::new();
    let mut index = ConflictIndex::new();
    extract_class_filenames_from_jar(&bytes, &mut index, &label, &excludes, DistinctFrom::Crc).unwrap();
    let entries = index.entries();
    assert_eq!(entries.len(), 2);
    assert_eq!(entries[0].name, "a/Foo.class");
    assert_eq!(entries[0].buckets.len(), 1);
    assert_eq!(entries[0].buckets[0].identity, CRC_HELLO as u64);
    assert_eq!(*entries[0].buckets[0].archives[0], "one.jar");
    assert_eq!(entries[1].name, "b/Bar.class");
    assert_eq!(entries[1].buckets[0].identity, CRC_DIGITS as u64);
}

#[test]
fn extract_leaves_the_index_alone_on_failure() {
    let good = jar(&[("a/Foo.class", b"hello")], false);
    let mut bad = jar(&[("a/Foo.class", b"hello"), ("b/Bar.class", b"hello")], false);
    let second = position_of(&bad, b"PK\x03\x04", 1);
    bad[second + 1] = b'X';
    let excludes: Vec<String> = Vec::new();
    let mut index = ConflictIndex::new();
    let one = Rc::new("one.jar".to_string());
    let two = Rc::new("two.jar".to_string());
    extract_class_filenames_from_jar(&good, &mut index, &one, &excludes, DistinctFrom::Size).unwrap();
    let error = extract_class_filenames_from_jar(&bad, &mut index, &two, &excludes, DistinctFrom::Size)
        .err()
        .unwrap();
    assert_eq!(error.fault, ArchiveFault::UnreadableEntry(1));
    assert_eq!(index.entries().len(), 1);
    assert_eq!(index.entries()[0].buckets[0].archives.len(), 1);
}

#[test]
fn collect_and_report_over_real_archives() {
    let sources = vec![
        source("libs/one.jar", jar(&[("p/Same.class", b"hello"), ("p/Differ.class", b"hello"), ("p/Alone.class", b"x")], false)),
        source("libs/two.jar", jar(&[("p/Same.class", b"hello"), ("p/Differ.class", b"hello!"), ("META-INF/MANIFEST.MF", b"x")], true)),
    ];
    let excludes: Vec<String> = Vec::new();
    let index = collect(&sources, &excludes, DistinctFrom::Size).unwrap();
    let lines = report(&index, DistinctFrom::Size);
    assert_eq!(lines.len(), 2);
    assert_eq!(lines[0].name, "p/Differ.class");
    assert_eq!(lines[0].buckets.len(), 2);
    assert_eq!(lines[0].buckets[0].identity, 5);
    assert_eq!(*lines[0].buckets[0].archives[0], "one.jar");
    assert_eq!(lines[0].buckets[1].identity, 6);
    assert_eq!(*lines[0].buckets[1].archives[0], "two.jar");
    assert_eq!(lines[1].name, "p/Same.class");
    assert_eq!(lines[1].buckets.len(), 1);
    assert_eq!(lines[1].buckets[0].identity, 5);
    let labels: Vec<&str> = lines[1].buckets[0].archives.iter().map(|label| label.as_str()).collect();
    assert_eq!(labels, vec!["one.jar", "two.jar"]);
}

#[test]
fn collect_names_the_first_archive_that_fails() {
    let sources = vec![
        source("a.jar", jar(&[("A.class", b"x")], false)),
        source("b.jar", b"garbage".to_vec()),
        source("c.jar", Vec::new()),
    ];
    let excludes: Vec<String> = Vec::new();
    let error = collect(&sources, &excludes, DistinctFrom::Size).err().unwrap();
    assert_eq!(error.archive, 1);
    assert_eq!(error.cause.fault, ArchiveFault::NotAnArchive);
}

#[test]
fn collect_with_exclusions_and_none_policy() {
    let sources = vec![
        source("one.jar", jar(&[("com/x/Foo.class", b"a"), ("com/y/Bar.class", b"b")], false)),
        source("two.jar", jar(&[("com/x/Foo.class", b"c"), ("com/y/Bar.class", b"dd")], false)),
    ];
    let excludes = vec!["com/x/".to_string()];
    let index = collect(&sources, &excludes, DistinctFrom::Nothing).unwrap();
    let lines = report(&index, DistinctFrom::Nothing);
    assert_eq!(lines.len(), 1);
    assert_eq!(lines[0].name, "com/y/Bar.class");
    assert_eq!(lines[0].buckets.len(), 1);
    assert_eq!(lines[0].buckets[0].identity, 0);
    assert_eq!(lines[0].buckets[0].archives.len(), 2);
}

#[test]
fn jar_name_is_the_final_path_component() {
    assert_eq!(get_jar_name("/opt/app/lib/a.jar"), "a.jar");
    assert_eq!(get_jar_name("a.jar"), "a.jar");
    assert_eq!(get_jar_name("lib/b.jar/"), "b.jar");
    assert_eq!(get_jar_name("./c.jar"), "c.jar");
}

#[test]
fn archive_ref_keeps_path_and_label() {
    let archive = ArchiveRef::new("/opt/app/lib/a.jar").unwrap();
    assert_eq!(archive.path(), "/opt/app/lib/a.jar");
    assert_eq!(archive.label().as_str(), "a.jar");
}

#[test]
fn archive_ref_needs_a_final_component() {
    assert!(ArchiveRef::new("").is_none());
    assert!(ArchiveRef::new("/").is_none());
    assert!(ArchiveRef::new("lib/..").is_none());
    assert!(ArchiveRef::new("lib/a.jar").is_some());
}
