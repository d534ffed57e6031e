use std::io::{Cursor, Read};

use static_serve::archive::{
    archive_entries, build_archive, within_walk_depth, write_archive, ArchiveEntry, ArchiveFound,
    WalkedNode, MAX_WALK_DEPTH,
};
use static_serve::error::ResolutionError;
use zip::ZipArchive;

fn file(path: &str, contents: &[u8]) -> WalkedNode {
    WalkedNode { path: path.to_string(), contents: Some(contents.to_vec()) }
}

fn directory(path: &str) -> WalkedNode {
    WalkedNode { path: path.to_string(), contents: None }
}

fn file_entry(name: &str, contents: &[u8]) -> ArchiveEntry {
    ArchiveEntry { name: name.to_string(), contents: Some(contents.to_vec()) }
}

fn directory_entry(name: &str) -> ArchiveEntry {
    ArchiveEntry { name: name.to_string(), contents: None }
}

/// Name, whether it is a directory, and contents of each entry of an archive.
fn read_back(bytes: Vec<u8>) -> Vec<(String, bool, Vec<u8>)> {
    let mut archive = ZipArchive::new(Cursor::new(bytes)).unwrap();
    let mut entries = Vec::new();
    for index in 0..archive.len() {
        let mut entry = archive.by_index(index).unwrap();
        let mut contents = Vec::new();
        entry.read_to_end(&mut contents).unwrap();
        entries.push((entry.name().to_string(), entry.is_dir(), contents));
    }
    entries
}

fn archive_of(nodes: Vec<WalkedNode>) -> Vec<u8> {
    build_archive(ArchiveFound::Walked(Ok(nodes))).unwrap()
}

#[test]
fn archive_of_an_empty_directory_has_no_entries() {
    let bytes = archive_of(Vec::new());
    assert!(!bytes.is_empty());
    assert_eq!(read_back(bytes), Vec::new());
}

#[test]
fn archive_of_one_file_holds_that_file() {
    let bytes = archive_of(vec![file("a.txt", b"hello")]);
    assert_eq!(read_back(bytes), vec![("a.txt".to_string(), false, b"hello".to_vec())]);
}

#[test]
fn archive_keeps_the_shape_of_the_tree() {
    let bytes = archive_of(vec![
        file("sub/inner/deep.bin", &[0, 1, 2, 255]),
        directory("empty"),
        file("top.txt", b"top"),
        directory("sub"),
        directory("sub/inner"),
        file("sub/b.txt", b""),
    ]);
    assert_eq!(
        read_back(bytes),
        vec![
            ("empty/".to_string(), true, Vec::new()),
            ("sub/".to_string(), true, Vec::new()),
            ("sub/b.txt".to_string(), false, Vec::new()),
            ("sub/inner/".to_string(), true, Vec::new()),
            ("sub/inner/deep.bin".to_string(), false, vec![0, 1, 2, 255]),
            ("top.txt".to_string(), false, b"top".to_vec()),
        ]
    );
}

#[test]
fn archive_does_not_depend_on_the_order_of_the_walk() {
    let one = archive_of(vec![file("b", b"2"), directory("d"), file("a", b"1"), file("d/c", b"3")]);
    let other = archive_of(vec![file("d/c", b"3"), file("a", b"1"), file("b", b"2"), directory("d")]);
    assert_eq!(one, other);
    assert_eq!(one, archive_of(vec![file("a", b"1"), file("b", b"2"), directory("d"), file("d/c", b"3")]));
}

#[test]
fn archive_names_are_relative_and_sanitized() {
    let planned = archive_entries(&vec![
        file("./x/../y.txt", b"y"),
        file("/abs/z", b"z"),
        directory("../../up"),
        directory("dir/"),
        file("a//b", b"ab"),
    ]);
    assert_eq!(
        planned,
        vec![
            file_entry("a/b", b"ab"),
            file_entry("abs/z", b"z"),
            directory_entry("dir/"),
            directory_entry("up/"),
            file_entry("x/y.txt", b"y"),
        ]
    );
}

#[test]
fn archive_leaves_out_the_root_of_the_walk() {
    assert_eq!(archive_entries(&vec![directory(""), directory("."), directory("/")]), Vec::new());
    assert_eq!(
        archive_entries(&vec![directory("."), file("f", b"x")]),
        vec![file_entry("f", b"x")]
    );
}

#[test]
fn archive_entries_sort_by_the_bytes_of_the_name() {
    let planned = archive_entries(&vec![
        file("b", b""),
        file("B", b""),
        file("a.txt", b""),
        directory("a"),
        file("a/x", b""),
        file("\u{e9}", b""),
    ]);
    let names: Vec<&str> = planned.iter().map(|e| e.name.as_str()).collect();
    assert_eq!(names, vec!["B", "a.txt", "a/", "a/x", "b", "\u{e9}"]);
}

#[test]
fn archive_entries_of_one_name_keep_their_order() {
    let planned = archive_entries(&vec![file("same", b"first"), file("./same", b"second")]);
    assert_eq!(planned, vec![file_entry("same", b"first"), file_entry("same", b"second")]);
}

#[test]
fn write_archive_keeps_the_given_order() {
    let bytes = write_archive(&vec![
        file_entry("z", b"last first"),
        directory_entry("d"),
        file_entry("a", b"first last"),
    ])
    .unwrap();
    assert_eq!(
        read_back(bytes),
        vec![
            ("z".to_string(), false, b"last first".to_vec()),
            ("d/".to_string(), true, Vec::new()),
            ("a".to_string(), false, b"first last".to_vec()),
        ]
    );
}

#[test]
fn archive_is_whole_or_nothing() {
    assert_eq!(
        build_archive(ArchiveFound::Walked(Err("unreadable file".to_string()))),
        Err(ResolutionError::IoError("unreadable file".to_string()))
    );
}

#[test]
fn archive_needs_an_existing_directory() {
    assert_eq!(build_archive(ArchiveFound::Missing), Err(ResolutionError::NotFound));
    assert_eq!(
        build_archive(ArchiveFound::NotDirectory),
        Err(ResolutionError::IoError("not a directory".to_string()))
    );
}

#[test]
fn walk_goes_no_deeper_than_the_limit() {
    assert_eq!(MAX_WALK_DEPTH, 64);
    assert!(within_walk_depth(0));
    assert!(within_walk_depth(63));
    assert!(within_walk_depth(64));
    assert!(!within_walk_depth(65));
    assert!(!within_walk_depth(usize::MAX));
}

#[test]
fn archive_of_readable_small_files_is_always_written() {
    let nodes = vec![file("a", b""), directory("d"), file("d/b", &[7; 4096]), directory("e")];
    assert!(build_archive(ArchiveFound::Walked(Ok(nodes))).is_ok());
    assert!(write_archive(&Vec::new()).is_ok());
    assert!(write_archive(&vec![directory_entry(""), file_entry("", b"x")]).is_ok());
}
