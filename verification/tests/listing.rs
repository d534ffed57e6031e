use static_serve::error::ResolutionError;
use static_serve::listing::{list, sort_entries, sort_key, Entry, FsEntry, FsMetadata};
use static_serve::order::{key_le, listing_order};

fn entry(name: &str) -> Entry {
    Entry {
        href: format!("./{}", name),
        name: name.to_string(),
        mtime: "2015-05-15 00:00:00 UTC".to_string(),
        size: 1,
    }
}

fn child(dir: &str, name: &str, secs: i64, len: u64) -> FsEntry {
    FsEntry {
        path: format!("{}/{}", dir, name),
        file_name: name.to_string(),
        metadata: Ok(FsMetadata { modified_secs: secs, modified_nanos: 0, len }),
    }
}

fn unreadable(dir: &str, name: &str) -> FsEntry {
    FsEntry {
        path: format!("{}/{}", dir, name),
        file_name: name.to_string(),
        metadata: Err("permission denied".to_string()),
    }
}

fn names(entries: &[Entry]) -> Vec<String> {
    entries.iter().map(|e| e.name.clone()).collect()
}

fn keys(raw: &[&str]) -> Vec<Vec<u8>> {
    raw.iter().map(|k| k.as_bytes().to_vec()).collect()
}

#[test]
fn key_le_is_bytewise() {
    assert!(key_le(&b"".to_vec(), &b"".to_vec()));
    assert!(key_le(&b"".to_vec(), &b"a".to_vec()));
    assert!(!key_le(&b"a".to_vec(), &b"".to_vec()));
    assert!(key_le(&b"a".to_vec(), &b"a".to_vec()));
    assert!(key_le(&b"a".to_vec(), &b"ab".to_vec()));
    assert!(!key_le(&b"ab".to_vec(), &b"a".to_vec()));
    assert!(key_le(&b"ab".to_vec(), &b"b".to_vec()));
    assert!(!key_le(&b"b".to_vec(), &b"ab".to_vec()));
    assert!(key_le(&b"B".to_vec(), &b"a".to_vec()));
    assert!(key_le(&vec![0x7f], &vec![0x80]));
    assert!(!key_le(&vec![0xff], &vec![0x00, 0xff]));
}

#[test]
fn listing_order_of_nothing() {
    assert_eq!(listing_order(&Vec::new()), Vec::<usize>::new());
}

#[test]
fn listing_order_sorts_ascending() {
    assert_eq!(listing_order(&keys(&["c", "a", "b"])), vec![1, 2, 0]);
    assert_eq!(listing_order(&keys(&["b", "ab", "a", ""])), vec![3, 2, 1, 0]);
    assert_eq!(listing_order(&keys(&["a", "b", "c"])), vec![0, 1, 2]);
}

#[test]
fn listing_order_keeps_equal_keys_in_place() {
    assert_eq!(listing_order(&keys(&["b", "a", "b", "a", "b"])), vec![1, 3, 0, 2, 4]);
    assert_eq!(listing_order(&keys(&["x", "x", "x"])), vec![0, 1, 2]);
}

#[test]
fn sort_key_is_the_lowercase_name() {
    assert_eq!(sort_key("README.md"), b"readme.md".to_vec());
    assert_eq!(sort_key("abc"), b"abc".to_vec());
    assert_eq!(sort_key("\u{c9}t\u{e9}"), "\u{e9}t\u{e9}".as_bytes().to_vec());
    assert_eq!(sort_key(""), Vec::<u8>::new());
}

#[test]
fn sort_entries_ignores_case() {
    let sorted = sort_entries(vec![entry("banana"), entry("Cherry"), entry("apple"), entry("Date")]);
    assert_eq!(names(&sorted), vec!["apple", "banana", "Cherry", "Date"]);
}

#[test]
fn sort_entries_is_stable() {
    let sorted = sort_entries(vec![entry("b"), entry("A"), entry("a"), entry("B"), entry("a")]);
    assert_eq!(names(&sorted), vec!["A", "a", "a", "b", "B"]);
}

#[test]
fn sort_entries_keeps_every_field() {
    let big = Entry {
        href: "./z/Big".to_string(),
        name: "Big".to_string(),
        mtime: "t1".to_string(),
        size: 7,
    };
    let small = Entry {
        href: "./z/a".to_string(),
        name: "a".to_string(),
        mtime: "t2".to_string(),
        size: 9,
    };
    assert_eq!(sort_entries(vec![big.clone(), small.clone()]), vec![small, big]);
    assert_eq!(sort_entries(Vec::new()), Vec::<Entry>::new());
}

#[test]
fn inserting_a_child_keeps_the_listing_sorted() {
    let before = vec![entry("delta"), entry("Alpha"), entry("charlie")];
    let listed = names(&sort_entries(before.clone()));
    assert_eq!(listed, vec!["Alpha", "charlie", "delta"]);
    for at in 0..=before.len() {
        let mut after = before.clone();
        after.insert(at, entry("Bravo"));
        let relisted = names(&sort_entries(after));
        assert_eq!(relisted, vec!["Alpha", "Bravo", "charlie", "delta"]);
        let without: Vec<String> = relisted.into_iter().filter(|n| n != "Bravo").collect();
        assert_eq!(without, listed);
    }
}

#[test]
fn entry_new_reads_the_metadata() {
    let made = Entry::new(&child("./docs", "a.txt", 1431648000, 5)).unwrap();
    assert_eq!(
        made,
        Entry {
            href: "./docs/a.txt".to_string(),
            name: "a.txt".to_string(),
            mtime: "2015-05-15 00:00:00 UTC".to_string(),
            size: 5,
        }
    );
}

#[test]
fn entry_new_writes_fractions_of_a_second() {
    let fs_entry = FsEntry {
        path: "./x".to_string(),
        file_name: "x".to_string(),
        metadata: Ok(FsMetadata { modified_secs: 0, modified_nanos: 500_000_000, len: 0 }),
    };
    assert_eq!(Entry::new(&fs_entry).unwrap().mtime, "1970-01-01 00:00:00.500 UTC");
    let before_epoch = FsEntry {
        path: "./x".to_string(),
        file_name: "x".to_string(),
        metadata: Ok(FsMetadata { modified_secs: -1, modified_nanos: 0, len: 0 }),
    };
    assert_eq!(Entry::new(&before_epoch).unwrap().mtime, "1969-12-31 23:59:59 UTC");
}

#[test]
fn entry_new_sanitizes_the_link() {
    let fs_entry = FsEntry {
        path: "./docs/../../etc//passwd".to_string(),
        file_name: "passwd".to_string(),
        metadata: Ok(FsMetadata { modified_secs: 0, modified_nanos: 0, len: 3 }),
    };
    let made = Entry::new(&fs_entry).unwrap();
    assert_eq!(made.href, "./docs/etc/passwd");
    assert_eq!(made.name, "passwd");
    assert_eq!(made.size, 3);
}

#[test]
fn entry_new_fails_without_metadata() {
    assert_eq!(
        Entry::new(&unreadable(".", "locked")),
        Err(ResolutionError::MetadataError("permission denied".to_string()))
    );
}

#[test]
fn entry_new_fails_on_a_time_out_of_range() {
    let fs_entry = FsEntry {
        path: "./x".to_string(),
        file_name: "x".to_string(),
        metadata: Ok(FsMetadata { modified_secs: i64::MAX, modified_nanos: 0, len: 0 }),
    };
    assert_eq!(
        Entry::new(&fs_entry),
        Err(ResolutionError::MetadataError("modification time out of range".to_string()))
    );
}

#[test]
fn entry_with_mtime_takes_the_text_as_given() {
    let made = Entry::with_mtime("/a/./b", "b".to_string(), "yesterday".to_string(), 42);
    assert_eq!(
        made,
        Entry {
            href: "./a/b".to_string(),
            name: "b".to_string(),
            mtime: "yesterday".to_string(),
            size: 42,
        }
    );
}

#[test]
fn list_sorts_and_skips_unreadable_children() {
    let children = vec![
        child(".", "zeta", 0, 1),
        unreadable(".", "hidden"),
        child(".", "Alpha", 0, 2),
        child(".", "beta", 0, 3),
    ];
    let listed = list(Ok(children)).unwrap();
    assert_eq!(names(&listed), vec!["Alpha", "beta", "zeta"]);
    assert_eq!(listed[0].href, "./Alpha");
    assert_eq!(listed[0].size, 2);
    assert_eq!(listed[2].mtime, "1970-01-01 00:00:00 UTC");
}

#[test]
fn list_of_an_empty_directory() {
    assert_eq!(list(Ok(Vec::new())), Ok(Vec::new()));
    assert_eq!(list(Ok(vec![unreadable(".", "a"), unreadable(".", "b")])), Ok(Vec::new()));
}

#[test]
fn list_fails_when_the_directory_cannot_be_opened() {
    assert_eq!(
        list(Err("permission denied".to_string())),
        Err(ResolutionError::IoError("permission denied".to_string()))
    );
}
