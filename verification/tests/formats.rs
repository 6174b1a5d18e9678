use dir_index::entry::{Entry, EntryKind};
use dir_index::format::{describe, describe_all, row_from, whole_seconds};

#[test]
fn whole_seconds_round_down() {
    assert_eq!(whole_seconds(true, 0, 0), Some(0));
    assert_eq!(whole_seconds(true, 5, 999_999_999), Some(5));
    assert_eq!(whole_seconds(false, 0, 0), Some(0));
    assert_eq!(whole_seconds(false, 0, 1), Some(-1));
    assert_eq!(whole_seconds(false, 5, 0), Some(-5));
    assert_eq!(whole_seconds(false, 5, 500_000_000), Some(-6));
}

#[test]
fn whole_seconds_that_do_not_fit() {
    let max = i64::MAX as u64;
    assert_eq!(whole_seconds(true, max, 0), Some(i64::MAX));
    assert_eq!(whole_seconds(true, max + 1, 0), None);
    assert_eq!(whole_seconds(true, u64::MAX, 0), None);
    assert_eq!(whole_seconds(false, max, 0), Some(-i64::MAX));
    assert_eq!(whole_seconds(false, max, 1), Some(i64::MIN));
    assert_eq!(whole_seconds(false, max + 1, 0), Some(i64::MIN));
    assert_eq!(whole_seconds(false, max + 1, 1), None);
    assert_eq!(whole_seconds(false, u64::MAX, 0), None);
}

#[test]
fn row_from_takes_the_formatted_texts() {
    let e = Entry::new("a.txt".to_string(), EntryKind::File { size: Some(3) }, Some(1));
    let row = row_from(&e, Some("earlier".to_string()), Some("3 B".to_string()));
    assert_eq!(row.name, "a.txt");
    assert!(!row.is_dir);
    assert_eq!(row.modified, "earlier");
    assert_eq!(row.size, "3 B");
}

#[test]
fn row_from_shows_a_placeholder_for_what_is_missing() {
    let e = Entry::new("d".to_string(), EntryKind::Directory, None);
    let row = row_from(&e, None, None);
    assert_eq!(row.name, "d");
    assert!(row.is_dir);
    assert_eq!(row.modified, "-");
    assert_eq!(row.size, "-");
}

#[test]
fn describe_formats_the_epoch() {
    let e = Entry::new("f".to_string(), EntryKind::File { size: Some(0) }, Some(0));
    let row = describe(&e);
    assert_eq!(row.modified, "1970-01-01 00:00:00");
    assert_eq!(row.size, "0 B");
}

#[test]
fn describe_formats_a_moment_to_the_second() {
    let e = Entry::new("f".to_string(), EntryKind::File { size: Some(10) }, Some(1_546_300_800));
    assert_eq!(describe(&e).modified, "2019-01-01 00:00:00");
    let e = Entry::new("f".to_string(), EntryKind::File { size: Some(10) }, Some(1_700_000_000));
    assert_eq!(describe(&e).modified, "2023-11-14 22:13:20");
    let e = Entry::new("f".to_string(), EntryKind::File { size: Some(10) }, Some(-1));
    assert_eq!(describe(&e).modified, "1969-12-31 23:59:59");
}

#[test]
fn describe_formats_sizes_in_binary_units() {
    let size = |n: u64| describe(&Entry::new("f".to_string(), EntryKind::File { size: Some(n) }, None)).size;
    assert_eq!(size(10), "10 B");
    assert_eq!(size(1023), "1023 B");
    assert_eq!(size(1024), "1 KiB");
    assert_eq!(size(1536), "1.50 KiB");
    assert_eq!(size(1024 * 1024), "1 MiB");
    assert_eq!(size(5 * 1024 * 1024 * 1024), "5 GiB");
    assert_eq!(size(u64::MAX), "16 EiB");
}

#[test]
fn describe_shows_a_placeholder_for_an_unknown_time() {
    let e = Entry::new("f".to_string(), EntryKind::File { size: Some(1) }, None);
    let row = describe(&e);
    assert_eq!(row.modified, "-");
    assert_eq!(row.size, "1 B");
}

#[test]
fn describe_shows_a_placeholder_for_a_time_out_of_range() {
    let e = Entry::new("f".to_string(), EntryKind::File { size: Some(1) }, Some(i64::MAX));
    assert_eq!(describe(&e).modified, "-");
    let e = Entry::new("f".to_string(), EntryKind::File { size: Some(1) }, Some(i64::MIN));
    assert_eq!(describe(&e).modified, "-");
}

#[test]
fn describe_shows_a_placeholder_for_an_unknown_size() {
    let e = Entry::new("f".to_string(), EntryKind::File { size: None }, Some(0));
    let row = describe(&e);
    assert!(!row.is_dir);
    assert_eq!(row.size, "-");
    assert_eq!(row.modified, "1970-01-01 00:00:00");
}

#[test]
fn describe_shows_no_size_for_a_directory() {
    let e = Entry::new("d".to_string(), EntryKind::Directory, Some(0));
    let row = describe(&e);
    assert!(row.is_dir);
    assert_eq!(row.size, "-");
    assert_eq!(row.modified, "1970-01-01 00:00:00");
}

#[test]
fn describe_shows_neither_mark_nor_size_for_other_nodes() {
    let e = Entry::new("socket".to_string(), EntryKind::Other, None);
    let row = describe(&e);
    assert!(!row.is_dir);
    assert_eq!(row.size, "-");
    assert_eq!(row.modified, "-");
}

#[test]
fn describe_all_keeps_the_order() {
    let entries = vec![
        Entry::new("b".to_string(), EntryKind::File { size: Some(2048) }, Some(60)),
        Entry::new("a".to_string(), EntryKind::Directory, None),
    ];
    let rows = describe_all(&entries);
    assert_eq!(rows.len(), 2);
    assert_eq!(rows[0].name, "b");
    assert_eq!(rows[0].modified, "1970-01-01 00:01:00");
    assert_eq!(rows[0].size, "2 KiB");
    assert_eq!(rows[1].name, "a");
    assert!(rows[1].is_dir);
    assert_eq!(rows[1].modified, "-");
    assert_eq!(rows[1].size, "-");
}
