use win_git_status::direntry::FileStat;
use win_git_status::dirstat::{DirRecord, DirectoryStat};

// The time of the file system for a number of seconds and nanoseconds since
// the Unix epoch.
fn filetime(seconds: u64, nanos: u64) -> u64 {
    116444736000000000 + seconds * 10_000_000 + nanos / 100
}

fn file_record(name: &str) -> DirRecord {
    DirRecord {
        name: name.to_string(),
        attributes: 0x20,
        last_write_time: filetime(1_600_000_000, 123_456_700),
        end_of_file: name.len() as u64,
    }
}

fn dir_record(name: &str) -> DirRecord {
    DirRecord {
        name: name.to_string(),
        attributes: 0x10,
        last_write_time: filetime(1_600_000_000, 0),
        end_of_file: 0,
    }
}

fn temp_tree(files: Vec<&str>) -> Vec<DirRecord> {
    let mut records = vec![dir_record("."), dir_record("..")];
    for file in files {
        records.push(file_record(file));
    }
    records
}

// The bytes of one record of directory information.
fn information_record(next: u32, name: &str, attributes: u32, time: u64, size: u64) -> Vec<u8> {
    let units: Vec<u16> = name.encode_utf16().collect();
    let mut record = vec![];
    record.extend(&next.to_le_bytes());
    record.extend(&7u32.to_le_bytes());
    record.extend(&1u64.to_le_bytes());
    record.extend(&2u64.to_le_bytes());
    record.extend(&time.to_le_bytes());
    record.extend(&3u64.to_le_bytes());
    record.extend(&size.to_le_bytes());
    record.extend(&4096u64.to_le_bytes());
    record.extend(&attributes.to_le_bytes());
    record.extend(&((units.len() * 2) as u32).to_le_bytes());
    record.extend(&0u32.to_le_bytes());
    for unit in units {
        record.extend(&unit.to_le_bytes());
    }
    record
}

// Records one behind the other, each padded to a multiple of eight bytes.
fn information(items: &[(&str, u32, u64, u64)]) -> Vec<u8> {
    let mut buffer = vec![];
    for (i, (name, attributes, time, size)) in items.iter().enumerate() {
        let mut record = information_record(0, name, *attributes, *time, *size);
        while record.len() % 8 != 0 {
            record.push(0);
        }
        if i + 1 < items.len() {
            let next = record.len() as u32;
            record[0..4].copy_from_slice(&next.to_le_bytes());
        }
        buffer.extend(record);
    }
    buffer
}

#[test]
fn test_one_entry_in_dir_stat() {
    let names = vec!["one"];
    let records = temp_tree(names);

    let dirstat = DirectoryStat::new("some/dir", &records);
    assert_eq!(dirstat.len(), 1);
    assert_eq!(dirstat.directory(), "some/dir");

    let mtime = 1_600_000_000_123_456_700u128;
    let size = 3;
    assert_eq!(dirstat.get("one").unwrap(), FileStat { mtime, size });
}

#[test]
fn test_multiple_entries_in_dir_stat() {
    let names = vec!["what", "who", "why"];
    let records = temp_tree(names.clone());

    let dirstat = DirectoryStat::new("", &records);
    assert_eq!(dirstat.len(), names.len());

    for name in names {
        let mtime = 1_600_000_000_123_456_700u128;
        let size = name.len() as u32;
        assert_eq!(dirstat.get(name).unwrap(), FileStat { mtime, size });
    }
}

#[test]
fn test_a_directory_in_dir_stat() {
    let names = vec!["sure", "you_know", "how"];
    let mut records = temp_tree(names.clone());
    records.insert(3, dir_record("some_dir"));

    let dirstat = DirectoryStat::new("", &records);
    assert_eq!(dirstat.len(), names.len());

    for name in names {
        assert!(dirstat.get(name).is_some());
    }
    assert!(dirstat.get("some_dir").is_none());
    assert!(dirstat.get(".").is_none());
}

#[test]
fn test_no_entries_in_dir_stat() {
    let records = temp_tree(vec![]);

    let dirstat = DirectoryStat::new("", &records);
    assert_eq!(dirstat.len(), 0);
    assert!(dirstat.get("anything").is_none());
}

#[test]
fn a_later_record_replaces_an_earlier_one_of_the_same_name() {
    let mut first = file_record("same");
    first.end_of_file = 1;
    let mut second = file_record("same");
    second.end_of_file = 2;
    let dirstat = DirectoryStat::new("", &vec![first, file_record("other"), second]);
    assert_eq!(dirstat.len(), 2);
    assert_eq!(dirstat.get("same").unwrap().size, 2);
}

#[test]
fn files_are_found_whatever_the_order_of_the_records() {
    let names = ["m", "b", "z", "a", "y", "c", "B", "é", "a.b", "a-b", "ab"];
    let records: Vec<DirRecord> = names.iter().map(|n| file_record(n)).collect();
    let dirstat = DirectoryStat::new("", &records);
    assert_eq!(dirstat.len(), names.len());
    for name in names {
        assert_eq!(dirstat.get(name).unwrap().size, name.len() as u32);
    }
    for absent in ["", "A", "aa", "zz", "n"] {
        assert!(dirstat.get(absent).is_none());
    }
}

#[test]
fn inserting_records_a_file_or_replaces_it() {
    let mut dirstat = DirectoryStat::empty("d");
    dirstat.insert("b".to_string(), FileStat { mtime: 1, size: 1 });
    dirstat.insert("a".to_string(), FileStat { mtime: 2, size: 2 });
    dirstat.insert("b".to_string(), FileStat { mtime: 3, size: 3 });
    assert_eq!(dirstat.len(), 2);
    assert_eq!(dirstat.get("a"), Some(FileStat { mtime: 2, size: 2 }));
    assert_eq!(dirstat.get("b"), Some(FileStat { mtime: 3, size: 3 }));
    assert_eq!(dirstat.get("c"), None);
}

#[test]
fn the_time_is_in_nanoseconds_since_the_unix_epoch() {
    assert_eq!(DirectoryStat::windows_time_to_git_time(116444736000000000), 0);
    assert_eq!(DirectoryStat::windows_time_to_git_time(116444736000000001), 100);
    assert_eq!(
        DirectoryStat::windows_time_to_git_time(132_000_000_000_000_000),
        1_555_526_400_000_000_000
    );
    // A time before the epoch.
    assert_eq!(DirectoryStat::windows_time_to_git_time(116444735999999999), 0);
    assert_eq!(DirectoryStat::windows_time_to_git_time(0), 0);
    assert_eq!(
        DirectoryStat::windows_time_to_git_time(u64::MAX),
        (u64::MAX as u128 - 116444736000000000) * 100
    );
}

#[test]
fn the_size_is_cut_to_its_low_32_bits() {
    let mut record = file_record("big");
    record.end_of_file = 0x1_0000_0005;
    let dirstat = DirectoryStat::new("", &vec![record]);
    assert_eq!(dirstat.get("big").unwrap().size, 5);
}

#[test]
fn a_name_is_read_from_utf16() {
    let bytes: Vec<u8> = "né.txt".encode_utf16().flat_map(|u| u.to_le_bytes()).collect();
    assert_eq!(DirectoryStat::read_string(&bytes, bytes.len()), Some("né.txt".to_string()));
    assert_eq!(DirectoryStat::read_string(&bytes, 4), Some("né".to_string()));
    assert_eq!(DirectoryStat::read_string(&bytes, 5), Some("né".to_string()));
    assert_eq!(DirectoryStat::read_string(&bytes, 0), Some("".to_string()));
    // More than the buffer holds.
    assert_eq!(DirectoryStat::read_string(&bytes, bytes.len() + 2), None);
    // A lone surrogate.
    assert_eq!(DirectoryStat::read_string(&[0x00, 0xd8, 0x41, 0x00], 4), None);
    // A pair of surrogates.
    assert_eq!(
        DirectoryStat::read_string(&[0x3d, 0xd8, 0x00, 0xde], 4),
        Some("\u{1F600}".to_string())
    );
}

#[test]
fn records_are_read_out_of_a_buffer_of_directory_information() {
    let time = filetime(1_700_000_000, 500);
    let buffer = information(&[
        (".", 0x10, time, 0),
        ("..", 0x10, time, 0),
        ("a.txt", 0x20, time, 12),
        ("dir", 0x10, time, 0),
        ("ünï.rs", 0x80, time + 1, 0x2_0000_0001),
    ]);
    let records = DirectoryStat::get_dir_stats(&buffer);
    assert_eq!(
        records,
        vec![
            DirRecord { name: ".".to_string(), attributes: 0x10, last_write_time: time, end_of_file: 0 },
            DirRecord { name: "..".to_string(), attributes: 0x10, last_write_time: time, end_of_file: 0 },
            DirRecord {
                name: "a.txt".to_string(),
                attributes: 0x20,
                last_write_time: time,
                end_of_file: 12
            },
            DirRecord { name: "dir".to_string(), attributes: 0x10, last_write_time: time, end_of_file: 0 },
            DirRecord {
                name: "ünï.rs".to_string(),
                attributes: 0x80,
                last_write_time: time + 1,
                end_of_file: 0x2_0000_0001
            },
        ]
    );
    let dirstat = DirectoryStat::new("d", &records);
    assert_eq!(dirstat.len(), 2);
    assert_eq!(
        dirstat.get("a.txt"),
        Some(FileStat { mtime: 1_700_000_000_000_000_500, size: 12 })
    );
    assert_eq!(
        dirstat.get("ünï.rs"),
        Some(FileStat { mtime: 1_700_000_000_000_000_600, size: 1 })
    );
}

#[test]
fn a_buffer_that_ends_early_gives_the_records_before_its_end() {
    let time = filetime(1, 0);
    let whole = information(&[("first", 0x20, time, 1), ("second", 0x20, time, 2)]);
    assert_eq!(DirectoryStat::get_dir_stats(&whole).len(), 2);
    // The second record is cut before its name starts.
    let cut = &whole[..whole.len() - 20];
    let records = DirectoryStat::get_dir_stats(cut);
    assert_eq!(records.len(), 1);
    assert_eq!(records[0].name, "first");
    assert_eq!(DirectoryStat::get_dir_stats(&[]), vec![]);
    assert_eq!(DirectoryStat::get_dir_stats(&whole[..67]), vec![]);
    // The first record points behind the end of the buffer.
    let mut beyond = information(&[("only", 0x20, time, 1)]);
    beyond[0..4].copy_from_slice(&10_000u32.to_le_bytes());
    assert_eq!(DirectoryStat::get_dir_stats(&beyond).len(), 1);
}

#[test]
fn a_record_with_a_malformed_name_is_passed_over() {
    let time = filetime(1, 0);
    let mut buffer = information(&[("ab", 0x20, time, 1), ("ok", 0x20, time, 2)]);
    // The first name becomes a lone surrogate followed by `b`.
    buffer[68] = 0x00;
    buffer[69] = 0xd8;
    let records = DirectoryStat::get_dir_stats(&buffer);
    assert_eq!(records.len(), 1);
    assert_eq!(records[0].name, "ok");
}
