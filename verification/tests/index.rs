use win_git_status::directories::DirectoryMap;
use win_git_status::direntry::{DirEntry, FileStat, ObjectType};
use win_git_status::error::{ErrorKind, IndexFault};
use win_git_status::index::{parse_name_size, Header, Index};

// The bytes of one index entry whose fixed fields are all zero but the object id.
fn plain_entry(name: &[u8], sha: &[u8; 20]) -> Vec<u8> {
    let mut stream: Vec<u8> = vec![0; 40];
    stream.extend(sha);
    let name_length: u16 = name.len() as u16;
    stream.extend(&name_length.to_be_bytes());
    stream.extend(name);
    let pad_length = 8 - ((62 + name_length) % 8);
    stream.extend(vec![0; pad_length as usize]);
    stream
}

// The bytes of an index file with an entry for each path, in the given order.
fn index_file(version: u32, paths: &[&str]) -> Vec<u8> {
    let mut stream: Vec<u8> = vec![];
    stream.extend(b"DIRC");
    stream.extend(&version.to_be_bytes());
    stream.extend(&(paths.len() as u32).to_be_bytes());
    for path in paths {
        stream.extend(plain_entry(path.as_bytes(), b"abacadaba2376182368a"));
    }
    stream
}

fn names_in(index: &Index, directory: &str) -> Vec<String> {
    index.entries.get(directory).unwrap().iter().map(|e| e.name.clone()).collect()
}

#[test]
fn test_read_header_version_2() {
    let version: u32 = 2;
    let entries: u32 = 3;
    let mut header: Vec<u8> = vec![];
    header.extend(b"DIRC");
    header.extend(&version.to_be_bytes());
    header.extend(&entries.to_be_bytes());
    assert_eq!(
        Index::read_header(&header),
        Ok((&b""[..], Header { version, entries }))
    );
}

#[test]
fn test_read_header_version_3() {
    let version: u32 = 3;
    let entries: u32 = 9;
    let mut header: Vec<u8> = vec![];
    header.extend(b"DIRC");
    header.extend(&version.to_be_bytes());
    header.extend(&entries.to_be_bytes());
    assert_eq!(
        Index::read_header(&header),
        Ok((&b""[..], Header { version, entries }))
    );
}

#[test]
fn test_read_header_leaves_subsequent_bytes_in_stream() {
    let version: u32 = 4;
    let entries: u32 = 2;
    let mut header: Vec<u8> = vec![];
    header.extend(b"DIRC");
    header.extend(&version.to_be_bytes());
    header.extend(&entries.to_be_bytes());
    header.extend(b"tail stuff");
    assert_eq!(
        Index::read_header(&header),
        Ok((&b"tail stuff"[..], Header { version, entries }))
    );
}

#[test]
fn test_read_of_file_entry() {
    let name = b"some/file/name";
    let sha = b"abacadaba2376182368a";
    let mut stream: Vec<u8> = vec![];
    let ctime: u64 = 10;
    stream.extend(&ctime.to_be_bytes());
    let mtime_s: u32 = 20;
    stream.extend(&mtime_s.to_be_bytes());
    let mtime_ns: u32 = 25;
    stream.extend(&mtime_ns.to_be_bytes());
    let dev: u32 = 30;
    stream.extend(&dev.to_be_bytes());
    let ino: u32 = 30;
    stream.extend(&ino.to_be_bytes());
    let mode: u32 = 40;
    stream.extend(&mode.to_be_bytes());
    let uid: u32 = 50;
    stream.extend(&uid.to_be_bytes());
    let gid: u32 = 60;
    stream.extend(&gid.to_be_bytes());
    let file_size: u32 = 70;
    stream.extend(&file_size.to_be_bytes());
    stream.extend(sha);
    let name_length: u16 = name.len() as u16;
    stream.extend(&name_length.to_be_bytes());
    stream.extend(name);
    let pad_length = 8 - ((62 + name_length) % 8);
    stream.extend(vec![0; pad_length as usize]);
    assert_eq!(
        Index::read_entry(&stream),
        Ok((
            &b""[..],
            (
                "some/file".to_string(),
                DirEntry {
                    stat: FileStat {
                        mtime: (20 * 1_000_000_000) + 25,
                        size: 70,
                    },
                    sha: *sha,
                    object_type: ObjectType::Regular,
                    name: "name".to_string(),
                    mode: 40,
                }
            )
        ))
    );
}

#[test]
fn test_read_entry_new_name_irrelevant_prefix() {
    let name = b"a/different/name/to/a/file/with.ext";
    let sha = b"ab7ca9aba237a18e3f8a";
    let stream = plain_entry(name, sha);
    assert_eq!(
        Index::read_entry(&stream),
        Ok((
            &b""[..],
            (
                "a/different/name/to/a/file".to_string(),
                DirEntry {
                    object_type: ObjectType::Regular,
                    stat: FileStat { mtime: 0, size: 0 },
                    sha: *sha,
                    name: "with.ext".to_string(),
                    mode: 0,
                }
            )
        ))
    );
}

#[test]
fn test_read_of_file_entry_leaves_remainder() {
    let name = b"a/file";
    let sha = b"ab7ca9aba237a18e3f8a";
    let mut stream = plain_entry(name, sha);
    let suffix = b"what";
    stream.extend(suffix);
    let read = Index::read_entry(&stream);
    assert_eq!(
        read,
        Ok((
            &suffix[..],
            (
                "a".to_string(),
                DirEntry {
                    object_type: ObjectType::Regular,
                    stat: FileStat { mtime: 0, size: 0 },
                    sha: *sha,
                    name: "file".to_string(),
                    mode: 0,
                }
            )
        ))
    );
}

#[test]
fn test_read_of_file_entry_leaves_remainder_when_no_pad_needed() {
    let name = b"niners999";
    let sha = b"ab7ca9aba437ae8e3f8a";
    let mut stream: Vec<u8> = vec![0; 40];
    stream.extend(sha);
    let name_length: u16 = name.len() as u16;
    stream.extend(&name_length.to_be_bytes());
    stream.extend(name);
    let pad_length = 1;
    stream.extend(vec![0; pad_length as usize]);
    let suffix = b"sure";
    stream.extend(suffix);
    let read = Index::read_entry(&stream);
    assert_eq!(
        read,
        Ok((
            &suffix[..],
            (
                "".to_string(),
                DirEntry {
                    object_type: ObjectType::Regular,
                    stat: FileStat { mtime: 0, size: 0 },
                    sha: *sha,
                    name: "niners999".to_string(),
                    mode: 0,
                }
            )
        ))
    );
}

#[test]
fn test_read_of_file_entry_leaves_remainder_when_full_pad_needed() {
    let name = b"22";
    let sha = b"ab7ca9aba437ae8e3f8a";
    let mut stream: Vec<u8> = vec![0; 40];
    stream.extend(sha);
    let name_length: u16 = name.len() as u16;
    stream.extend(&name_length.to_be_bytes());
    stream.extend(name);
    let pad_length = 8;
    stream.extend(vec![0; pad_length as usize]);
    let suffix = b"Iknow";
    stream.extend(suffix);
    let read = Index::read_entry(&stream);
    assert_eq!(
        read,
        Ok((
            &suffix[..],
            (
                "".to_string(),
                DirEntry {
                    object_type: ObjectType::Regular,
                    stat: FileStat { mtime: 0, size: 0 },
                    sha: *sha,
                    name: "22".to_string(),
                    mode: 0,
                }
            )
        ))
    );
}

#[test]
fn test_get_directory_entry_at_root() {
    let rooted_dir = "";
    let mut map = DirectoryMap::new();
    Index::get_directory_entry(rooted_dir, &mut map);
    assert_eq!(true, map.len() == 1 && map.contains_key(""));
}

#[test]
fn test_get_directory_3_levels_deep() {
    let deep_dir = "1/2/3";
    let mut map = DirectoryMap::new();
    Index::get_directory_entry(deep_dir, &mut map);

    let directories = vec!["", "1", "1/2", "1/2/3"];
    assert_eq!(
        true,
        map.len() == directories.len() && directories.iter().all(|d| map.contains_key(*d))
    );
}

#[test]
fn test_merged_file() {
    let version: u32 = 2;
    let entries: u32 = 2;
    let name = b"some_file";
    let sha = b"abacadaba2376182368a";
    let mut stream: Vec<u8> = vec![];
    stream.extend(b"DIRC");
    stream.extend(&version.to_be_bytes());
    stream.extend(&entries.to_be_bytes());
    for entry in 0..entries {
        let ctime: u64 = 10;
        stream.extend(&ctime.to_be_bytes());
        let mtime_s: u32 = 20;
        stream.extend(&mtime_s.to_be_bytes());
        let mtime_ns: u32 = 25;
        stream.extend(&mtime_ns.to_be_bytes());
        let dev: u32 = 30;
        stream.extend(&dev.to_be_bytes());
        let ino: u32 = 30;
        stream.extend(&ino.to_be_bytes());
        let mode: u32 = 40;
        stream.extend(&mode.to_be_bytes());
        let uid: u32 = 50;
        stream.extend(&uid.to_be_bytes());
        let gid: u32 = 60;
        stream.extend(&gid.to_be_bytes());
        let file_size: u32 = 70;
        stream.extend(&file_size.to_be_bytes());
        stream.extend(sha);
        let mut name_length: u16 = name.len() as u16;
        // The stage stands in the two bits above the length.
        let stage = match entry {
            0 => 0,
            _ => 0b0001000000000000,
        };
        name_length |= stage;
        stream.extend(&name_length.to_be_bytes());
        stream.extend(name);
        let pad_length = 8 - ((62 + name_length) % 8);
        stream.extend(vec![0; pad_length as usize]);
    }
    let index = Index::new(&stream).unwrap();
    let root = index.entries.get("").unwrap();

    assert_eq!(root.len(), 2);
}

#[test]
fn index_has_one_entry() {
    let index = Index::new(&index_file(2, &["some_file.txt"])).unwrap();
    assert_eq!(index.entries.len(), 1);
    assert_eq!(index.entries.get("").unwrap().len(), 1);
}

#[test]
fn index_has_three_entries_in_order() {
    let mut names = vec!["one.baz", "two.txt", "three.md"];
    // An index file lists its paths in order.
    names.sort();
    let index = Index::new(&index_file(2, &names)).unwrap();

    assert_eq!(index.entries.len(), 1);
    assert_eq!(names_in(&index, ""), names);
}

#[test]
fn index_has_nested_entries_in_order() {
    let mut names = vec!["dir_3/file_2.txt", "dir_2/file_1.txt", "absolute.md"];
    names.sort();
    let index = Index::new(&index_file(3, &names)).unwrap();

    assert_eq!(index.entries.len(), 3);
    assert_eq!(names_in(&index, ""), vec!["absolute.md"]);
    assert_eq!(names_in(&index, "dir_2"), vec!["file_1.txt"]);
    assert_eq!(names_in(&index, "dir_3"), vec!["file_2.txt"]);
}

#[test]
fn index_has_more_deeply_nested_entries() {
    let names = vec!["dir_1/dir_2/dir_3/file.txt"];
    let index = Index::new(&index_file(2, &names)).unwrap();

    assert_eq!(index.entries.len(), 4);
    assert_eq!(index.entries.get("dir_1/dir_2/dir_3").unwrap()[0].name, "file.txt");
    assert_eq!(index.entries.get("dir_1/dir_2").unwrap().len(), 0);
    assert_eq!(index.entries.get("dir_1").unwrap().len(), 0);
    assert_eq!(index.entries.get("").unwrap().len(), 0);
    assert!(index.entries.get("dir_2").is_none());
}

#[test]
fn entries_come_out_sorted_whatever_their_order_in_the_file() {
    let index = Index::new(&index_file(2, &["b/z", "a", "b/y", "c", "b/x"])).unwrap();
    assert_eq!(names_in(&index, ""), vec!["a", "c"]);
    assert_eq!(names_in(&index, "b"), vec!["x", "y", "z"]);
}

#[test]
fn names_are_ordered_by_their_bytes() {
    let index = Index::new(&index_file(2, &["b", "B", "a.txt", "a", "a-b", "Z", "é"])).unwrap();
    assert_eq!(names_in(&index, ""), vec!["B", "Z", "a", "a-b", "a.txt", "b", "é"]);
}

#[test]
fn an_index_without_entries_has_no_directories() {
    let index = Index::new(&index_file(2, &[])).unwrap();
    assert_eq!(index.entries.len(), 0);
    assert!(index.entries.get("").is_none());
    assert!(!index.entries.contains_key(""));
}

#[test]
fn the_object_id_of_an_index_is_the_checksum_at_its_end() {
    let checksum: Vec<u8> = (1u8..=20).collect();
    let mut stream = index_file(2, &["a", "b/c"]);
    stream.extend(&checksum);
    let index = Index::new(&stream).unwrap();
    assert_eq!(index.oid(), &checksum[..]);
    assert_eq!(index.oid, checksum[..]);
    assert_eq!(index.header, Header { version: 2, entries: 2 });

    // Extensions stand between the entries and the checksum.
    let mut stream = index_file(3, &["a"]);
    stream.extend(b"TREE\0\0\0\x04abcd");
    stream.extend(&checksum);
    let index = Index::new(&stream).unwrap();
    assert_eq!(index.oid(), &checksum[..]);

    // A file without entries.
    let mut stream = index_file(2, &[]);
    stream.extend(&checksum);
    assert_eq!(Index::new(&stream).unwrap().oid(), &checksum[..]);

    // More than twenty bytes behind the entries: the last twenty count.
    let mut stream = index_file(2, &["a"]);
    stream.extend(&[9u8; 7]);
    stream.extend(&checksum);
    assert_eq!(Index::new(&stream).unwrap().oid(), &checksum[..]);
}

#[test]
fn an_index_that_ends_before_its_checksum_has_a_zero_object_id() {
    let index = Index::new(&index_file(2, &["a"])).unwrap();
    assert_eq!(index.oid(), &[0u8; 20][..]);
    assert_eq!(index.header, Header { version: 2, entries: 1 });

    let mut stream = index_file(2, &["a"]);
    stream.extend(&[7u8; 19]);
    assert_eq!(Index::new(&stream).unwrap().oid(), &[0u8; 20][..]);

    assert_eq!(Index::from_entries(vec![]).oid(), &[0u8; 20][..]);
}

#[test]
fn an_entry_with_the_extended_flag_is_refused() {
    let sha = b"ab7ca9aba237a18e3f8a";
    let mut stream = plain_entry(b"file", sha);
    stream[60] |= 0b0100_0000;
    assert_eq!(Index::read_entry(&stream), Err(IndexFault::ExtendedFlags));

    // The other three bits above the length are passed over.
    let mut stream = plain_entry(b"file", sha);
    stream[60] |= 0b1011_0000;
    let (_, (_, entry)) = Index::read_entry(&stream).unwrap();
    assert_eq!(entry.name, "file");

    let mut whole = index_file(3, &["a", "b"]);
    whole[12 + 64 + 60] |= 0b0100_0000;
    let error = Index::new(&whole).err().unwrap();
    assert_eq!(error.kind, ErrorKind::IndexParse(IndexFault::ExtendedFlags));
    assert_eq!(error.message, "fatal: index file corrupt: extended flags are not supported");
    // An entry that is cut short before its flags is truncated, whatever they would say.
    assert_eq!(Index::read_entry(&stream[..61]), Err(IndexFault::Truncated));
}

#[test]
fn what_follows_the_entries_is_ignored() {
    let mut stream = index_file(2, &["a", "b"]);
    stream.extend(b"TREE\0\0\0\x04abcd");
    stream.extend(&[7u8; 20]);
    let index = Index::new(&stream).unwrap();
    assert_eq!(names_in(&index, ""), vec!["a", "b"]);
}

#[test]
fn the_mode_gives_the_object_type() {
    let mut stream = plain_entry(b"sub", b"ab7ca9aba237a18e3f8a");
    stream[26] = 0b1110_0000;
    let (_, (_, entry)) = Index::read_entry(&stream).unwrap();
    assert_eq!(entry.object_type, ObjectType::GitLink);
    assert_eq!(entry.mode, 0b1110_0000_0000_0000);

    stream[26] = 0b1010_0000;
    let (_, (_, entry)) = Index::read_entry(&stream).unwrap();
    assert_eq!(entry.object_type, ObjectType::SymLink);

    stream[26] = 0b1000_0001;
    stream[27] = 0b1010_0100;
    let (_, (_, entry)) = Index::read_entry(&stream).unwrap();
    assert_eq!(entry.object_type, ObjectType::Regular);
    assert_eq!(entry.mode, 0o100644);
}

#[test]
fn the_time_keeps_its_nanoseconds() {
    let mut stream = plain_entry(b"f", b"ab7ca9aba237a18e3f8a");
    stream[8..12].copy_from_slice(&u32::MAX.to_be_bytes());
    stream[12..16].copy_from_slice(&999_999_999u32.to_be_bytes());
    stream[36..40].copy_from_slice(&u32::MAX.to_be_bytes());
    let (_, (_, entry)) = Index::read_entry(&stream).unwrap();
    assert_eq!(entry.stat.mtime, 4_294_967_295_999_999_999u128);
    assert_eq!(entry.stat.size, u32::MAX);
}

#[test]
fn the_length_field_is_the_low_twelve_bits() {
    assert_eq!(parse_name_size(&[0x00, 0x09]), Ok((&b""[..], 9)));
    assert_eq!(parse_name_size(&[0xF0, 0x09, b'n']), Ok((&b"n"[..], 9)));
    assert_eq!(parse_name_size(&[0x3F, 0xFF]), Ok((&b""[..], 0xFFF)));
    assert_eq!(parse_name_size(&[0x10, 0x00]), Ok((&b""[..], 0)));
    assert_eq!(parse_name_size(&[0x10]), Err(IndexFault::Truncated));
    assert_eq!(parse_name_size(&[]), Err(IndexFault::Truncated));
}

#[test]
fn a_long_name_runs_up_to_the_first_zero_byte() {
    let name = vec![b'n'; 5000];
    let mut stream: Vec<u8> = vec![0; 60];
    stream.extend(&0x0FFFu16.to_be_bytes());
    stream.extend(&name);
    let pad_length = 8 - ((62 + name.len()) % 8);
    stream.extend(vec![0; pad_length]);
    stream.extend(b"rest");
    let (rest, (directory, entry)) = Index::read_entry(&stream).unwrap();
    assert_eq!(rest, &b"rest"[..]);
    assert_eq!(directory, "");
    assert_eq!(entry.name.len(), 5000);

    // A name of exactly 4095 bytes is read the same way.
    let name = vec![b'n'; 4095];
    let mut stream: Vec<u8> = vec![0; 60];
    stream.extend(&0x0FFFu16.to_be_bytes());
    stream.extend(&name);
    stream.extend(vec![0; 3]);
    let (rest, (_, entry)) = Index::read_entry(&stream).unwrap();
    assert_eq!(rest, &b""[..]);
    assert_eq!(entry.name.len(), 4095);
}

#[test]
fn a_wrong_signature_is_refused() {
    let mut stream = index_file(2, &["a"]);
    stream[3] = b'X';
    assert_eq!(Index::read_header(&stream), Err(IndexFault::BadSignature));
    let error = Index::new(&stream).err().unwrap();
    assert_eq!(error.kind, ErrorKind::IndexParse(IndexFault::BadSignature));
    assert_eq!(error.message, "fatal: index file corrupt: bad signature");
}

#[test]
fn an_unsupported_version_is_refused() {
    for version in [0u32, 1, 4, 5] {
        let error = Index::new(&index_file(version, &["a"])).err().unwrap();
        assert_eq!(error.kind, ErrorKind::IndexParse(IndexFault::UnsupportedVersion));
        assert_eq!(error.message, "fatal: index file corrupt: bad index version");
    }
    assert!(Index::new(&index_file(2, &["a"])).is_ok());
    assert!(Index::new(&index_file(3, &["a"])).is_ok());
}

#[test]
fn a_truncated_file_is_refused() {
    assert_eq!(Index::read_header(b""), Err(IndexFault::Truncated));
    assert_eq!(Index::read_header(b"DIR"), Err(IndexFault::Truncated));
    assert_eq!(Index::read_header(b"DIRC\0\0\0\x02\0\0\0"), Err(IndexFault::Truncated));

    let whole = index_file(2, &["a", "b/c"]);
    for cut in 12..whole.len() {
        let error = Index::new(&whole[..cut]).err().unwrap();
        assert_eq!(error.kind, ErrorKind::IndexParse(IndexFault::Truncated));
        assert_eq!(error.message, "fatal: index file smaller than expected");
    }
    assert!(Index::new(&whole).is_ok());

    // More entries announced than the file holds.
    let mut short = index_file(2, &["a"]);
    short[11] = 2;
    let error = Index::new(&short).err().unwrap();
    assert_eq!(error.kind, ErrorKind::IndexParse(IndexFault::Truncated));
}

#[test]
fn a_malformed_name_is_refused() {
    let sha = b"ab7ca9aba237a18e3f8a";
    assert_eq!(Index::read_entry(&plain_entry(b"", sha)), Err(IndexFault::BadName));
    assert_eq!(Index::read_entry(&plain_entry(b"dir/", sha)), Err(IndexFault::BadName));
    assert_eq!(Index::read_entry(&plain_entry(b"a/\xff", sha)), Err(IndexFault::BadName));
    assert_eq!(Index::read_entry(&plain_entry(b"\xc3/a", sha)), Err(IndexFault::BadName));

    let mut stream = index_file(2, &["a"]);
    stream.truncate(12);
    stream[11] = 1;
    stream.extend(plain_entry(b"dir/", sha));
    let error = Index::new(&stream).err().unwrap();
    assert_eq!(error.kind, ErrorKind::IndexParse(IndexFault::BadName));
    assert_eq!(error.message, "fatal: index file corrupt: malformed entry name");
}

#[test]
fn from_entries_files_each_entry_under_its_directory() {
    let entry = |name: &str| DirEntry { name: name.to_string(), ..Default::default() };
    let index = Index::from_entries(vec![
        ("src/deep".to_string(), entry("b.rs")),
        ("".to_string(), entry("README")),
        ("src/deep".to_string(), entry("a.rs")),
    ]);
    assert_eq!(index.entries.len(), 3);
    assert_eq!(names_in(&index, ""), vec!["README"]);
    assert_eq!(names_in(&index, "src"), Vec::<String>::new());
    assert_eq!(names_in(&index, "src/deep"), vec!["a.rs", "b.rs"]);
}

#[test]
fn many_directories_are_found_whatever_their_order() {
    let mut paths: Vec<String> = vec![];
    let mut seed: u32 = 12345;
    for _ in 0..300 {
        seed = seed.wrapping_mul(1664525).wrapping_add(1013904223);
        let a = (seed >> 8) % 7;
        let b = (seed >> 16) % 5;
        let c = (seed >> 24) % 11;
        paths.push(format!("d{}/e-{}/f.{}/file{}", a, b, c, seed % 3));
    }
    let borrowed: Vec<&str> = paths.iter().map(|p| p.as_str()).collect();
    let index = Index::new(&index_file(2, &borrowed)).unwrap();
    for path in &paths {
        let (directory, name) = path.rsplit_once('/').unwrap();
        let listed = index.entries.get(directory).unwrap();
        let wanted = paths.iter().filter(|p| p.rsplit_once('/').unwrap().0 == directory).count();
        assert_eq!(listed.len(), wanted);
        assert!(listed.windows(2).all(|w| w[0].name.as_bytes() <= w[1].name.as_bytes()));
        assert_eq!(index.entries.entry(directory, name).unwrap().name, name);
        assert!(index.entries.entry(directory, "no such file").is_none());
        let (above, _) = directory.rsplit_once('/').unwrap();
        assert_eq!(index.entries.get(above).unwrap().len(), 0);
        assert!(index.entries.contains_key(above.rsplit_once('/').unwrap().0));
    }
    assert!(index.entries.contains_key(""));
    assert!(!index.entries.contains_key("d0/e-0/f.0/file0"));
    assert!(index.entries.entry("no/such/dir", "file0").is_none());
}

#[test]
fn of_several_entries_of_one_name_the_first_is_found() {
    let entry = |name: &str, size: u32| DirEntry {
        name: name.to_string(),
        stat: FileStat { mtime: 0, size },
        ..Default::default()
    };
    let index = Index::from_entries(vec![
        ("d".to_string(), entry("twin", 1)),
        ("d".to_string(), entry("z", 2)),
        ("d".to_string(), entry("twin", 3)),
        ("d".to_string(), entry("a", 4)),
        ("d".to_string(), entry("twin", 5)),
    ]);
    let listed = index.entries.get("d").unwrap();
    assert_eq!(names_in(&index, "d"), vec!["a", "twin", "twin", "twin", "z"]);
    let found = index.entries.entry("d", "twin").unwrap();
    assert_eq!(found, &listed[1]);
    assert_eq!(found.stat.size, 1);
    assert_eq!(index.entries.entry("d", "a").unwrap().stat.size, 4);
    assert_eq!(index.entries.entry("d", "z").unwrap().stat.size, 2);
}
