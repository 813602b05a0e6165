use win_git_status::names::{
    append_slash, compare_bytes, compare_names, join_path, relative_path, same_name,
    to_unix_separators, NameOrder,
};
use win_git_status::sorting::{insert_by_name, reversed, sort_by_name};
use win_git_status::status::{Status, StatusEntry};

fn named(name: &str, state: Status) -> StatusEntry {
    StatusEntry { name: name.to_string(), state }
}

fn names_of(entries: &Vec<StatusEntry>) -> Vec<&str> {
    entries.iter().map(|e| e.name.as_str()).collect()
}

#[test]
fn bytes_are_compared_one_by_one_and_then_by_length() {
    assert_eq!(compare_bytes(b"", b""), NameOrder::Equal);
    assert_eq!(compare_bytes(b"", b"a"), NameOrder::Less);
    assert_eq!(compare_bytes(b"a", b""), NameOrder::Greater);
    assert_eq!(compare_bytes(b"abc", b"abc"), NameOrder::Equal);
    assert_eq!(compare_bytes(b"abc", b"abd"), NameOrder::Less);
    assert_eq!(compare_bytes(b"abd", b"abc"), NameOrder::Greater);
    assert_eq!(compare_bytes(b"ab", b"abc"), NameOrder::Less);
    assert_eq!(compare_bytes(b"abc", b"ab"), NameOrder::Greater);
    assert_eq!(compare_bytes(b"b", b"abc"), NameOrder::Greater);
    assert_eq!(compare_bytes(&[0xff], &[0x00, 0x01]), NameOrder::Greater);
    assert_eq!(compare_bytes(&[0x7f], &[0x80]), NameOrder::Less);
}

#[test]
fn names_are_compared_by_their_utf8_bytes() {
    assert_eq!(compare_names("a", "b"), NameOrder::Less);
    assert_eq!(compare_names("B", "a"), NameOrder::Less);
    assert_eq!(compare_names("a-b", "a.b"), NameOrder::Less);
    assert_eq!(compare_names("a.b", "a/b"), NameOrder::Less);
    assert_eq!(compare_names("a/b", "ab"), NameOrder::Less);
    assert_eq!(compare_names("z", "é"), NameOrder::Less);
    assert_eq!(compare_names("é", "z"), NameOrder::Greater);
    assert_eq!(compare_names("same", "same"), NameOrder::Equal);
    for (a, b) in [("a", "b"), ("", "x"), ("dir/file", "dir-file"), ("é", "e")] {
        let expected = match a.as_bytes().cmp(b.as_bytes()) {
            std::cmp::Ordering::Less => NameOrder::Less,
            std::cmp::Ordering::Equal => NameOrder::Equal,
            std::cmp::Ordering::Greater => NameOrder::Greater,
        };
        assert_eq!(compare_names(a, b), expected);
    }
    assert!(same_name("x/y", "x/y"));
    assert!(!same_name("x/y", "x/Y"));
    assert!(!same_name("x", "x "));
}

#[test]
fn a_path_is_joined_with_a_slash() {
    assert_eq!(join_path("", "name"), "name");
    assert_eq!(join_path("dir", "name"), "dir/name");
    assert_eq!(join_path("a/b", "c"), "a/b/c");
    assert_eq!(join_path("dir", ""), "dir/");
    assert_eq!(join_path("", ""), "");
    assert_eq!(append_slash("dir".to_string()), "dir/");
    assert_eq!(append_slash("".to_string()), "/");
}

#[test]
fn backslashes_become_slashes() {
    assert_eq!(to_unix_separators("a\\b\\c.txt"), "a/b/c.txt");
    assert_eq!(to_unix_separators("a/b\\c"), "a/b/c");
    assert_eq!(to_unix_separators("plain"), "plain");
    assert_eq!(to_unix_separators(""), "");
    assert_eq!(to_unix_separators("\\"), "/");
    assert_eq!(to_unix_separators("dé\\ü"), "dé/ü");
}

#[test]
fn a_path_is_made_relative_to_a_base() {
    assert_eq!(relative_path("/repo/src/deep", "/repo"), Some("src/deep".to_string()));
    assert_eq!(relative_path("/repo", "/repo"), Some("".to_string()));
    assert_eq!(relative_path("/repo/a", "/repo/b"), Some("../a".to_string()));
    assert_eq!(relative_path("relative", "/absolute"), None);
    assert_eq!(relative_path("work/src", "work"), Some("src".to_string()));
}

#[test]
fn sorting_orders_by_name_and_keeps_equal_names_in_order() {
    let sorted = sort_by_name(vec![
        named("b", Status::New),
        named("a", Status::Deleted),
        named("c", Status::New),
        named("a", Status::New),
        named("B", Status::New),
        named("a", Status::Modified(None)),
    ]);
    assert_eq!(names_of(&sorted), vec!["B", "a", "a", "a", "b", "c"]);
    assert_eq!(sorted[1].state, Status::Deleted);
    assert_eq!(sorted[2].state, Status::New);
    assert_eq!(sorted[3].state, Status::Modified(None));

    assert_eq!(sort_by_name(Vec::<StatusEntry>::new()), vec![]);
    let already = sort_by_name(vec![named("a", Status::New), named("b", Status::New)]);
    assert_eq!(names_of(&already), vec!["a", "b"]);
    let backwards = sort_by_name(vec![
        named("d", Status::New),
        named("c", Status::New),
        named("b", Status::New),
        named("a", Status::New),
    ]);
    assert_eq!(names_of(&backwards), vec!["a", "b", "c", "d"]);
}

#[test]
fn an_item_is_inserted_behind_those_of_its_name() {
    let mut list = vec![named("a", Status::New), named("c", Status::New)];
    insert_by_name(&mut list, named("b", Status::New));
    insert_by_name(&mut list, named("c", Status::Deleted));
    insert_by_name(&mut list, named("0", Status::New));
    insert_by_name(&mut list, named("z", Status::New));
    assert_eq!(names_of(&list), vec!["0", "a", "b", "c", "c", "z"]);
    assert_eq!(list[4].state, Status::Deleted);
}

#[test]
fn a_list_is_reversed() {
    assert_eq!(reversed(vec![1, 2, 3]), vec![3, 2, 1]);
    assert_eq!(reversed(Vec::<u8>::new()), Vec::<u8>::new());
}

#[test]
fn a_long_list_in_no_order_is_sorted() {
    let mut seed: u32 = 7;
    let mut items = vec![];
    for i in 0..2000 {
        seed = seed.wrapping_mul(1103515245).wrapping_add(12345);
        let name = format!("n{}", (seed >> 8) % 500);
        items.push(named(&name, Status::Modified(Some(i.to_string()))));
    }
    let mut expected = items.clone();
    expected.sort_by(|a, b| a.name.as_bytes().cmp(b.name.as_bytes()));
    assert_eq!(sort_by_name(items), expected);
}
