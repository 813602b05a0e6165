use win_git_status::status::{Status, StatusEntry};
use win_git_status::tree::{INDEX_DELETED, INDEX_MODIFIED, INDEX_NEW};
use win_git_status::TreeDiff;

#[test]
fn test_get_tree_diff_empty_repo() {
    assert_eq!(TreeDiff::convert_git2_to_treediff(vec![]), TreeDiff::default());
}

#[test]
fn test_get_tree_diff_1_file_changed() {
    let names = vec!["one.baz"];
    let diff = TreeDiff::convert_git2_to_treediff(vec![(names[0].to_string(), INDEX_MODIFIED)]);
    assert_eq!(
        diff,
        TreeDiff {
            entries: vec![StatusEntry {
                name: names[0].to_string(),
                state: Status::Modified(None)
            }]
        }
    );
}

#[test]
fn test_get_tree_diff_a_new_file() {
    let new_file = "hello/dir/name.txt";
    let diff = TreeDiff::convert_git2_to_treediff(vec![(new_file.to_string(), INDEX_NEW)]);
    assert_eq!(
        diff,
        TreeDiff {
            entries: vec![StatusEntry {
                name: new_file.to_string(),
                state: Status::New
            }]
        }
    );
}

#[test]
fn test_get_tree_diff_a_deleted_file() {
    let names = vec!["one.baz", "what.foo", "a/nested/flie"];
    let diff = TreeDiff::convert_git2_to_treediff(vec![(names[1].to_string(), INDEX_DELETED)]);
    assert_eq!(
        diff,
        TreeDiff {
            entries: vec![StatusEntry {
                name: names[1].to_string(),
                state: Status::Deleted
            }]
        }
    );
}

#[test]
fn the_staged_changes_keep_their_order() {
    let diff = TreeDiff::convert_git2_to_treediff(vec![
        ("b".to_string(), INDEX_DELETED),
        ("a".to_string(), INDEX_NEW),
        ("c".to_string(), INDEX_MODIFIED),
    ]);
    let states: Vec<(&str, &Status)> =
        diff.entries.iter().map(|e| (e.name.as_str(), &e.state)).collect();
    assert_eq!(
        states,
        vec![("b", &Status::Deleted), ("a", &Status::New), ("c", &Status::Modified(None))]
    );
}

#[test]
fn the_three_supported_flags_have_their_states() {
    assert_eq!(TreeDiff::git2_status_to_treediff_status(1), Status::New);
    assert_eq!(TreeDiff::git2_status_to_treediff_status(2), Status::Modified(None));
    assert_eq!(TreeDiff::git2_status_to_treediff_status(4), Status::Deleted);
}

#[test]
fn unsupported_flags_are_told_apart() {
    assert!(TreeDiff::is_supported(INDEX_NEW));
    assert!(TreeDiff::is_supported(INDEX_MODIFIED));
    assert!(TreeDiff::is_supported(INDEX_DELETED));
    // A path new in the working tree, a renamed one, two flags at once, none.
    for flags in [128u32, 8, 16, 3, 6, 0, u32::MAX] {
        assert!(!TreeDiff::is_supported(flags));
    }
    assert!(TreeDiff::supports(&vec![]));
    assert!(TreeDiff::supports(&vec![("a".to_string(), 1), ("b".to_string(), 4)]));
    assert!(!TreeDiff::supports(&vec![("a".to_string(), 1), ("b".to_string(), 128)]));
}
