use win_git_status::error::ErrorKind;
use win_git_status::repo_status::{
    decimal, plain_text, short_sha, strip_prefix, Color, RepoStatus, RepositoryState, Span,
    StatusColorSlot, Upstream,
};
use win_git_status::status::{Status, StatusEntry};
use win_git_status::{TreeDiff, WorkTree};

fn entry(name: &str, state: Status) -> StatusEntry {
    StatusEntry { name: name.to_string(), state }
}

// The status of a repository on the branch `tip`, level with `origin/tip`,
// with these staged and unstaged changes.
fn status_of(staged: Vec<StatusEntry>, unstaged: Vec<StatusEntry>) -> RepoStatus {
    RepoStatus::new(
        Some("refs/heads/tip".to_string()),
        vec![0x82, 0x57, 0x8f, 0xa0, 0x11],
        Some(Upstream {
            name: "refs/remotes/origin/tip".to_string(),
            exists: true,
            ahead: 0,
            behind: 0,
        }),
        RepositoryState::Clean,
        TreeDiff { entries: staged },
        WorkTree { entries: unstaged },
    )
}

fn on_branch(branch: &str, upstream: &str, ahead: usize, behind: usize) -> RepoStatus {
    let mut status = status_of(vec![], vec![]);
    status.branch = Some(format!("refs/heads/{}", branch));
    status.upstream = Some(Upstream {
        name: format!("refs/remotes/{}", upstream),
        exists: true,
        ahead,
        behind,
    });
    status
}

fn detached(head: Vec<u8>) -> RepoStatus {
    let mut status = status_of(vec![], vec![]);
    status.branch = None;
    status.head = head;
    status
}

fn text(writer: &Vec<Span>) -> String {
    plain_text(writer)
}

#[test]
fn test_branch_name() {
    let status = on_branch("tip", "origin/tip", 0, 0);
    assert_eq!(status.branch_name().unwrap(), "refs/heads/tip");
}

#[test]
fn test_new_branch_name() {
    let status = on_branch("half", "origin/half", 0, 0);
    assert_eq!(status.branch_name().unwrap(), "refs/heads/half");
}

#[test]
fn test_detached_branch_state() {
    let status = detached(vec![0x82, 0x57, 0x8f, 0xa0]);
    assert_eq!(status.branch_name(), None);
}

#[test]
fn test_branch_message_normal() {
    let status = on_branch("tip", "origin/tip", 0, 0);
    let mut writer = vec![];
    status.write_branch_message(&mut writer);
    assert_eq!(text(&writer), "On branch tip\n");
}

#[test]
fn test_branch_message_different_branch() {
    let status = on_branch("half", "origin/half", 0, 0);
    let mut writer = vec![];
    status.write_branch_message(&mut writer);
    assert_eq!(text(&writer), "On branch half\n");
}

#[test]
fn test_branch_message_detached_parent() {
    let status = detached(vec![0x17, 0xfe, 0x29, 0x9c, 0x00, 0x01]);
    let mut writer = vec![];
    status.write_branch_message(&mut writer);
    assert_eq!(text(&writer), "Head detached at 17fe299\n");
}

#[test]
fn test_branch_message_detached_tip() {
    let status = detached(vec![0x82, 0x57, 0x8f, 0xa3, 0xff]);
    let mut writer = vec![];
    status.write_branch_message(&mut writer);
    assert_eq!(text(&writer), "Head detached at 82578fa\n");
    assert_eq!(
        writer,
        vec![
            Span {
                slot: Some(StatusColorSlot::NoBranch),
                text: "Head detached at ".to_string()
            },
            Span { slot: None, text: "82578fa".to_string() },
            Span { slot: None, text: "\n".to_string() },
        ]
    );
}

#[test]
fn test_remote_branch_difference_same_spot() {
    let status = on_branch("tip", "origin/tip", 0, 0);
    let mut writer = vec![];
    status.write_remote_branch_difference_message(&mut writer);
    let expected = "Your branch is up to date with 'origin/tip'.\n\n";
    assert_eq!(text(&writer), expected);
}

#[test]
fn test_remote_branch_different_remote_name_same_spot() {
    let status = on_branch("half", "origin/half", 0, 0);
    let mut writer = vec![];
    status.write_remote_branch_difference_message(&mut writer);
    let expected = "Your branch is up to date with 'origin/half'.\n\n";
    assert_eq!(text(&writer), expected);
}

#[test]
fn test_behind_remote_branch() {
    let status = on_branch("half", "origin/tip", 0, 2);
    let mut writer = vec![];
    status.write_remote_branch_difference_message(&mut writer);
    let expected = "Your branch is behind 'origin/tip' by 2 commits, and can be fast-forwarded.\n  (use \"git pull\" to update your local branch)\n\n";
    assert_eq!(text(&writer), expected);
}

#[test]
fn test_ahead_of_remote_branch_by_one() {
    let status = on_branch("tip", "origin/half", 1, 0);
    let expected = "Your branch is ahead of 'origin/half' by 1 commit.\n  (use \"git push\" to publish your local commits)\n\n";
    let mut writer = vec![];
    status.write_remote_branch_difference_message(&mut writer);
    assert_eq!(text(&writer), expected);
}

#[test]
fn test_ahead_of_remote_branch_by_three() {
    let status = on_branch("tip", "origin/half", 3, 0);
    let expected = "Your branch is ahead of 'origin/half' by 3 commits.\n  (use \"git push\" to publish your local commits)\n\n";
    let mut writer = vec![];
    status.write_remote_branch_difference_message(&mut writer);
    assert_eq!(text(&writer), expected);
}

#[test]
fn test_diverged_from_remote_branch() {
    let status = on_branch("half", "origin/tip", 3, 2);
    let expected = "Your branch and 'origin/tip' have diverged,\nand have 3 and 2 different commits each, respectively.\n  (use \"git pull\" to merge the remote branch into yours)\n\n";
    let mut writer = vec![];
    status.write_remote_branch_difference_message(&mut writer);
    assert_eq!(text(&writer), expected);
}

#[test]
fn test_no_remote_branch() {
    let mut status = on_branch("a_new_branch", "origin/tip", 0, 0);
    status.upstream = None;
    status.branch = Some("refs/heads/a_new_branch".to_string());
    let mut writer = vec![];
    status.write_remote_branch_difference_message(&mut writer);
    assert_eq!(text(&writer), "");
    assert_eq!(status.upstream_branch_name(), None);
}

#[test]
fn test_upstream_branch_tip_gone() {
    let mut status = on_branch("tip", "origin/tip", 0, 0);
    status.upstream.as_mut().unwrap().exists = false;
    let mut writer = vec![];
    status.write_remote_branch_difference_message(&mut writer);
    let expected = "Your branch is based on 'origin/tip', but the upstream is gone.\n (use \"git branch --unset-upstream\" to fixup)\n\n";
    assert_eq!(text(&writer), expected);
}

#[test]
fn test_no_modified_files() {
    let status = status_of(vec![], vec![]);
    let mut writer = vec![];
    assert_eq!(status.write_unstaged_message(&mut writer), false);
    assert_eq!(text(&writer), "");
}

#[test]
fn test_one_modified_file() {
    let status = status_of(vec![], vec![entry("three", Status::Modified(None))]);
    let expected = "Changes not staged for commit:\n  (use \"git add <file>...\" to update what will be committed)\n  (use \"git restore <file>...\" to discard changes in working directory)\n        modified:   three\n\n";
    let mut writer = vec![];
    assert_eq!(status.write_unstaged_message(&mut writer), true);
    assert_eq!(text(&writer), expected);
}

#[test]
fn test_two_modified_files() {
    let status = status_of(
        vec![],
        vec![
            entry("four", Status::Modified(None)),
            entry("one/nested/a/bit.txt", Status::Modified(None)),
        ],
    );
    let expected = "Changes not staged for commit:\n  (use \"git add <file>...\" to update what will be committed)\n  (use \"git restore <file>...\" to discard changes in working directory)\n        modified:   four\n        modified:   one/nested/a/bit.txt\n\n";
    let mut writer = vec![];
    assert_eq!(status.write_unstaged_message(&mut writer), true);
    assert_eq!(text(&writer), expected);
}

#[test]
fn test_two_modified_one_deleted() {
    // An untracked file is among them: it should not show up in this message,
    // but it comes from the same source.
    let status = status_of(
        vec![],
        vec![
            entry("an_untracked_file", Status::New),
            entry("one", Status::Modified(None)),
            entry("three", Status::Deleted),
            entry("two", Status::Modified(None)),
        ],
    );
    let expected = "Changes not staged for commit:\n  (use \"git add <file>...\" to update what will be committed)\n  (use \"git restore <file>...\" to discard changes in working directory)\n        modified:   one\n        deleted:    three\n        modified:   two\n\n";
    let mut writer = vec![];
    assert_eq!(status.write_unstaged_message(&mut writer), true);
    assert_eq!(text(&writer), expected);
}

#[test]
fn repo_status_submodule_with_modified_files() {
    let status = status_of(
        vec![],
        vec![entry(
            "sub_repo_dir",
            Status::Modified(Some("modified content".to_string())),
        )],
    );
    let expected = "Changes not staged for commit:\n  (use \"git add <file>...\" to update what will be committed)\n  (use \"git restore <file>...\" to discard changes in working directory)\n        modified:   sub_repo_dir (modified content)\n\n";
    let mut writer = vec![];
    assert_eq!(status.write_unstaged_message(&mut writer), true);
    assert_eq!(text(&writer), expected);
    // The path is in the colour of changed files, the note is not.
    assert_eq!(writer[1].slot, Some(StatusColorSlot::Changed));
    assert_eq!(writer[1].text, "\n        modified:   sub_repo_dir");
    assert_eq!(writer[2], Span { slot: None, text: " (modified content)".to_string() });
}

#[test]
fn test_no_staged_files() {
    let status = status_of(vec![], vec![]);
    let mut writer = vec![];
    assert_eq!(status.write_staged_message(&mut writer), false);
    assert_eq!(text(&writer), "");
}

#[test]
fn test_file_added_to_index() {
    let status = status_of(vec![entry("a_new_file", Status::New)], vec![]);
    let expected = "Changes to be committed:\n  (use \"git restore --staged <file>...\" to unstage)\n        new file:   a_new_file\n\n";
    let mut writer = vec![];
    assert_eq!(status.write_staged_message(&mut writer), true);
    assert_eq!(text(&writer), expected);
}

#[test]
fn test_file_added_to_index_and_files_modified() {
    let status = status_of(
        vec![
            entry("one", Status::Modified(None)),
            entry("some_new_file", Status::New),
            entry("two", Status::Modified(None)),
        ],
        vec![],
    );
    let expected = "Changes to be committed:\n  (use \"git restore --staged <file>...\" to unstage)\n        modified:   one\n        new file:   some_new_file\n        modified:   two\n\n";
    let mut writer = vec![];
    assert_eq!(status.write_staged_message(&mut writer), true);
    assert_eq!(text(&writer), expected);
    assert_eq!(writer[1].slot, Some(StatusColorSlot::Added));
}

#[test]
fn test_no_untracked_file() {
    let status = status_of(vec![], vec![]);
    let mut writer = vec![];
    assert_eq!(status.write_untracked_message(&mut writer), false);
}

#[test]
fn test_untracked_file() {
    let status = status_of(vec![], vec![entry("some_new_file", Status::New)]);
    let expected = "Untracked files:\n  (use \"git add <file>...\" to include in what will be committed)\n        some_new_file\n\n";
    let mut writer = vec![];
    assert_eq!(status.write_untracked_message(&mut writer), true);
    assert_eq!(text(&writer), expected);
}

#[test]
fn test_untracked_file_and_directory() {
    // A modified file is among them: it should not show up in the untracked
    // list, even though it comes from the same source.
    let status = status_of(
        vec![],
        vec![
            entry("a_new_file", Status::New),
            entry("b/", Status::New),
            entry("two", Status::Modified(None)),
        ],
    );
    let expected = "Untracked files:\n  (use \"git add <file>...\" to include in what will be committed)\n        a_new_file\n        b/\n\n";
    let mut writer = vec![];
    assert_eq!(status.write_untracked_message(&mut writer), true);
    assert_eq!(text(&writer), expected);
    assert_eq!(writer[1].slot, Some(StatusColorSlot::Untracked));
}

#[test]
fn test_no_change_epilog() {
    let expected = "nothing to commit, working tree clean\n".to_string();
    let mut writer = vec![];
    RepoStatus::write_epilog(&mut writer, false, false, false);
    assert_eq!(text(&writer), expected);
}

#[test]
fn test_unstaged_epilog() {
    let expected =
        "no changes added to commit (use \"git add\" and/or \"git commit -a\")\n".to_string();
    let mut writer = vec![];
    RepoStatus::write_epilog(&mut writer, false, true, false);
    assert_eq!(text(&writer), expected);
}

#[test]
fn test_staged_epilog() {
    let mut writer = vec![];
    RepoStatus::write_epilog(&mut writer, true, false, false);
    assert_eq!(text(&writer), "");
}

#[test]
fn test_untracked_epilog() {
    let expected =
        "nothing added to commit but untracked files present (use \"git add\" to track)\n"
            .to_string();
    let mut writer = vec![];
    RepoStatus::write_epilog(&mut writer, false, false, true);
    assert_eq!(text(&writer), expected);
}

#[test]
fn test_unstaged_overrides_untracked_epilog() {
    let expected =
        "no changes added to commit (use \"git add\" and/or \"git commit -a\")\n".to_string();
    let mut writer = vec![];
    RepoStatus::write_epilog(&mut writer, false, true, true);
    assert_eq!(text(&writer), expected);
}

#[test]
fn test_staged_overrides_unstaged_epilog() {
    let mut writer = vec![];
    RepoStatus::write_epilog(&mut writer, true, true, false);
    assert_eq!(text(&writer), "");
}

#[test]
fn test_default_untracked_color() {
    let color = RepoStatus::get_color(StatusColorSlot::Untracked, None);
    assert_eq!(color, Color::Red);
}

#[test]
fn test_overridden_untracked_color() {
    let color = RepoStatus::get_color(StatusColorSlot::Untracked, Some("white"));
    assert_eq!(color, Color::White);
}

#[test]
fn test_default_changed_file_color() {
    let color = RepoStatus::get_color(StatusColorSlot::Changed, None);
    assert_eq!(color, Color::Red);
}

#[test]
fn test_overridden_changed_file_color() {
    let color = RepoStatus::get_color(StatusColorSlot::Changed, Some("blue"));
    assert_eq!(color, Color::Blue);
}

#[test]
fn test_default_added_file_color() {
    let color = RepoStatus::get_color(StatusColorSlot::Added, None);
    assert_eq!(color, Color::Green);
}

#[test]
fn test_overridden_added_file_color() {
    let color = RepoStatus::get_color(StatusColorSlot::Added, Some("yellow"));
    assert_eq!(color, Color::Yellow);
}

#[test]
fn test_default_no_branch_color() {
    let color = RepoStatus::get_color(StatusColorSlot::NoBranch, None);
    assert_eq!(color, Color::Red);
}

#[test]
fn test_overridden_no_branch_color() {
    let color = RepoStatus::get_color(StatusColorSlot::NoBranch, Some("white"));
    assert_eq!(color, Color::White);
}

#[test]
fn a_colour_that_cannot_be_read_gives_the_default() {
    assert_eq!(RepoStatus::get_color(StatusColorSlot::Added, Some("no such colour")), Color::Green);
    assert_eq!(RepoStatus::get_color(StatusColorSlot::Added, Some("")), Color::Green);
    assert_eq!(RepoStatus::get_color(StatusColorSlot::Added, Some("12")), Color::Ansi256(12));
    assert_eq!(
        RepoStatus::get_color(StatusColorSlot::Added, Some("1,0x20,3")),
        Color::Rgb(1, 32, 3)
    );
    assert_eq!(RepoStatus::get_color(StatusColorSlot::Added, Some("Magenta")), Color::Magenta);
}

#[test]
fn the_slots_have_their_names_in_the_configuration() {
    assert_eq!(StatusColorSlot::Untracked.to_string(), "untracked");
    assert_eq!(StatusColorSlot::Changed.to_string(), "changed");
    assert_eq!(StatusColorSlot::Added.to_string(), "added");
    assert_eq!(StatusColorSlot::NoBranch.to_string(), "nobranch");
}

#[test]
fn short_message_file_added_to_index() {
    let status = status_of(vec![entry("a_new_file", Status::New)], vec![]);
    let expected = "A  a_new_file\n";
    let mut writer = vec![];
    status.write_short_staged(&mut writer);
    assert_eq!(text(&writer), expected);
}

#[test]
fn short_message_two_modified_files() {
    let status = status_of(
        vec![],
        vec![
            entry("four", Status::Modified(None)),
            entry("one/nested/a/bit.txt", Status::Modified(None)),
        ],
    );
    let expected = " M four\n M one/nested/a/bit.txt\n";
    let mut writer = vec![];
    status.write_short_unstaged(&mut writer);
    assert_eq!(text(&writer), expected);
}

#[test]
fn short_untracked_file() {
    let status = status_of(vec![], vec![entry("some_new_file", Status::New)]);
    let expected = "?? some_new_file\n";
    let mut writer = vec![];
    status.write_short_untracked(&mut writer);
    assert_eq!(text(&writer), expected);
}

#[test]
fn the_short_message_has_the_three_parts_in_order() {
    let status = status_of(
        vec![entry("staged", Status::Modified(None)), entry("gone", Status::Deleted)],
        vec![
            entry("changed", Status::Modified(None)),
            entry("new", Status::New),
            entry("removed", Status::Deleted),
        ],
    );
    let mut writer = vec![];
    assert!(status.write_short_message(&mut writer).is_ok());
    assert_eq!(text(&writer), "M  staged\nD  gone\n M changed\n D removed\n?? new\n");
}

#[test]
fn the_long_message_of_a_clean_repository() {
    let status = status_of(vec![], vec![]);
    let mut writer = vec![];
    assert!(status.write_long_message(&mut writer).is_ok());
    assert_eq!(
        text(&writer),
        "On branch tip\nYour branch is up to date with 'origin/tip'.\n\nnothing to commit, working tree clean\n"
    );
}

#[test]
fn the_long_message_with_every_section() {
    let mut status = status_of(
        vec![entry("staged", Status::New)],
        vec![
            entry("changed", Status::Modified(None)),
            entry("new", Status::New),
            entry("sub", Status::Modified(Some("new commits".to_string()))),
        ],
    );
    status.upstream = None;
    let mut writer = vec![];
    assert!(status.write_long_message(&mut writer).is_ok());
    assert_eq!(
        text(&writer),
        "On branch tip\nChanges to be committed:\n  (use \"git restore --staged <file>...\" to unstage)\n        new file:   staged\n\nChanges not staged for commit:\n  (use \"git add <file>...\" to update what will be committed)\n  (use \"git restore <file>...\" to discard changes in working directory)\n        modified:   changed\n        modified:   sub (new commits)\n\nUntracked files:\n  (use \"git add <file>...\" to include in what will be committed)\n        new\n\n"
    );
}

#[test]
fn the_long_message_with_untracked_files_only() {
    let mut status = status_of(vec![], vec![entry("new", Status::New)]);
    status.upstream = None;
    let mut writer = vec![];
    assert!(status.write_long_message(&mut writer).is_ok());
    assert_eq!(
        text(&writer),
        "On branch tip\nUntracked files:\n  (use \"git add <file>...\" to include in what will be committed)\n        new\n\nnothing added to commit but untracked files present (use \"git add\" to track)\n"
    );
}

#[test]
fn a_repository_in_the_middle_of_a_merge_is_refused() {
    let mut status = status_of(vec![], vec![entry("new", Status::New)]);
    status.state = RepositoryState::Merge;
    let mut writer = vec![];
    let error = status.write_long_message(&mut writer).err().unwrap();
    assert_eq!(error.kind, ErrorKind::UnsupportedRepositoryState);
    assert_eq!(error.message, "A repository in Merge state is currently unsupported");
    assert_eq!(writer, vec![]);

    status.state = RepositoryState::RebaseInteractive;
    let error = status.write_short_message(&mut writer).err().unwrap();
    assert_eq!(
        error.message,
        "A repository in RebaseInteractive state is currently unsupported"
    );
    assert_eq!(writer, vec![]);

    status.state = RepositoryState::Clean;
    assert!(status.check_repo_state().is_ok());
}

#[test]
fn every_state_has_its_name() {
    let names = [
        (RepositoryState::Clean, "Clean"),
        (RepositoryState::Merge, "Merge"),
        (RepositoryState::Revert, "Revert"),
        (RepositoryState::RevertSequence, "RevertSequence"),
        (RepositoryState::CherryPick, "CherryPick"),
        (RepositoryState::CherryPickSequence, "CherryPickSequence"),
        (RepositoryState::Bisect, "Bisect"),
        (RepositoryState::Rebase, "Rebase"),
        (RepositoryState::RebaseInteractive, "RebaseInteractive"),
        (RepositoryState::RebaseMerge, "RebaseMerge"),
        (RepositoryState::ApplyMailbox, "ApplyMailbox"),
        (RepositoryState::ApplyMailboxOrRebase, "ApplyMailboxOrRebase"),
    ];
    for (state, name) in names {
        assert_eq!(state.name(), name);
    }
}

#[test]
fn numbers_are_written_in_decimal() {
    assert_eq!(decimal(0), "0");
    assert_eq!(decimal(7), "7");
    assert_eq!(decimal(10), "10");
    assert_eq!(decimal(1234567890), "1234567890");
    assert_eq!(decimal(usize::MAX), usize::MAX.to_string());
}

#[test]
fn an_object_id_is_shortened_to_seven_digits() {
    assert_eq!(short_sha(&[0xab, 0xcd, 0xef, 0x01, 0x23]), "abcdef0");
    assert_eq!(short_sha(&[0x00, 0x0f, 0xf0, 0x9a]), "000ff09");
    assert_eq!(short_sha(&[0x12, 0x34, 0x56]), "123456");
    assert_eq!(short_sha(&[0x1f]), "1f");
    assert_eq!(short_sha(&[]), "");
}

#[test]
fn a_prefix_is_taken_off_where_it_is_there() {
    assert_eq!(strip_prefix("refs/heads/main", "refs/heads/"), "main");
    assert_eq!(strip_prefix("refs/heads/", "refs/heads/"), "");
    assert_eq!(strip_prefix("refs/tags/v1", "refs/heads/"), "refs/tags/v1");
    assert_eq!(strip_prefix("refs", "refs/heads/"), "refs");
    assert_eq!(strip_prefix("refs/heads/ünï", "refs/heads/"), "ünï");
    assert_eq!(strip_prefix("anything", ""), "anything");
}
