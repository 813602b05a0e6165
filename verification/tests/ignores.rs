use win_git_status::ignores::{is_plain_relative, IgnoreChain, IgnoreMatch, IgnoreRules};

fn lines(text: &[&str]) -> Vec<String> {
    text.iter().map(|l| l.to_string()).collect()
}

#[test]
fn one_ignore_file_ignores_whitelists_or_says_nothing() {
    let rules = IgnoreRules::new("", &lines(&["*.o", "!keep.o", "build/", "# a comment", ""]));
    assert_eq!(rules.matched("a.o", false), IgnoreMatch::Ignored);
    assert_eq!(rules.matched("deep/down/a.o", false), IgnoreMatch::Ignored);
    assert_eq!(rules.matched("keep.o", false), IgnoreMatch::Whitelisted);
    assert_eq!(rules.matched("a.c", false), IgnoreMatch::Unmatched);
    assert_eq!(rules.matched("build", true), IgnoreMatch::Ignored);
    assert_eq!(rules.matched("build", false), IgnoreMatch::Unmatched);
    // A file in an ignored directory is ignored with it.
    assert_eq!(rules.matched("build/out.txt", false), IgnoreMatch::Ignored);
    assert_eq!(rules.matched("# a comment", false), IgnoreMatch::Unmatched);
}

#[test]
fn an_ignore_file_without_patterns_says_nothing() {
    let rules = IgnoreRules::new("", &vec![]);
    assert_eq!(rules.matched("anything", false), IgnoreMatch::Unmatched);
    assert_eq!(rules.matched("any/thing", true), IgnoreMatch::Unmatched);
}

#[test]
fn patterns_apply_relative_to_the_directory_of_their_file() {
    let rules = IgnoreRules::new("sub/dir", &lines(&["/top", "inner/*.log"]));
    assert_eq!(rules.matched("sub/dir/top", false), IgnoreMatch::Ignored);
    assert_eq!(rules.matched("sub/dir/deeper/top", false), IgnoreMatch::Unmatched);
    assert_eq!(rules.matched("sub/dir/inner/a.log", false), IgnoreMatch::Ignored);
    assert_eq!(rules.matched("sub/dir/other/a.log", false), IgnoreMatch::Unmatched);
}

#[test]
fn the_first_file_of_the_chain_that_decides_wins() {
    let chain = IgnoreChain::new(&lines(&["*.swp", "*.log"]))
        .inside("", &Some(lines(&["*.tmp", "!important.log"])))
        .inside("d", &Some(lines(&["!keep.tmp", "important.log"])));
    assert_eq!(chain.matchers.len(), 3);
    assert_eq!(chain.matchers[0].root, "d");
    assert_eq!(chain.matchers[2].root, "");

    assert_eq!(chain.matched("d/a.swp", false), IgnoreMatch::Ignored);
    assert_eq!(chain.matched("d/a.tmp", false), IgnoreMatch::Ignored);
    assert_eq!(chain.matched("d/keep.tmp", false), IgnoreMatch::Whitelisted);
    // Ignored by the innermost file although the one above whitelists it.
    assert_eq!(chain.matched("d/important.log", false), IgnoreMatch::Ignored);
    assert_eq!(chain.matched("d/other.log", false), IgnoreMatch::Ignored);
    assert_eq!(chain.matched("d/source.rs", false), IgnoreMatch::Unmatched);
    assert!(chain.ignores("d/a.tmp", false));
    assert!(!chain.ignores("d/keep.tmp", false));
    assert!(!chain.ignores("d/source.rs", false));
}

#[test]
fn going_into_a_directory_without_an_ignore_file_keeps_the_chain() {
    let chain = IgnoreChain::new(&lines(&["*.swp"]));
    let inner = chain.inside("d", &None);
    assert_eq!(inner, chain);
    let deeper = inner.inside("d/e", &Some(lines(&["x"])));
    assert_eq!(deeper.matchers.len(), 2);
    // The chain of the parent is as it was.
    assert_eq!(inner.matchers.len(), 1);
    assert_eq!(deeper.matchers[0], IgnoreRules { root: "d/e".to_string(), lines: lines(&["x"]) });
}

#[test]
fn an_empty_chain_says_nothing() {
    let chain = IgnoreChain { matchers: vec![] };
    assert_eq!(chain.matched("a", false), IgnoreMatch::Unmatched);
}

#[test]
fn a_path_that_may_have_a_root_is_matched_by_nothing() {
    let chain = IgnoreChain::new(&lines(&["*"]));
    assert_eq!(chain.matched("file", false), IgnoreMatch::Ignored);
    let rooted = [
        "/rooted", "\\rooted", "a//b", "//", "c:/x", "c:x", "a:b", "x/C:/y", "./C:/y", "a\\C:\\y",
        "x/y/z:", "1:", "a/b:",
    ];
    for path in rooted {
        assert!(!is_plain_relative(path), "{}", path);
        assert_eq!(chain.matched(path, false), IgnoreMatch::Unmatched, "{}", path);
        assert_eq!(chain.matched(path, true), IgnoreMatch::Unmatched, "{}", path);
        for root in ["", "x", "a", "."] {
            let rules = IgnoreRules::new(root, &lines(&["*"]));
            assert_eq!(rules.matched(path, false), IgnoreMatch::Unmatched, "{}", path);
        }
    }
}

#[test]
fn a_path_without_a_root_can_be_asked_about() {
    let plain = [
        "", "a", "a/b", "a/b/", ".hidden", "./a", "ab:c", "x/ab:c", "ü/é", "a\\b", "a\\\\b",
        "a/\\b", ":", ":a", "a/:b", "C", "a/bc:",
    ];
    for path in plain {
        assert!(is_plain_relative(path), "{}", path);
    }
}

#[test]
fn a_backslash_inside_a_path_does_not_keep_it_from_being_ignored() {
    let rules = IgnoreRules::new("", &lines(&["*.o"]));
    assert_eq!(rules.matched("a\\b.o", false), IgnoreMatch::Ignored);
    assert_eq!(rules.matched("a\\b.c", false), IgnoreMatch::Unmatched);
    let chain = IgnoreChain::new(&lines(&["*.o"]));
    assert!(chain.ignores("dir/a\\b.o", false));
}

#[test]
fn the_empty_path_is_asked_about_like_any_other() {
    for root in ["", "x", "."] {
        let some = IgnoreRules::new(root, &lines(&["*.o", "build/"]));
        assert_eq!(some.matched("", false), IgnoreMatch::Unmatched);
        assert_eq!(some.matched("", true), IgnoreMatch::Unmatched);
        let all = IgnoreRules::new(root, &lines(&["*"]));
        assert_eq!(all.matched("", false), IgnoreMatch::Ignored);
    }
}

#[test]
fn the_root_of_an_ignore_file_is_taken_off_the_path() {
    let rules = IgnoreRules::new("sub", &lines(&["/top"]));
    assert_eq!(rules.matched("sub/top", false), IgnoreMatch::Ignored);
    assert_eq!(rules.matched("sub/deep/top", false), IgnoreMatch::Unmatched);
}
