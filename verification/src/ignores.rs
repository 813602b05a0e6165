use crate::directories::key_of;
use ignore::gitignore::GitignoreBuilder;
use ignore::Match;
use vstd::prelude::*;
use vstd::string::*;

verus! {

/// What a chain of ignore files says of a path.
#[derive(PartialEq, Eq, Debug, Clone, Copy)]
pub enum IgnoreMatch {
    Ignored,
    Whitelisted,
    Unmatched,
}

/// The patterns of one ignore file, with the directory that they are rooted at.
#[derive(PartialEq, Eq, Debug, Clone)]
pub struct IgnoreRules {
    /// The directory of the file, relative to the working directory; `""` for the
    /// working directory itself and for the user's global file.
    pub root: String,
    /// The lines of the file.
    pub lines: Vec<String>,
}

/// The lines of an ignore file as mathematical values.
pub open spec fn lines_view(lines: Seq<String>) -> Seq<Seq<char>> {
    Seq::new(lines.len(), |i: int| lines[i]@)
}

/// An ignore file as mathematical values.
pub ghost struct IgnoreRulesView {
    pub root: Seq<char>,
    pub lines: Seq<Seq<char>>,
}

impl View for IgnoreRules {
    type V = IgnoreRulesView;

    open spec fn view(&self) -> IgnoreRulesView {
        IgnoreRulesView { root: self.root@, lines: lines_view(self.lines@) }
    }
}

/// The ignore files in effect at a place of the working tree, innermost first.
#[derive(PartialEq, Eq, Debug, Clone)]
pub struct IgnoreChain {
    pub matchers: Vec<IgnoreRules>,
}

impl View for IgnoreChain {
    type V = Seq<IgnoreRulesView>;

    open spec fn view(&self) -> Seq<IgnoreRulesView> {
        Seq::new(self.matchers@.len(), |i: int| self.matchers@[i]@)
    }
}

/// Whether a byte parts the components of a path on some platform: `/` or `\`.
pub open spec fn parts_components(byte: u8) -> bool {
    byte == 47 || byte == 92
}

/// Whether the byte at `i` shows that some part of the path, read from the start
/// of one of its components on, may have a root on some platform: a separator at
/// the very start, the second `/` of `//`, or `:` as the second byte of a
/// component, where a drive letter has it.
pub open spec fn rooted_at(path: Seq<u8>, i: int) -> bool {
    if i == 0 {
        parts_components(path[0])
    } else {
        ||| path[i] == 47 && path[i - 1] == 47
        ||| path[i] == 58 && (i == 1 || parts_components(path[i - 2]))
    }
}

/// Whether the bytes spell a path of which no part, read from the start of one of
/// its components on, has a root on any platform.
pub open spec fn plain_relative(path: Seq<u8>) -> bool {
    forall|i: int| 0 <= i < path.len() ==> !#[trigger] rooted_at(path, i)
}

/// What the matcher of the crate `ignore`, built at `root` from `lines`, answers
/// for `path`: nothing where no pattern applies to the path or to a directory
/// above it, else whether the pattern that decides is a whitelisting one.
pub uninterp spec fn gitignore_match(
    root: Seq<char>,
    lines: Seq<Seq<char>>,
    path: Seq<char>,
    is_dir: bool,
) -> Option<bool>;

/// Builds a matcher with `ignore::gitignore::GitignoreBuilder` (`new` at the root,
/// `add_line` for each line, `build`) and asks it with
/// `Gitignore::matched_path_or_any_parents`. A line that is no pattern is passed
/// over, and a matcher that cannot be built answers nothing. The answer is taken
/// to depend on the four arguments alone. The matcher takes `./`, the root and
/// one `/` behind the root off the front of the path, by bytes on Unix and by
/// components elsewhere, and panics where what is left has a root: where it
/// starts with a separator, as it does on Unix where `//` stood behind the root,
/// or, on Windows, with a drive letter and `:`. `plain_relative` leaves out every
/// path of which that can be left, whatever the root.
#[verifier::external_body]
fn matched_path_or_any_parents(root: &str, lines: &Vec<String>, path: &str, is_dir: bool) -> (r:
    Option<bool>)
    requires
        plain_relative(key_of(path@)),
    ensures
        r == gitignore_match(root@, lines_view(lines@), path@, is_dir),
{
    let mut builder = GitignoreBuilder::new(root);
    for line in lines.iter() {
        let _ = builder.add_line(None, line);
    }
    match builder.build() {
        Ok(matcher) => match matcher.matched_path_or_any_parents(path, is_dir) {
            Match::None => None,
            Match::Ignore(_) => Some(false),
            Match::Whitelist(_) => Some(true),
        },
        Err(_) => None,
    }
}

/// What one ignore file says of a path. A path that the matcher cannot be asked
/// about is matched by no pattern.
pub open spec fn rules_verdict(rules: IgnoreRulesView, path: Seq<char>, is_dir: bool) -> IgnoreMatch {
    if !plain_relative(key_of(path)) {
        IgnoreMatch::Unmatched
    } else {
        match gitignore_match(rules.root, rules.lines, path, is_dir) {
            None => IgnoreMatch::Unmatched,
            Some(true) => IgnoreMatch::Whitelisted,
            Some(false) => IgnoreMatch::Ignored,
        }
    }
}

/// What a chain says of a path: the answer of the first file, innermost first,
/// that whitelists or ignores it.
pub open spec fn chain_verdict(chain: Seq<IgnoreRulesView>, path: Seq<char>, is_dir: bool) -> IgnoreMatch
    decreases chain.len(),
{
    if chain.len() == 0 {
        IgnoreMatch::Unmatched
    } else if rules_verdict(chain[0], path, is_dir) != IgnoreMatch::Unmatched {
        rules_verdict(chain[0], path, is_dir)
    } else {
        chain_verdict(chain.drop_first(), path, is_dir)
    }
}

/// The chain in effect inside a directory: that of its parent, with the
/// directory's own ignore file, if it has one, put in front.
pub open spec fn chain_inside(
    chain: Seq<IgnoreRulesView>,
    root: Seq<char>,
    lines: Option<Vec<String>>,
) -> Seq<IgnoreRulesView> {
    match lines {
        Some(lines) => seq![IgnoreRulesView { root, lines: lines_view(lines@) }] + chain,
        None => chain,
    }
}

/// Whether a path is one that the matchers can be asked about.
pub fn is_plain_relative(path: &str) -> (r: bool)
    ensures
        r == plain_relative(key_of(path@)),
{
    let bytes = path.as_bytes();
    if bytes.len() > 0 && (bytes[0] == 47 || bytes[0] == 92) {
        assert(rooted_at(bytes@, 0));
        return false;
    }
    let mut i: usize = 1;
    while i < bytes.len()
        invariant
            1 <= i,
            bytes@ == key_of(path@),
            forall|j: int| 0 <= j < i && j < bytes@.len() ==> !#[trigger] rooted_at(bytes@, j),
        decreases bytes@.len() - i,
    {
        if bytes[i] == 47 && bytes[i - 1] == 47 {
            assert(rooted_at(bytes@, i as int));
            return false;
        }
        if bytes[i] == 58 && (i == 1 || bytes[i - 2] == 47 || bytes[i - 2] == 92) {
            assert(rooted_at(bytes@, i as int));
            return false;
        }
        assert(!rooted_at(bytes@, i as int));
        i += 1;
    }
    true
}

fn copy_lines(lines: &Vec<String>) -> (r: Vec<String>)
    ensures
        lines_view(r@) == lines_view(lines@),
{
    let mut r: Vec<String> = Vec::new();
    let mut i: usize = 0;
    while i < lines.len()
        invariant
            i <= lines@.len(),
            r@.len() == i,
            forall|j: int| 0 <= j < i ==> r@[j]@ == lines@[j]@,
        decreases lines@.len() - i,
    {
        r.push(lines[i].clone());
        i += 1;
    }
    assert(lines_view(r@) =~= lines_view(lines@));
    r
}

impl IgnoreRules {
    /// The rules of the ignore file in the directory `root`.
    pub fn new(root: &str, lines: &Vec<String>) -> (r: IgnoreRules)
        ensures
            r@ == (IgnoreRulesView { root: root@, lines: lines_view(lines@) }),
    {
        IgnoreRules { root: String::from_str(root), lines: copy_lines(lines) }
    }

    /// What these rules say of a path.
    pub fn matched(&self, path: &str, is_dir: bool) -> (r: IgnoreMatch)
        ensures
            r == rules_verdict(self@, path@, is_dir),
    {
        if !is_plain_relative(path) {
            return IgnoreMatch::Unmatched;
        }
        match matched_path_or_any_parents(self.root.as_str(), &self.lines, path, is_dir) {
            None => IgnoreMatch::Unmatched,
            Some(true) => IgnoreMatch::Whitelisted,
            Some(false) => IgnoreMatch::Ignored,
        }
    }

    fn copy(&self) -> (r: IgnoreRules)
        ensures
            r@ == self@,
    {
        IgnoreRules { root: self.root.clone(), lines: copy_lines(&self.lines) }
    }
}

impl IgnoreChain {
    /// The chain that holds the user's global ignore file and nothing else.
    pub fn new(global_lines: &Vec<String>) -> (r: IgnoreChain)
        ensures
            r@ == seq![IgnoreRulesView { root: Seq::<char>::empty(), lines: lines_view(global_lines@) }],
    {
        let mut matchers: Vec<IgnoreRules> = Vec::new();
        matchers.push(IgnoreRules { root: String::new(), lines: copy_lines(global_lines) });
        let r = IgnoreChain { matchers };
        assert(r@ =~= seq![
            IgnoreRulesView { root: Seq::<char>::empty(), lines: lines_view(global_lines@) },
        ]);
        r
    }

    /// What the chain says of a path.
    pub fn matched(&self, path: &str, is_dir: bool) -> (r: IgnoreMatch)
        ensures
            r == chain_verdict(self@, path@, is_dir),
    {
        let mut i: usize = 0;
        assert(self@.skip(0) =~= self@);
        while i < self.matchers.len()
            invariant
                i <= self.matchers@.len(),
                chain_verdict(self@, path@, is_dir) == chain_verdict(
                    self@.skip(i as int),
                    path@,
                    is_dir,
                ),
            decreases self.matchers@.len() - i,
        {
            let verdict = self.matchers[i].matched(path, is_dir);
            proof {
                assert(self@.skip(i as int)[0] == self.matchers@[i as int]@);
                assert(self@.skip(i as int).drop_first() =~= self@.skip(i + 1));
            }
            match verdict {
                IgnoreMatch::Unmatched => {},
                _ => {
                    return verdict;
                },
            }
            i += 1;
        }
        IgnoreMatch::Unmatched
    }

    /// Whether the chain ignores a path.
    pub fn ignores(&self, path: &str, is_dir: bool) -> (r: bool)
        ensures
            r == (chain_verdict(self@, path@, is_dir) == IgnoreMatch::Ignored),
    {
        match self.matched(path, is_dir) {
            IgnoreMatch::Ignored => true,
            _ => false,
        }
    }

    /// The chain in effect inside the directory `root`, whose own ignore file, if
    /// it has one, holds `lines`. The chain itself is left as it is.
    pub fn inside(&self, root: &str, lines: &Option<Vec<String>>) -> (r: IgnoreChain)
        ensures
            r@ == chain_inside(self@, root@, *lines),
    {
        let mut matchers: Vec<IgnoreRules> = Vec::new();
        match lines {
            Some(own) => {
                matchers.push(IgnoreRules::new(root, own));
            },
            None => {},
        }
        let ghost front = matchers@.len();
        let mut i: usize = 0;
        while i < self.matchers.len()
            invariant
                i <= self.matchers@.len(),
                front <= 1,
                matchers@.len() == front + i,
                forall|j: int| 0 <= j < i ==> matchers@[front + j]@ == self.matchers@[j]@,
                front == 1 ==> lines is Some && matchers@[0]@ == (IgnoreRulesView {
                    root: root@,
                    lines: lines_view(lines->Some_0@),
                }),
                front == 0 ==> lines is None,
            decreases self.matchers@.len() - i,
        {
            matchers.push(self.matchers[i].copy());
            i += 1;
        }
        let r = IgnoreChain { matchers };
        assert(r@ =~= chain_inside(self@, root@, *lines));
        r
    }
}

} // verus!
