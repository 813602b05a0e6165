use crate::error::{unsupported_state_message, ErrorKind, StatusError};
use crate::sorting::views;
use crate::status::{long_label, short_code, StatusEntryView, StatusView};
use crate::tree::TreeDiff;
use crate::worktree::WorkTree;
use vstd::prelude::*;
use vstd::string::*;

verus! {

/// The kinds of text in a status report that have a colour of their own, as
/// `color.status.<slot>` of the configuration names them.
#[derive(PartialEq, Eq, Debug, Clone, Copy)]
pub enum StatusColorSlot {
    Untracked,
    Changed,
    Added,
    NoBranch,
}

/// A colour of the terminal.
#[derive(PartialEq, Eq, Debug, Clone, Copy)]
pub enum Color {
    Black,
    Blue,
    Green,
    Red,
    Cyan,
    Magenta,
    Yellow,
    White,
    Ansi256(u8),
    Rgb(u8, u8, u8),
}

/// The name of a slot in the configuration.
pub open spec fn slot_name(slot: StatusColorSlot) -> Seq<char> {
    match slot {
        StatusColorSlot::Untracked => "untracked"@,
        StatusColorSlot::Changed => "changed"@,
        StatusColorSlot::Added => "added"@,
        StatusColorSlot::NoBranch => "nobranch"@,
    }
}

/// The colour of a slot for which none is configured.
pub open spec fn slot_default(slot: StatusColorSlot) -> Color {
    match slot {
        StatusColorSlot::Untracked => Color::Red,
        StatusColorSlot::Changed => Color::Red,
        StatusColorSlot::Added => Color::Green,
        StatusColorSlot::NoBranch => Color::Red,
    }
}

/// The colour that the crate `termcolor` reads out of a text: the name of a
/// colour, a number, or three numbers with commas between them; none where the
/// text is none of these.
pub uninterp spec fn parsed_color(text: Seq<char>) -> Option<Color>;

/// Calls `str::parse` for `termcolor::Color`. The result is taken to depend on
/// the text alone; what the eight names in lower case give is stated beside it.
#[verifier::external_body]
fn parse_color(text: &str) -> (r: Option<Color>)
    ensures
        r == parsed_color(text@),
        text@ == "black"@ ==> r == Some(Color::Black),
        text@ == "blue"@ ==> r == Some(Color::Blue),
        text@ == "green"@ ==> r == Some(Color::Green),
        text@ == "red"@ ==> r == Some(Color::Red),
        text@ == "cyan"@ ==> r == Some(Color::Cyan),
        text@ == "magenta"@ ==> r == Some(Color::Magenta),
        text@ == "yellow"@ ==> r == Some(Color::Yellow),
        text@ == "white"@ ==> r == Some(Color::White),
{
    match text.parse::<termcolor::Color>() {
        Ok(termcolor::Color::Black) => Some(Color::Black),
        Ok(termcolor::Color::Blue) => Some(Color::Blue),
        Ok(termcolor::Color::Green) => Some(Color::Green),
        Ok(termcolor::Color::Red) => Some(Color::Red),
        Ok(termcolor::Color::Cyan) => Some(Color::Cyan),
        Ok(termcolor::Color::Magenta) => Some(Color::Magenta),
        Ok(termcolor::Color::Yellow) => Some(Color::Yellow),
        Ok(termcolor::Color::White) => Some(Color::White),
        Ok(termcolor::Color::Ansi256(n)) => Some(Color::Ansi256(n)),
        Ok(termcolor::Color::Rgb(r, g, b)) => Some(Color::Rgb(r, g, b)),
        _ => None,
    }
}

impl StatusColorSlot {
    /// The name of the slot in the configuration.
    pub fn to_string(&self) -> (r: String)
        ensures
            r@ == slot_name(*self),
    {
        match self {
            StatusColorSlot::Untracked => String::from_str("untracked"),
            StatusColorSlot::Changed => String::from_str("changed"),
            StatusColorSlot::Added => String::from_str("added"),
            StatusColorSlot::NoBranch => String::from_str("nobranch"),
        }
    }

    /// The colour of the slot where none is configured.
    pub fn default_color(&self) -> (r: Color)
        ensures
            r == slot_default(*self),
    {
        match self {
            StatusColorSlot::Untracked => Color::Red,
            StatusColorSlot::Changed => Color::Red,
            StatusColorSlot::Added => Color::Green,
            StatusColorSlot::NoBranch => Color::Red,
        }
    }

    /// The colour of the slot, given what reading the configured colour gave.
    pub fn color_or_default(&self, parsed: Option<Color>) -> (r: Color)
        ensures
            r == match parsed {
                Some(color) => color,
                None => slot_default(*self),
            },
    {
        match parsed {
            Some(color) => color,
            None => self.default_color(),
        }
    }
}

/// What a repository is in the middle of.
#[derive(PartialEq, Eq, Debug, Clone, Copy)]
pub enum RepositoryState {
    Clean,
    Merge,
    Revert,
    RevertSequence,
    CherryPick,
    CherryPickSequence,
    Bisect,
    Rebase,
    RebaseInteractive,
    RebaseMerge,
    ApplyMailbox,
    ApplyMailboxOrRebase,
}

/// The name of a state as it is shown.
pub open spec fn state_name(state: RepositoryState) -> Seq<char> {
    match state {
        RepositoryState::Clean => "Clean"@,
        RepositoryState::Merge => "Merge"@,
        RepositoryState::Revert => "Revert"@,
        RepositoryState::RevertSequence => "RevertSequence"@,
        RepositoryState::CherryPick => "CherryPick"@,
        RepositoryState::CherryPickSequence => "CherryPickSequence"@,
        RepositoryState::Bisect => "Bisect"@,
        RepositoryState::Rebase => "Rebase"@,
        RepositoryState::RebaseInteractive => "RebaseInteractive"@,
        RepositoryState::RebaseMerge => "RebaseMerge"@,
        RepositoryState::ApplyMailbox => "ApplyMailbox"@,
        RepositoryState::ApplyMailboxOrRebase => "ApplyMailboxOrRebase"@,
    }
}

impl RepositoryState {
    /// The name of the state as it is shown.
    pub fn name(&self) -> (r: String)
        ensures
            r@ == state_name(*self),
    {
        match self {
            RepositoryState::Clean => String::from_str("Clean"),
            RepositoryState::Merge => String::from_str("Merge"),
            RepositoryState::Revert => String::from_str("Revert"),
            RepositoryState::RevertSequence => String::from_str("RevertSequence"),
            RepositoryState::CherryPick => String::from_str("CherryPick"),
            RepositoryState::CherryPickSequence => String::from_str("CherryPickSequence"),
            RepositoryState::Bisect => String::from_str("Bisect"),
            RepositoryState::Rebase => String::from_str("Rebase"),
            RepositoryState::RebaseInteractive => String::from_str("RebaseInteractive"),
            RepositoryState::RebaseMerge => String::from_str("RebaseMerge"),
            RepositoryState::ApplyMailbox => String::from_str("ApplyMailbox"),
            RepositoryState::ApplyMailboxOrRebase => String::from_str("ApplyMailboxOrRebase"),
        }
    }
}

/// A piece of a report: a text, and the slot whose colour it is written in, if
/// it has one.
#[derive(PartialEq, Eq, Debug, Clone)]
pub struct Span {
    pub slot: Option<StatusColorSlot>,
    pub text: String,
}

/// A piece of a report as mathematical values.
pub ghost struct SpanView {
    pub slot: Option<StatusColorSlot>,
    pub text: Seq<char>,
}

impl View for Span {
    type V = SpanView;

    open spec fn view(&self) -> SpanView {
        SpanView { slot: self.slot, text: self.text@ }
    }
}

/// A piece of text without a colour.
pub open spec fn plain(text: Seq<char>) -> SpanView {
    SpanView { slot: None, text }
}

/// A piece of text in the colour of a slot.
pub open spec fn painted(slot: StatusColorSlot, text: Seq<char>) -> SpanView {
    SpanView { slot: Some(slot), text }
}

/// The text of the pieces, one behind the other.
pub open spec fn text_of(spans: Seq<SpanView>) -> Seq<char>
    decreases spans.len(),
{
    if spans.len() == 0 {
        Seq::empty()
    } else {
        text_of(spans.drop_last()) + spans.last().text
    }
}

/// The text of the pieces of a report, without their colours.
pub fn plain_text(spans: &Vec<Span>) -> (r: String)
    ensures
        r@ == text_of(views(spans@)),
{
    let mut text = String::new();
    let mut i: usize = 0;
    proof {
        assert(views(spans@).take(0) =~= Seq::<SpanView>::empty());
    }
    while i < spans.len()
        invariant
            i <= spans@.len(),
            text@ == text_of(views(spans@).take(i as int)),
        decreases spans@.len() - i,
    {
        proof {
            assert(views(spans@).take(i + 1).drop_last() =~= views(spans@).take(i as int));
            assert(views(spans@).take(i + 1).last() == spans@[i as int]@);
        }
        text.append(spans[i].text.as_str());
        i += 1;
    }
    proof {
        assert(views(spans@).take(i as int) =~= views(spans@));
    }
    text
}

fn put(out: &mut Vec<Span>, slot: Option<StatusColorSlot>, text: String)
    ensures
        views(final(out)@) == views(old(out)@).push(SpanView { slot, text: text@ }),
{
    let ghost before = views(out@);
    let span = Span { slot, text };
    out.push(span);
    assert(views(out@) =~= before.push(span@));
}

/// The text of one decimal digit.
pub open spec fn digit_text(d: nat) -> Seq<char> {
    if d == 0 {
        "0"@
    } else if d == 1 {
        "1"@
    } else if d == 2 {
        "2"@
    } else if d == 3 {
        "3"@
    } else if d == 4 {
        "4"@
    } else if d == 5 {
        "5"@
    } else if d == 6 {
        "6"@
    } else if d == 7 {
        "7"@
    } else if d == 8 {
        "8"@
    } else {
        "9"@
    }
}

/// A number in decimal digits.
pub open spec fn decimal_text(n: nat) -> Seq<char>
    decreases n,
{
    if n < 10 {
        digit_text(n)
    } else {
        decimal_text(n / 10) + digit_text(n % 10)
    }
}

fn digit(d: usize) -> (r: &'static str)
    requires
        d < 10,
    ensures
        r@ == digit_text(d as nat),
{
    if d == 0 {
        "0"
    } else if d == 1 {
        "1"
    } else if d == 2 {
        "2"
    } else if d == 3 {
        "3"
    } else if d == 4 {
        "4"
    } else if d == 5 {
        "5"
    } else if d == 6 {
        "6"
    } else if d == 7 {
        "7"
    } else if d == 8 {
        "8"
    } else {
        "9"
    }
}

/// Writes a number in decimal digits.
pub fn decimal(n: usize) -> (r: String)
    ensures
        r@ == decimal_text(n as nat),
    decreases n,
{
    if n < 10 {
        String::from_str(digit(n))
    } else {
        let mut text = decimal(n / 10);
        text.append(digit(n % 10));
        text
    }
}

/// The text of one hexadecimal digit.
pub open spec fn nibble_text(d: nat) -> Seq<char> {
    if d < 10 {
        digit_text(d)
    } else if d == 10 {
        "a"@
    } else if d == 11 {
        "b"@
    } else if d == 12 {
        "c"@
    } else if d == 13 {
        "d"@
    } else if d == 14 {
        "e"@
    } else {
        "f"@
    }
}

/// The `k`-th hexadecimal digit of an object id.
pub open spec fn nibble(id: Seq<u8>, k: int) -> nat {
    if k % 2 == 0 {
        (id[k / 2] / 16) as nat
    } else {
        (id[k / 2] % 16) as nat
    }
}

/// The first `count` hexadecimal digits of an object id.
pub open spec fn hex_digits(id: Seq<u8>, count: nat) -> Seq<char>
    decreases count,
{
    if count == 0 {
        Seq::empty()
    } else {
        hex_digits(id, (count - 1) as nat) + nibble_text(nibble(id, count - 1))
    }
}

/// The short form of an object id: its first seven hexadecimal digits, or all
/// of them where it has fewer.
pub open spec fn short_id(id: Seq<u8>) -> Seq<char> {
    hex_digits(
        id,
        if 2 * id.len() < 7 {
            2 * id.len()
        } else {
            7
        },
    )
}

fn hex_digit(d: u8) -> (r: &'static str)
    requires
        d < 16,
    ensures
        r@ == nibble_text(d as nat),
{
    if d < 10 {
        digit(d as usize)
    } else if d == 10 {
        "a"
    } else if d == 11 {
        "b"
    } else if d == 12 {
        "c"
    } else if d == 13 {
        "d"
    } else if d == 14 {
        "e"
    } else {
        "f"
    }
}

/// Writes the short form of an object id.
pub fn short_sha(id: &[u8]) -> (r: String)
    ensures
        r@ == short_id(id@),
{
    let count: usize = if id.len() < 4 {
        2 * id.len()
    } else {
        7
    };
    let mut text = String::new();
    let mut k: usize = 0;
    while k < count
        invariant
            k <= count,
            count <= 2 * id@.len(),
            count <= 7,
            text@ == hex_digits(id@, k as nat),
        decreases count - k,
    {
        let byte = id[k / 2];
        let d: u8 = if k % 2 == 0 {
            byte / 16
        } else {
            byte % 16
        };
        text.append(hex_digit(d));
        k += 1;
    }
    text
}

/// A text without `prefix` at its start, where it starts with it.
pub open spec fn without_prefix(text: Seq<char>, prefix: Seq<char>) -> Seq<char> {
    if prefix.len() <= text.len() && text.take(prefix.len() as int) == prefix {
        text.skip(prefix.len() as int)
    } else {
        text
    }
}

/// Takes `prefix` off the start of a text that starts with it.
pub fn strip_prefix(text: &str, prefix: &str) -> (r: String)
    ensures
        r@ == without_prefix(text@, prefix@),
{
    let text_len = text.unicode_len();
    let prefix_len = prefix.unicode_len();
    if prefix_len > text_len {
        return String::from_str(text);
    }
    let mut i: usize = 0;
    while i < prefix_len
        invariant
            i <= prefix_len <= text_len,
            prefix_len == prefix@.len(),
            text_len == text@.len(),
            forall|j: int| 0 <= j < i ==> text@[j] == prefix@[j],
        decreases prefix_len - i,
    {
        if text.get_char(i) != prefix.get_char(i) {
            proof {
                assert(text@.take(prefix@.len() as int)[i as int] != prefix@[i as int]);
            }
            return String::from_str(text);
        }
        i += 1;
    }
    proof {
        assert(text@.take(prefix@.len() as int) =~= prefix@);
        assert(text@.subrange(prefix_len as int, text_len as int) =~= text@.skip(
            prefix@.len() as int,
        ));
    }
    String::from_str(text.substring_char(prefix_len, text_len))
}

/// Where a branch stands against the branch that it follows.
#[derive(PartialEq, Eq, Debug, Clone)]
pub struct Upstream {
    /// The full name of the followed branch, such as `refs/remotes/origin/main`.
    pub name: String,
    /// Whether the followed branch still exists.
    pub exists: bool,
    /// How many commits the branch has that the followed one lacks.
    pub ahead: usize,
    /// How many commits the followed branch has that the branch lacks.
    pub behind: usize,
}

/// The status of a repository: where its HEAD is, and how its index and its
/// working tree differ from what is committed and staged.
#[derive(PartialEq, Eq, Debug, Clone)]
pub struct RepoStatus {
    /// The full name of the branch that HEAD is on, such as `refs/heads/main`;
    /// none where HEAD is detached.
    pub branch: Option<String>,
    /// The id of the commit that HEAD points to.
    pub head: Vec<u8>,
    /// The branch that the current one follows, if it follows one.
    pub upstream: Option<Upstream>,
    pub state: RepositoryState,
    pub index_diff: TreeDiff,
    pub work_tree_diff: WorkTree,
}

/// The ending of "commit" for a number of them.
pub open spec fn plural(n: nat) -> Seq<char> {
    if n == 1 {
        ""@
    } else {
        "s"@
    }
}

/// The line that says which branch HEAD is on; for a detached HEAD, at which
/// commit it is.
pub open spec fn branch_message(branch: Option<Seq<char>>, head: Seq<u8>) -> Seq<SpanView> {
    match branch {
        Some(name) => seq![
            plain("On branch "@ + without_prefix(name, "refs/heads/"@) + "\n"@),
        ],
        None => seq![
            painted(StatusColorSlot::NoBranch, "Head detached at "@),
            plain(short_id(head)),
            plain("\n"@),
        ],
    }
}

/// What is said of a branch that follows another: how far the two are apart.
pub open spec fn difference_text(short_name: Seq<char>, exists: bool, ahead: nat, behind: nat) -> Seq<
    char,
> {
    if !exists {
        "Your branch is based on '"@ + short_name + "', but the upstream is gone.\n (use \"git branch --unset-upstream\" to fixup)"@
    } else if ahead == 0 && behind == 0 {
        "Your branch is up to date with '"@ + short_name + "'."@
    } else if ahead == 0 {
        "Your branch is behind '"@ + short_name + "' by "@ + decimal_text(behind) + " commit"@
            + plural(behind)
            + ", and can be fast-forwarded.\n  (use \"git pull\" to update your local branch)"@
    } else if behind == 0 {
        "Your branch is ahead of '"@ + short_name + "' by "@ + decimal_text(ahead) + " commit"@
            + plural(ahead) + ".\n  (use \"git push\" to publish your local commits)"@
    } else {
        "Your branch and '"@ + short_name + "' have diverged,\nand have "@ + decimal_text(ahead)
            + " and "@ + decimal_text(behind)
            + " different commits each, respectively.\n  (use \"git pull\" to merge the remote branch into yours)"@
    }
}

/// The paragraph on the followed branch; nothing where HEAD is detached or the
/// branch follows none.
pub open spec fn remote_difference_message(
    branch: Option<Seq<char>>,
    upstream: Option<Upstream>,
) -> Seq<SpanView> {
    match (branch, upstream) {
        (Some(_), Some(upstream)) => seq![
            plain(
                difference_text(
                    without_prefix(upstream.name@, "refs/remotes/"@),
                    upstream.exists,
                    upstream.ahead as nat,
                    upstream.behind as nat,
                ),
            ),
            plain("\n\n"@),
        ],
        _ => Seq::empty(),
    }
}

/// The lines of the tracked files that are changed but not staged: each in the
/// colour of changed files, the note of a submodule behind it without colour.
pub open spec fn unstaged_lines(entries: Seq<StatusEntryView>) -> Seq<SpanView>
    decreases entries.len(),
{
    if entries.len() == 0 {
        Seq::empty()
    } else {
        let earlier = unstaged_lines(entries.drop_last());
        let entry = entries.last();
        match entry.state {
            StatusView::New => earlier,
            StatusView::Modified(Some(note)) => earlier.push(
                painted(
                    StatusColorSlot::Changed,
                    "\n        "@ + long_label(entry.state) + entry.name,
                ),
            ).push(plain(" ("@ + note + ")"@)),
            _ => earlier.push(
                painted(
                    StatusColorSlot::Changed,
                    "\n        "@ + long_label(entry.state) + entry.name,
                ),
            ),
        }
    }
}

/// The heading of the changes that are not staged.
pub open spec fn unstaged_heading() -> Seq<char> {
    "Changes not staged for commit:\n  (use \"git add <file>...\" to update what will be committed)\n  (use \"git restore <file>...\" to discard changes in working directory)"@
}

/// The section on the changes that are not staged; nothing where there are none.
pub open spec fn unstaged_message(entries: Seq<StatusEntryView>) -> Seq<SpanView> {
    if unstaged_lines(entries).len() == 0 {
        Seq::empty()
    } else {
        seq![plain(unstaged_heading())] + unstaged_lines(entries) + seq![plain("\n\n"@)]
    }
}

/// The lines of a list of paths, each but the first on a line of its own,
/// indented.
pub open spec fn joined_lines(lines: Seq<Seq<char>>) -> Seq<char>
    decreases lines.len(),
{
    if lines.len() == 0 {
        Seq::empty()
    } else if lines.len() == 1 {
        lines[0]
    } else {
        joined_lines(lines.drop_last()) + "\n        "@ + lines.last()
    }
}

/// The staged changes, each as its label and its path.
pub open spec fn staged_lines(entries: Seq<StatusEntryView>) -> Seq<Seq<char>> {
    Seq::new(entries.len(), |i: int| long_label(entries[i].state) + entries[i].name)
}

/// The heading of the changes that are staged.
pub open spec fn staged_heading() -> Seq<char> {
    "Changes to be committed:\n  (use \"git restore --staged <file>...\" to unstage)\n        "@
}

/// The section on the staged changes; nothing where there are none.
pub open spec fn staged_message(entries: Seq<StatusEntryView>) -> Seq<SpanView> {
    if entries.len() == 0 {
        Seq::empty()
    } else {
        seq![
            plain(staged_heading()),
            painted(StatusColorSlot::Added, joined_lines(staged_lines(entries))),
            plain("\n\n"@),
        ]
    }
}

/// The paths that are not tracked, in their order.
pub open spec fn untracked_names(entries: Seq<StatusEntryView>) -> Seq<Seq<char>>
    decreases entries.len(),
{
    if entries.len() == 0 {
        Seq::empty()
    } else if entries.last().state is New {
        untracked_names(entries.drop_last()).push(entries.last().name)
    } else {
        untracked_names(entries.drop_last())
    }
}

/// The heading of the paths that are not tracked.
pub open spec fn untracked_heading() -> Seq<char> {
    "Untracked files:\n  (use \"git add <file>...\" to include in what will be committed)\n        "@
}

/// The section on the paths that are not tracked; nothing where there are none.
pub open spec fn untracked_message(entries: Seq<StatusEntryView>) -> Seq<SpanView> {
    if untracked_names(entries).len() == 0 {
        Seq::empty()
    } else {
        seq![
            plain(untracked_heading()),
            painted(StatusColorSlot::Untracked, joined_lines(untracked_names(entries))),
            plain("\n\n"@),
        ]
    }
}

/// The last line of the long report: nothing where changes are staged, else
/// what there is that could be staged.
pub open spec fn epilog(staged: bool, unstaged: bool, untracked: bool) -> Seq<SpanView> {
    if staged {
        Seq::empty()
    } else if unstaged {
        seq![plain("no changes added to commit (use \"git add\" and/or \"git commit -a\")\n"@)]
    } else if untracked {
        seq![
            plain(
                "nothing added to commit but untracked files present (use \"git add\" to track)\n"@,
            ),
        ]
    } else {
        seq![plain("nothing to commit, working tree clean\n"@)]
    }
}

/// The lines of the short report for the staged changes.
pub open spec fn short_staged(entries: Seq<StatusEntryView>) -> Seq<SpanView>
    decreases entries.len(),
{
    if entries.len() == 0 {
        Seq::empty()
    } else {
        short_staged(entries.drop_last()).push(
            painted(StatusColorSlot::Added, short_code(entries.last().state) + "  "@),
        ).push(plain(entries.last().name + "\n"@))
    }
}

/// The lines of the short report for the changes that are not staged.
pub open spec fn short_unstaged(entries: Seq<StatusEntryView>) -> Seq<SpanView>
    decreases entries.len(),
{
    if entries.len() == 0 {
        Seq::empty()
    } else if entries.last().state is New {
        short_unstaged(entries.drop_last())
    } else {
        short_unstaged(entries.drop_last()).push(
            painted(StatusColorSlot::Changed, " "@ + short_code(entries.last().state) + " "@),
        ).push(plain(entries.last().name + "\n"@))
    }
}

/// The lines of the short report for the paths that are not tracked.
pub open spec fn short_untracked(entries: Seq<StatusEntryView>) -> Seq<SpanView>
    decreases entries.len(),
{
    if entries.len() == 0 {
        Seq::empty()
    } else if entries.last().state is New {
        short_untracked(entries.drop_last()).push(
            painted(StatusColorSlot::Untracked, "?? "@),
        ).push(plain(entries.last().name + "\n"@))
    } else {
        short_untracked(entries.drop_last())
    }
}

impl RepoStatus {
    /// The full name of the branch that HEAD is on.
    pub open spec fn spec_branch(&self) -> Option<Seq<char>> {
        match self.branch {
            Some(name) => Some(name@),
            None => None,
        }
    }

    /// The long report: the branch, how it stands against the branch that it
    /// follows, the three sections, and the last line.
    pub open spec fn long_message(&self) -> Seq<SpanView> {
        branch_message(self.spec_branch(), self.head@) + remote_difference_message(
            self.spec_branch(),
            self.upstream,
        ) + staged_message(views(self.index_diff.entries@)) + unstaged_message(
            views(self.work_tree_diff.entries@),
        ) + untracked_message(views(self.work_tree_diff.entries@)) + epilog(
            self.index_diff.entries@.len() > 0,
            unstaged_lines(views(self.work_tree_diff.entries@)).len() > 0,
            untracked_names(views(self.work_tree_diff.entries@)).len() > 0,
        )
    }

    /// The short report: a line for each staged change, each change that is not
    /// staged, and each path that is not tracked.
    pub open spec fn short_message(&self) -> Seq<SpanView> {
        short_staged(views(self.index_diff.entries@)) + short_unstaged(
            views(self.work_tree_diff.entries@),
        ) + short_untracked(views(self.work_tree_diff.entries@))
    }

    /// Puts together the status of a repository from what was found of it.
    pub fn new(
        branch: Option<String>,
        head: Vec<u8>,
        upstream: Option<Upstream>,
        state: RepositoryState,
        index_diff: TreeDiff,
        work_tree_diff: WorkTree,
    ) -> (r: RepoStatus)
        ensures
            r == (RepoStatus { branch, head, upstream, state, index_diff, work_tree_diff }),
    {
        RepoStatus { branch, head, upstream, state, index_diff, work_tree_diff }
    }

    /// The colour of a slot: the configured one where it can be read, else the
    /// slot's own.
    pub fn get_color(color_slot: StatusColorSlot, configured: Option<&str>) -> (r: Color)
        ensures
            r == match configured {
                Some(text) => match parsed_color(text@) {
                    Some(color) => color,
                    None => slot_default(color_slot),
                },
                None => slot_default(color_slot),
            },
            configured is None ==> r == slot_default(color_slot),
            configured matches Some(text) && text@ == "white"@ ==> r == Color::White,
            configured matches Some(text) && text@ == "blue"@ ==> r == Color::Blue,
            configured matches Some(text) && text@ == "yellow"@ ==> r == Color::Yellow,
            configured matches Some(text) && text@ == "red"@ ==> r == Color::Red,
            configured matches Some(text) && text@ == "green"@ ==> r == Color::Green,
            configured matches Some(text) && text@ == "black"@ ==> r == Color::Black,
            configured matches Some(text) && text@ == "cyan"@ ==> r == Color::Cyan,
            configured matches Some(text) && text@ == "magenta"@ ==> r == Color::Magenta,
    {
        match configured {
            Some(text) => color_slot.color_or_default(parse_color(text)),
            None => color_slot.default_color(),
        }
    }

    /// The name of the branch that HEAD is on; none where HEAD is detached.
    pub fn branch_name(&self) -> (r: Option<String>)
        ensures
            match r {
                Some(name) => self.spec_branch() == Some(name@),
                None => self.spec_branch() is None,
            },
    {
        match &self.branch {
            Some(name) => Some(name.clone()),
            None => None,
        }
    }

    /// The name of the branch that the current one follows.
    pub fn upstream_branch_name(&self) -> (r: Option<String>)
        ensures
            match r {
                Some(name) => self.branch is Some && self.upstream is Some && name@
                    == self.upstream->Some_0.name@,
                None => self.branch is None || self.upstream is None,
            },
    {
        match (&self.branch, &self.upstream) {
            (Some(_), Some(upstream)) => Some(upstream.name.clone()),
            _ => None,
        }
    }

    /// Refuses a repository that is in the middle of a merge, a rebase or the
    /// like.
    pub fn check_repo_state(&self) -> (r: Result<(), StatusError>)
        ensures
            match r {
                Ok(_) => self.state == RepositoryState::Clean,
                Err(error) => self.state != RepositoryState::Clean && error.kind
                    == ErrorKind::UnsupportedRepositoryState && error.message@
                    == unsupported_state_message(state_name(self.state)),
            },
    {
        match self.state {
            RepositoryState::Clean => Ok(()),
            _ => {
                let name = self.state.name();
                Err(StatusError::unsupported_state(name.as_str()))
            },
        }
    }

    /// Writes at which commit a detached HEAD is.
    pub fn get_detached_message(&self, writer: &mut Vec<Span>)
        ensures
            views(final(writer)@) == views(old(writer)@) + branch_message(None, self.head@),
    {
        let ghost before = views(writer@);
        put(writer, Some(StatusColorSlot::NoBranch), String::from_str("Head detached at "));
        put(writer, None, short_sha(self.head.as_slice()));
        put(writer, None, String::from_str("\n"));
        proof {
            assert(views(writer@) =~= before + branch_message(None, self.head@));
        }
    }

    /// Writes which branch HEAD is on.
    pub fn write_branch_message(&self, writer: &mut Vec<Span>)
        ensures
            views(final(writer)@) == views(old(writer)@) + branch_message(
                self.spec_branch(),
                self.head@,
            ),
    {
        let ghost before = views(writer@);
        match &self.branch {
            None => {
                self.get_detached_message(writer);
            },
            Some(name) => {
                let short_name = strip_prefix(name.as_str(), "refs/heads/");
                let mut message = String::from_str("On branch ");
                message.append(short_name.as_str());
                message.append("\n");
                put(writer, None, message);
                proof {
                    assert(views(writer@) =~= before + branch_message(
                        self.spec_branch(),
                        self.head@,
                    ));
                }
            },
        }
    }

    /// Writes how far the branch and the branch that it follows are apart.
    pub fn write_remote_branch_difference_message(&self, writer: &mut Vec<Span>)
        ensures
            views(final(writer)@) == views(old(writer)@) + remote_difference_message(
                self.spec_branch(),
                self.upstream,
            ),
    {
        let ghost before = views(writer@);
        let upstream = match (&self.branch, &self.upstream) {
            (Some(_), Some(upstream)) => upstream,
            _ => {
                proof {
                    assert(before + Seq::<SpanView>::empty() =~= before);
                }
                return ;
            },
        };
        let short_name = strip_prefix(upstream.name.as_str(), "refs/remotes/");
        let before_count = upstream.ahead;
        let after_count = upstream.behind;
        let mut message: String;
        if !upstream.exists {
            message = String::from_str("Your branch is based on '");
            message.append(short_name.as_str());
            message.append(
                "', but the upstream is gone.\n (use \"git branch --unset-upstream\" to fixup)",
            );
        } else if before_count == 0 && after_count == 0 {
            message = String::from_str("Your branch is up to date with '");
            message.append(short_name.as_str());
            message.append("'.");
        } else if before_count == 0 {
            message = String::from_str("Your branch is behind '");
            message.append(short_name.as_str());
            message.append("' by ");
            message.append(decimal(after_count).as_str());
            message.append(" commit");
            message.append(if after_count == 1 {
                ""
            } else {
                "s"
            });
            message.append(
                ", and can be fast-forwarded.\n  (use \"git pull\" to update your local branch)",
            );
        } else if after_count == 0 {
            message = String::from_str("Your branch is ahead of '");
            message.append(short_name.as_str());
            message.append("' by ");
            message.append(decimal(before_count).as_str());
            message.append(" commit");
            message.append(if before_count == 1 {
                ""
            } else {
                "s"
            });
            message.append(".\n  (use \"git push\" to publish your local commits)");
        } else {
            message = String::from_str("Your branch and '");
            message.append(short_name.as_str());
            message.append("' have diverged,\nand have ");
            message.append(decimal(before_count).as_str());
            message.append(" and ");
            message.append(decimal(after_count).as_str());
            message.append(
                " different commits each, respectively.\n  (use \"git pull\" to merge the remote branch into yours)",
            );
        }
        put(writer, None, message);
        put(writer, None, String::from_str("\n\n"));
        proof {
            assert(views(writer@) =~= before + remote_difference_message(
                self.spec_branch(),
                self.upstream,
            ));
        }
    }

    /// Writes the section on the changes that are not staged, and says whether
    /// there are any.
    pub fn write_unstaged_message(&self, writer: &mut Vec<Span>) -> (r: bool)
        ensures
            views(final(writer)@) == views(old(writer)@) + unstaged_message(
                views(self.work_tree_diff.entries@),
            ),
            r == (unstaged_lines(views(self.work_tree_diff.entries@)).len() > 0),
    {
        let ghost before = views(writer@);
        let ghost all = views(self.work_tree_diff.entries@);
        let entries = &self.work_tree_diff.entries;
        let mut lines: Vec<Span> = Vec::new();
        let mut i: usize = 0;
        proof {
            assert(all.take(0) =~= Seq::<StatusEntryView>::empty());
            assert(views(lines@) =~= Seq::<SpanView>::empty());
        }
        while i < entries.len()
            invariant
                i <= entries@.len(),
                all == views(entries@),
                views(lines@) == unstaged_lines(all.take(i as int)),
            decreases entries@.len() - i,
        {
            let file = &entries[i];
            proof {
                assert(all.take(i + 1).drop_last() =~= all.take(i as int));
                assert(all.take(i + 1).last() == file@);
            }
            if !file.state.is_new() {
                let mut line = String::from_str("\n        ");
                line.append(file.to_string().as_str());
                proof {
                    assert(line@ =~= "\n        "@ + long_label(file@.state) + file@.name);
                }
                put(&mut lines, Some(StatusColorSlot::Changed), line);
                match &file.state {
                    crate::status::Status::Modified(Some(note)) => {
                        let mut info = String::from_str(" (");
                        info.append(note.as_str());
                        info.append(")");
                        put(&mut lines, None, info);
                    },
                    _ => {},
                }
            }
            i += 1;
        }
        proof {
            assert(all.take(i as int) =~= all);
        }
        if lines.len() == 0 {
            proof {
                assert(before + Seq::<SpanView>::empty() =~= before);
            }
            return false;
        }
        put(
            writer,
            None,
            String::from_str(
                "Changes not staged for commit:\n  (use \"git add <file>...\" to update what will be committed)\n  (use \"git restore <file>...\" to discard changes in working directory)",
            ),
        );
        let ghost headed = views(writer@);
        let ghost added = views(lines@);
        writer.append(&mut lines);
        proof {
            assert(views(writer@) =~= headed + added);
        }
        put(writer, None, String::from_str("\n\n"));
        proof {
            assert(views(writer@) =~= before + unstaged_message(all));
        }
        true
    }

    /// Writes the section on the staged changes, and says whether there are any.
    pub fn write_staged_message(&self, writer: &mut Vec<Span>) -> (r: bool)
        ensures
            views(final(writer)@) == views(old(writer)@) + staged_message(
                views(self.index_diff.entries@),
            ),
            r == (self.index_diff.entries@.len() > 0),
    {
        let ghost before = views(writer@);
        let ghost all = views(self.index_diff.entries@);
        let entries = &self.index_diff.entries;
        if entries.len() == 0 {
            proof {
                assert(before + Seq::<SpanView>::empty() =~= before);
            }
            return false;
        }
        let mut files = String::new();
        let mut i: usize = 0;
        proof {
            assert(staged_lines(all).take(0) =~= Seq::<Seq<char>>::empty());
        }
        while i < entries.len()
            invariant
                i <= entries@.len(),
                all == views(entries@),
                files@ == joined_lines(staged_lines(all).take(i as int)),
            decreases entries@.len() - i,
        {
            proof {
                let lines = staged_lines(all);
                assert(lines.take(i + 1).drop_last() =~= lines.take(i as int));
                assert(lines.take(i + 1).last() == long_label(entries@[i as int]@.state)
                    + entries@[i as int]@.name);
                if i == 0 {
                    assert(files@ =~= Seq::<char>::empty());
                }
            }
            if i > 0 {
                files.append("\n        ");
            }
            files.append(entries[i].to_string().as_str());
            proof {
                assert(files@ =~= joined_lines(staged_lines(all).take(i + 1)));
            }
            i += 1;
        }
        proof {
            assert(staged_lines(all).take(i as int) =~= staged_lines(all));
        }
        put(
            writer,
            None,
            String::from_str(
                "Changes to be committed:\n  (use \"git restore --staged <file>...\" to unstage)\n        ",
            ),
        );
        put(writer, Some(StatusColorSlot::Added), files);
        put(writer, None, String::from_str("\n\n"));
        proof {
            assert(views(writer@) =~= before + staged_message(all));
        }
        true
    }

    /// Writes the section on the paths that are not tracked, and says whether
    /// there are any.
    pub fn write_untracked_message(&self, writer: &mut Vec<Span>) -> (r: bool)
        ensures
            views(final(writer)@) == views(old(writer)@) + untracked_message(
                views(self.work_tree_diff.entries@),
            ),
            r == (untracked_names(views(self.work_tree_diff.entries@)).len() > 0),
    {
        let ghost before = views(writer@);
        let ghost all = views(self.work_tree_diff.entries@);
        let entries = &self.work_tree_diff.entries;
        let mut files = String::new();
        let mut count: usize = 0;
        let mut i: usize = 0;
        proof {
            assert(all.take(0) =~= Seq::<StatusEntryView>::empty());
        }
        while i < entries.len()
            invariant
                i <= entries@.len(),
                all == views(entries@),
                count == untracked_names(all.take(i as int)).len(),
                count <= i,
                files@ == joined_lines(untracked_names(all.take(i as int))),
            decreases entries@.len() - i,
        {
            proof {
                assert(all.take(i + 1).drop_last() =~= all.take(i as int));
                assert(all.take(i + 1).last() == entries@[i as int]@);
                let earlier = untracked_names(all.take(i as int));
                if entries@[i as int]@.state is New {
                    assert(earlier.push(entries@[i as int]@.name).drop_last() =~= earlier);
                }
                if count == 0 {
                    assert(files@ =~= Seq::<char>::empty());
                }
            }
            if entries[i].state.is_new() {
                if count > 0 {
                    files.append("\n        ");
                }
                files.append(entries[i].name.as_str());
                count += 1;
                proof {
                    assert(files@ =~= joined_lines(untracked_names(all.take(i + 1))));
                }
            }
            i += 1;
        }
        proof {
            assert(all.take(i as int) =~= all);
        }
        if count == 0 {
            proof {
                assert(before + Seq::<SpanView>::empty() =~= before);
            }
            return false;
        }
        put(
            writer,
            None,
            String::from_str(
                "Untracked files:\n  (use \"git add <file>...\" to include in what will be committed)\n        ",
            ),
        );
        put(writer, Some(StatusColorSlot::Untracked), files);
        put(writer, None, String::from_str("\n\n"));
        proof {
            assert(views(writer@) =~= before + untracked_message(all));
        }
        true
    }

    /// Writes the last line of the long report.
    pub fn write_epilog(writer: &mut Vec<Span>, staged: bool, unstaged: bool, untracked: bool)
        ensures
            views(final(writer)@) == views(old(writer)@) + epilog(staged, unstaged, untracked),
    {
        let ghost before = views(writer@);
        if staged {
            proof {
                assert(before + Seq::<SpanView>::empty() =~= before);
            }
            return ;
        }
        if unstaged {
            put(
                writer,
                None,
                String::from_str(
                    "no changes added to commit (use \"git add\" and/or \"git commit -a\")\n",
                ),
            );
        } else if untracked {
            put(
                writer,
                None,
                String::from_str(
                    "nothing added to commit but untracked files present (use \"git add\" to track)\n",
                ),
            );
        } else {
            put(writer, None, String::from_str("nothing to commit, working tree clean\n"));
        }
        proof {
            assert(views(writer@) =~= before + epilog(staged, unstaged, untracked));
        }
    }

    /// Writes the lines of the short report for the staged changes.
    pub fn write_short_staged(&self, writer: &mut Vec<Span>)
        ensures
            views(final(writer)@) == views(old(writer)@) + short_staged(
                views(self.index_diff.entries@),
            ),
    {
        let ghost before = views(writer@);
        let ghost all = views(self.index_diff.entries@);
        let entries = &self.index_diff.entries;
        let mut i: usize = 0;
        proof {
            assert(all.take(0) =~= Seq::<StatusEntryView>::empty());
            assert(before + short_staged(all.take(0)) =~= before);
        }
        while i < entries.len()
            invariant
                i <= entries@.len(),
                all == views(entries@),
                views(writer@) == before + short_staged(all.take(i as int)),
            decreases entries@.len() - i,
        {
            let file = &entries[i];
            proof {
                assert(all.take(i + 1).drop_last() =~= all.take(i as int));
                assert(all.take(i + 1).last() == file@);
            }
            let mut code = file.state.short_status_string();
            code.append("  ");
            put(writer, Some(StatusColorSlot::Added), code);
            let mut name = file.name.clone();
            name.append("\n");
            put(writer, None, name);
            proof {
                assert(views(writer@) =~= before + short_staged(all.take(i + 1)));
            }
            i += 1;
        }
        proof {
            assert(all.take(i as int) =~= all);
        }
    }

    /// Writes the lines of the short report for the changes that are not staged.
    pub fn write_short_unstaged(&self, writer: &mut Vec<Span>)
        ensures
            views(final(writer)@) == views(old(writer)@) + short_unstaged(
                views(self.work_tree_diff.entries@),
            ),
    {
        let ghost before = views(writer@);
        let ghost all = views(self.work_tree_diff.entries@);
        let entries = &self.work_tree_diff.entries;
        let mut i: usize = 0;
        proof {
            assert(all.take(0) =~= Seq::<StatusEntryView>::empty());
            assert(before + short_unstaged(all.take(0)) =~= before);
        }
        while i < entries.len()
            invariant
                i <= entries@.len(),
                all == views(entries@),
                views(writer@) == before + short_unstaged(all.take(i as int)),
            decreases entries@.len() - i,
        {
            let file = &entries[i];
            proof {
                assert(all.take(i + 1).drop_last() =~= all.take(i as int));
                assert(all.take(i + 1).last() == file@);
            }
            if !file.state.is_new() {
                let mut code = String::from_str(" ");
                code.append(file.state.short_status_string().as_str());
                code.append(" ");
                put(writer, Some(StatusColorSlot::Changed), code);
                let mut name = file.name.clone();
                name.append("\n");
                put(writer, None, name);
                proof {
                    assert(views(writer@) =~= before + short_unstaged(all.take(i + 1)));
                }
            }
            i += 1;
        }
        proof {
            assert(all.take(i as int) =~= all);
        }
    }

    /// Writes the lines of the short report for the paths that are not tracked.
    pub fn write_short_untracked(&self, writer: &mut Vec<Span>)
        ensures
            views(final(writer)@) == views(old(writer)@) + short_untracked(
                views(self.work_tree_diff.entries@),
            ),
    {
        let ghost before = views(writer@);
        let ghost all = views(self.work_tree_diff.entries@);
        let entries = &self.work_tree_diff.entries;
        let mut i: usize = 0;
        proof {
            assert(all.take(0) =~= Seq::<StatusEntryView>::empty());
            assert(before + short_untracked(all.take(0)) =~= before);
        }
        while i < entries.len()
            invariant
                i <= entries@.len(),
                all == views(entries@),
                views(writer@) == before + short_untracked(all.take(i as int)),
            decreases entries@.len() - i,
        {
            let file = &entries[i];
            proof {
                assert(all.take(i + 1).drop_last() =~= all.take(i as int));
                assert(all.take(i + 1).last() == file@);
            }
            if file.state.is_new() {
                put(writer, Some(StatusColorSlot::Untracked), String::from_str("?? "));
                let mut name = file.name.clone();
                name.append("\n");
                put(writer, None, name);
                proof {
                    assert(views(writer@) =~= before + short_untracked(all.take(i + 1)));
                }
            }
            i += 1;
        }
        proof {
            assert(all.take(i as int) =~= all);
        }
    }

    /// Writes the short report, unless the repository is in the middle of a
    /// merge, a rebase or the like.
    pub fn write_short_message(&self, writer: &mut Vec<Span>) -> (r: Result<(), StatusError>)
        ensures
            match r {
                Ok(_) => self.state == RepositoryState::Clean && views(final(writer)@) == views(
                    old(writer)@,
                ) + self.short_message(),
                Err(error) => self.state != RepositoryState::Clean && error.kind
                    == ErrorKind::UnsupportedRepositoryState && error.message@
                    == unsupported_state_message(state_name(self.state)) && final(writer)@ == old(
                    writer,
                )@,
            },
    {
        let ghost before = views(writer@);
        match self.check_repo_state() {
            Err(error) => {
                return Err(error);
            },
            Ok(_) => {},
        }
        self.write_short_staged(writer);
        self.write_short_unstaged(writer);
        self.write_short_untracked(writer);
        proof {
            assert(views(writer@) =~= before + self.short_message());
        }
        Ok(())
    }

    /// Writes the long report, unless the repository is in the middle of a
    /// merge, a rebase or the like.
    pub fn write_long_message(&self, writer: &mut Vec<Span>) -> (r: Result<(), StatusError>)
        ensures
            match r {
                Ok(_) => self.state == RepositoryState::Clean && views(final(writer)@) == views(
                    old(writer)@,
                ) + self.long_message(),
                Err(error) => self.state != RepositoryState::Clean && error.kind
                    == ErrorKind::UnsupportedRepositoryState && error.message@
                    == unsupported_state_message(state_name(self.state)) && final(writer)@ == old(
                    writer,
                )@,
            },
    {
        let ghost before = views(writer@);
        match self.check_repo_state() {
            Err(error) => {
                return Err(error);
            },
            Ok(_) => {},
        }
        self.write_branch_message(writer);
        self.write_remote_branch_difference_message(writer);
        let staged = self.write_staged_message(writer);
        let unstaged = self.write_unstaged_message(writer);
        let untracked = self.write_untracked_message(writer);
        RepoStatus::write_epilog(writer, staged, unstaged, untracked);
        proof {
            assert(views(writer@) =~= before + self.long_message());
        }
        Ok(())
    }
}

} // verus!
