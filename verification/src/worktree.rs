use crate::directories::key_of;
use crate::direntry::{DirEntry, DirEntryView, FileStat, ObjectType};
use crate::error::{submodule_message, ErrorKind, StatusError};
use crate::ignores::{chain_verdict, IgnoreChain, IgnoreMatch, IgnoreRulesView};
use crate::index::Index;
use crate::names::{
    append_slash, compare_bytes, compare_names, join_path, joined, lemma_byte_order_equal,
    name_order, same_name, with_slash, NameOrder,
};
use crate::sorting::{
    is_sorted, lemma_sorted_is_sorted, lemma_sorted_permutes, reversed, sort_by_name, sorted,
    views, Named,
};
use crate::status::{Status, StatusEntry, StatusEntryView, StatusView};
use crate::tree::TreeDiff;
use vstd::prelude::*;
use vstd::string::*;

verus! {

/// How a working tree differs from its index: the changes not staged, and the
/// paths that are not tracked.
#[derive(Debug, Default, PartialEq, Eq, Clone)]
pub struct WorkTree {
    pub entries: Vec<StatusEntry>,
}

/// What was found in a repository nested in the working tree.
#[derive(Debug, Default, PartialEq, Eq, Clone)]
pub struct Submodule {
    /// The id of the commit that its HEAD points to.
    pub head: Vec<u8>,
    /// How its index differs from its HEAD.
    pub staged: TreeDiff,
    /// How its working tree differs from its index.
    pub worktree: WorkTree,
}

/// The outcome of looking for a repository in a directory of the working tree.
#[derive(Debug, PartialEq, Eq, Clone)]
pub enum Probe {
    /// There is no repository: the submodule was never initialised.
    Absent,
    /// There is one, but it could not be opened; the reason is given.
    Unreadable(String),
    Opened(Submodule),
}

/// An item of the working tree as it was read from its directory, together with
/// what was read below it.
#[derive(Debug, PartialEq, Eq)]
pub struct ReadDirEntry {
    pub name: String,
    pub is_dir: bool,
    /// Whether the walk goes on into this directory.
    pub process: bool,
    pub stat: FileStat,
    /// The directory that the item lies in, relative to the working directory,
    /// with `/` between its components; `""` for the working directory itself.
    pub parent_path: String,
    /// For a directory, the items in it.
    pub children: Vec<ReadDirEntry>,
    /// For a directory with a file `.gitignore`, the lines of that file.
    pub ignore_lines: Option<Vec<String>>,
    /// For a directory, what looking for a repository in it gave.
    pub probe: Probe,
}

impl View for ReadDirEntry {
    type V = ReadDirEntry;

    open spec fn view(&self) -> ReadDirEntry {
        *self
    }
}

impl Named for ReadDirEntry {
    open spec fn name_of(v: ReadDirEntry) -> Seq<char> {
        v.name@
    }

    fn name(&self) -> (r: &str) {
        self.name.as_str()
    }
}

impl Named for StatusEntry {
    open spec fn name_of(v: StatusEntryView) -> Seq<char> {
        v.name
    }

    fn name(&self) -> (r: &str) {
        self.name.as_str()
    }
}

impl ReadDirEntry {
    /// The item's path relative to the working directory.
    pub open spec fn spec_path(&self) -> Seq<char> {
        joined(self.parent_path@, self.name@)
    }

    /// The item's path relative to the working directory, with `/` between its
    /// components.
    pub fn path(&self) -> (r: String)
        ensures
            r@ == self.spec_path(),
    {
        join_path(self.parent_path.as_str(), self.name.as_str())
    }

    /// A file `name` in the directory `parent_path`.
    pub fn file(parent_path: &str, name: &str, stat: FileStat) -> (r: ReadDirEntry)
        ensures
            r.name@ == name@,
            r.parent_path@ == parent_path@,
            !r.is_dir,
            r.process,
            r.stat == stat,
            r.children@.len() == 0,
            r.ignore_lines is None,
            r.probe is Absent,
    {
        ReadDirEntry {
            name: String::from_str(name),
            is_dir: false,
            process: true,
            stat,
            parent_path: String::from_str(parent_path),
            children: Vec::new(),
            ignore_lines: None,
            probe: Probe::Absent,
        }
    }

    /// A directory `name` in the directory `parent_path`, with the items in it.
    pub fn directory(parent_path: &str, name: &str, children: Vec<ReadDirEntry>) -> (r:
        ReadDirEntry)
        ensures
            r.name@ == name@,
            r.parent_path@ == parent_path@,
            r.is_dir,
            r.process,
            r.stat == (FileStat { mtime: 0, size: 0 }),
            r.children == children,
            r.ignore_lines is None,
            r.probe is Absent,
    {
        ReadDirEntry {
            name: String::from_str(name),
            is_dir: true,
            process: true,
            stat: FileStat { mtime: 0, size: 0 },
            parent_path: String::from_str(parent_path),
            children,
            ignore_lines: None,
            probe: Probe::Absent,
        }
    }
}

/// Something that a walk of the working tree came upon: a status entry, or a
/// failure that ends the run.
#[derive(Debug, PartialEq, Eq, Clone)]
pub enum Finding {
    Entry(StatusEntry),
    Failure(StatusError),
}

/// A finding as mathematical values.
pub ghost enum FindingView {
    Entry(StatusEntryView),
    Failure { kind: ErrorKind, message: Seq<char> },
}

impl View for Finding {
    type V = FindingView;

    open spec fn view(&self) -> FindingView {
        match self {
            Finding::Entry(entry) => FindingView::Entry(entry@),
            Finding::Failure(error) => FindingView::Failure {
                kind: error.kind,
                message: error.message@,
            },
        }
    }
}

/// The note on a submodule: which of the three things hold of it, in this order
/// and with commas between them; none where nothing holds.
pub open spec fn submodule_detail(new_commits: bool, modified: bool, untracked: bool) -> Option<
    Seq<char>,
> {
    match (new_commits, modified, untracked) {
        (false, false, false) => None,
        (true, false, false) => Some("new commits"@),
        (false, true, false) => Some("modified content"@),
        (false, false, true) => Some("untracked content"@),
        (true, true, false) => Some("new commits, modified content"@),
        (true, false, true) => Some("new commits, untracked content"@),
        (false, true, true) => Some("modified content, untracked content"@),
        (true, true, true) => Some("new commits, modified content, untracked content"@),
    }
}

/// Whether a tracked file of the list is modified or deleted.
pub open spec fn has_changes(entries: Seq<StatusEntry>) -> bool {
    exists|i: int|
        0 <= i < entries.len() && ((#[trigger] entries[i]).state@ is Modified
            || entries[i].state@ is Deleted)
}

/// Whether the list holds a path that is not tracked.
pub open spec fn has_untracked(entries: Seq<StatusEntry>) -> bool {
    exists|i: int| 0 <= i < entries.len() && (#[trigger] entries[i]).state@ is New
}

/// Whether the nested repository is at another commit than the one recorded.
pub open spec fn new_commits(recorded: Seq<u8>, found: Submodule) -> bool {
    found.head@ != recorded
}

/// Whether the nested repository has staged changes, or tracked files that are
/// modified or deleted.
pub open spec fn modified_content(found: Submodule) -> bool {
    found.staged.entries@.len() > 0 || has_changes(found.worktree.entries@)
}

/// Whether the nested repository has files that are neither tracked nor ignored.
pub open spec fn untracked_content(found: Submodule) -> bool {
    has_untracked(found.worktree.entries@)
}

/// What a submodule at `name`, recorded at the commit `recorded`, contributes.
pub open spec fn probe_finding(name: Seq<char>, recorded: Seq<u8>, probe: Probe) -> Option<
    FindingView,
> {
    match probe {
        Probe::Absent => None,
        Probe::Unreadable(reason) => Some(
            FindingView::Failure {
                kind: ErrorKind::Io,
                message: submodule_message(name, reason@),
            },
        ),
        Probe::Opened(found) => match submodule_detail(
            new_commits(recorded, found),
            modified_content(found),
            untracked_content(found),
        ) {
            None => None,
            Some(detail) => Some(
                FindingView::Entry(
                    StatusEntryView { name, state: StatusView::Modified(Some(detail)) },
                ),
            ),
        },
    }
}

/// The note on a submodule of which the three facts are known.
pub fn submodule_detail_text(new_commits: bool, modified: bool, untracked: bool) -> (r: Option<
    String,
>)
    ensures
        match r {
            Some(text) => submodule_detail(new_commits, modified, untracked) == Some(text@),
            None => submodule_detail(new_commits, modified, untracked) is None,
        },
{
    match (new_commits, modified, untracked) {
        (false, false, false) => None,
        (true, false, false) => Some(String::from_str("new commits")),
        (false, true, false) => Some(String::from_str("modified content")),
        (false, false, true) => Some(String::from_str("untracked content")),
        (true, true, false) => Some(String::from_str("new commits, modified content")),
        (true, false, true) => Some(String::from_str("new commits, untracked content")),
        (false, true, true) => Some(String::from_str("modified content, untracked content")),
        (true, true, true) => Some(
            String::from_str("new commits, modified content, untracked content"),
        ),
    }
}

fn any_change(entries: &Vec<StatusEntry>) -> (r: bool)
    ensures
        r == has_changes(entries@),
{
    let mut i: usize = 0;
    while i < entries.len()
        invariant
            i <= entries@.len(),
            forall|j: int|
                0 <= j < i ==> !((#[trigger] entries@[j]).state@ is Modified
                    || entries@[j].state@ is Deleted),
        decreases entries@.len() - i,
    {
        if entries[i].state.is_modified() || entries[i].state.is_deleted() {
            return true;
        }
        i += 1;
    }
    false
}

fn any_untracked(entries: &Vec<StatusEntry>) -> (r: bool)
    ensures
        r == has_untracked(entries@),
{
    let mut i: usize = 0;
    while i < entries.len()
        invariant
            i <= entries@.len(),
            forall|j: int| 0 <= j < i ==> !((#[trigger] entries@[j]).state@ is New),
        decreases entries@.len() - i,
    {
        if entries[i].state.is_new() {
            return true;
        }
        i += 1;
    }
    false
}

/// Decides what a submodule contributes, from what was found in its directory.
pub fn submodule_spawned_status(name: String, index_sha: &[u8], probe: &Probe) -> (r: Option<
    Finding,
>)
    ensures
        match r {
            Some(finding) => probe_finding(name@, index_sha@, *probe) == Some(finding@),
            None => probe_finding(name@, index_sha@, *probe) is None,
        },
{
    match probe {
        Probe::Absent => None,
        Probe::Unreadable(reason) => Some(
            Finding::Failure(StatusError::submodule(name.as_str(), reason.as_str())),
        ),
        Probe::Opened(found) => {
            proof {
                lemma_byte_order_equal(found.head@, index_sha@);
            }
            let new_commits = match compare_bytes(found.head.as_slice(), index_sha) {
                NameOrder::Equal => false,
                _ => true,
            };
            let modified_content = found.staged.entries.len() > 0 || any_change(
                &found.worktree.entries,
            );
            let untracked_content = any_untracked(&found.worktree.entries);
            match submodule_detail_text(new_commits, modified_content, untracked_content) {
                None => None,
                Some(detail) => Some(
                    Finding::Entry(StatusEntry { name, state: Status::Modified(Some(detail)) }),
                ),
            }
        },
    }
}

/// What the submodule in the directory `dir_entry`, tracked as `index_entry`,
/// contributes.
pub fn submodule_status(dir_entry: &ReadDirEntry, index_entry: &DirEntry) -> (r: Option<Finding>)
    ensures
        match r {
            Some(finding) => probe_finding(
                dir_entry.spec_path(),
                index_entry@.sha,
                dir_entry.probe,
            ) == Some(finding@),
            None => probe_finding(dir_entry.spec_path(), index_entry@.sha, dir_entry.probe) is None,
        },
{
    let name = dir_entry.path();
    submodule_spawned_status(name, index_entry.sha.as_slice(), &dir_entry.probe)
}

/// What an item contributes that is both in the working tree and in the index:
/// a submodule or a directory is examined as a nested repository, a file is
/// modified if its time or size differs from the index.
pub open spec fn tracked_finding(item: ReadDirEntry, entry: DirEntryView) -> Option<FindingView> {
    if entry.object_type == ObjectType::GitLink || item.is_dir {
        probe_finding(item.spec_path(), entry.sha, item.probe)
    } else if item.stat != entry.stat {
        Some(
            FindingView::Entry(
                StatusEntryView { name: item.spec_path(), state: StatusView::Modified(None) },
            ),
        )
    } else {
        None
    }
}

/// Whether the walk stops at an item that is both in the working tree and in the
/// index: it does at a submodule and at a directory.
pub open spec fn tracked_stops(item: ReadDirEntry, entry: DirEntryView) -> bool {
    entry.object_type == ObjectType::GitLink || item.is_dir
}

/// Handles an item that is both in the working tree and in the index.
pub fn process_tracked_item(dir_entry: &mut ReadDirEntry, index_entry: &DirEntry) -> (r: Option<
    Finding,
>)
    ensures
        match r {
            Some(finding) => tracked_finding(*old(dir_entry), index_entry@) == Some(finding@),
            None => tracked_finding(*old(dir_entry), index_entry@) is None,
        },
        *final(dir_entry) == (ReadDirEntry {
            process: old(dir_entry).process && !tracked_stops(*old(dir_entry), index_entry@),
            ..*old(dir_entry)
        }),
{
    if index_entry.object_type.is_git_link() || dir_entry.is_dir {
        // The walk does not go into a nested repository.
        dir_entry.process = false;
        return submodule_status(dir_entry, index_entry);
    }
    if !dir_entry.stat.same_as(&index_entry.stat) {
        let name = dir_entry.path();
        return Some(Finding::Entry(StatusEntry { name, state: Status::Modified(None) }));
    }
    None
}

/// What an entry of the index contributes that the working tree lacks: a
/// deletion, unless it is a submodule, which its user may not have fetched.
pub open spec fn missing_entry(directory: Seq<char>, entry: DirEntryView) -> Option<
    StatusEntryView,
> {
    if entry.object_type == ObjectType::GitLink {
        None
    } else {
        Some(StatusEntryView { name: joined(directory, entry.name), state: StatusView::Deleted })
    }
}

/// Handles an entry of the index in `directory` that the working tree lacks.
pub fn process_deleted_item(directory: &str, index_entry: &DirEntry) -> (r: Option<StatusEntry>)
    ensures
        match r {
            Some(entry) => missing_entry(directory@, index_entry@) == Some(entry@),
            None => missing_entry(directory@, index_entry@) is None,
        },
{
    if index_entry.object_type.is_git_link() {
        return None;
    }
    Some(
        StatusEntry {
            name: join_path(directory, index_entry.name.as_str()),
            state: Status::Deleted,
        },
    )
}

/// Whether a directory with these items holds, at any depth, a file that the
/// chain does not ignore.
pub open spec fn has_trackable_file(
    entries: Seq<ReadDirEntry>,
    chain: Seq<IgnoreRulesView>,
) -> bool
    decreases entries,
{
    exists|i: int|
        0 <= i < entries.len() && if (#[trigger] entries[i]).is_dir {
            has_trackable_file(entries[i].children@, chain)
        } else {
            chain_verdict(chain, entries[i].spec_path(), false) != IgnoreMatch::Ignored
        }
}

/// Whether a directory with these items holds, at any depth, a file that the
/// chain does not ignore.
pub fn directory_has_one_trackable_file(entries: &Vec<ReadDirEntry>, ignores: &IgnoreChain) -> (r:
    bool)
    ensures
        r == has_trackable_file(entries@, ignores@),
    decreases entries,
{
    let mut i: usize = 0;
    while i < entries.len()
        invariant
            i <= entries@.len(),
            forall|j: int|
                0 <= j < i ==> !(if (#[trigger] entries@[j]).is_dir {
                    has_trackable_file(entries@[j].children@, ignores@)
                } else {
                    chain_verdict(ignores@, entries@[j].spec_path(), false) != IgnoreMatch::Ignored
                }),
        decreases entries@.len() - i,
    {
        let entry = &entries[i];
        if !entry.is_dir {
            let name = entry.path();
            if !ignores.ignores(name.as_str(), false) {
                return true;
            }
        } else if directory_has_one_trackable_file(&entry.children, ignores) {
            return true;
        }
        i += 1;
    }
    false
}

/// Whether an item that the index does not list, and that the working directory
/// knows as `name`, is left out of the report: a file or directory that the chain
/// ignores, and a directory that the chain says nothing of and that holds no file
/// to report.
pub open spec fn ignored(item: ReadDirEntry, name: Seq<char>, chain: Seq<IgnoreRulesView>) -> bool {
    match chain_verdict(chain, name, item.is_dir) {
        IgnoreMatch::Whitelisted => false,
        IgnoreMatch::Ignored => true,
        IgnoreMatch::Unmatched => item.is_dir && !has_trackable_file(item.children@, chain),
    }
}

/// Whether an item that the index does not list is left out of the report.
pub fn is_ignored(entry: &ReadDirEntry, name: &str, ignores: &IgnoreChain) -> (r: bool)
    ensures
        r == ignored(*entry, name@, ignores@),
{
    match ignores.matched(name, entry.is_dir) {
        IgnoreMatch::Whitelisted => false,
        IgnoreMatch::Ignored => true,
        IgnoreMatch::Unmatched => {
            // A directory is reported only if a file in it would be.
            entry.is_dir && !directory_has_one_trackable_file(&entry.children, ignores)
        },
    }
}

/// What an item of the working tree contributes that the index does not list in
/// its directory: nothing if it is a directory with tracked files in it or if it
/// is ignored, else a new path, a directory with `/` behind it.
pub open spec fn unknown_entry(
    item: ReadDirEntry,
    index: Map<Seq<u8>, Seq<DirEntryView>>,
    chain: Seq<IgnoreRulesView>,
) -> Option<StatusEntryView> {
    if item.is_dir && index.dom().contains(key_of(item.spec_path())) {
        None
    } else if ignored(item, item.spec_path(), chain) {
        None
    } else if item.is_dir {
        Some(StatusEntryView { name: with_slash(item.spec_path()), state: StatusView::New })
    } else {
        Some(StatusEntryView { name: item.spec_path(), state: StatusView::New })
    }
}

/// Whether the walk stops at an item that the index does not list in its
/// directory: it does at a directory without tracked files in it.
pub open spec fn unknown_stops(item: ReadDirEntry, index: Map<Seq<u8>, Seq<DirEntryView>>) -> bool {
    item.is_dir && !index.dom().contains(key_of(item.spec_path()))
}

/// Whether the comparison passes over a directory that lies in a walked
/// directory, whatever it holds: it does where the index knows no tracked file
/// below `path` and the chain ignores the directory.
pub open spec fn passed_over(
    path: Seq<char>,
    index: Map<Seq<u8>, Seq<DirEntryView>>,
    chain: Seq<IgnoreRulesView>,
) -> bool {
    !index.dom().contains(key_of(path)) && chain_verdict(chain, path, true)
        == IgnoreMatch::Ignored
}

/// Whether the comparison passes over the directory at `path`, so that what it
/// holds need not be read.
pub fn is_passed_over(path: &str, index: &Index, ignores: &IgnoreChain) -> (r: bool)
    requires
        index.wf(),
    ensures
        r == passed_over(path@, index@, ignores@),
{
    !index.entries.contains_key(path) && ignores.ignores(path, true)
}

/// Handles an item of the working tree that the index does not list in its
/// directory.
pub fn process_new_item(dir_entry: &mut ReadDirEntry, index: &Index, ignores: &IgnoreChain) -> (r:
    Option<StatusEntry>)
    requires
        index.wf(),
    ensures
        match r {
            Some(entry) => unknown_entry(*old(dir_entry), index@, ignores@) == Some(entry@),
            None => unknown_entry(*old(dir_entry), index@, ignores@) is None,
        },
        *final(dir_entry) == (ReadDirEntry {
            process: old(dir_entry).process && !unknown_stops(*old(dir_entry), index@),
            ..*old(dir_entry)
        }),
{
    let name = dir_entry.path();
    if dir_entry.is_dir {
        if index.entries.contains_key(name.as_str()) {
            return None;
        }
        dir_entry.process = false;
    }
    if is_ignored(dir_entry, name.as_str(), ignores) {
        return None;
    }
    let name = if dir_entry.is_dir {
        append_slash(name)
    } else {
        name
    };
    Some(StatusEntry { name, state: Status::New })
}

/// One step of going through a directory's listing and its index entries side by
/// side: an item that both have, one that only the working tree has, or one that
/// only the index has.
pub ghost enum Step {
    Both { item: int, entry: int },
    Unknown { item: int },
    Missing { entry: int },
}

/// How many of `len` positions are left at position `at`.
pub open spec fn left(len: nat, at: int) -> nat {
    if 0 <= at < len {
        (len - at) as nat
    } else {
        0
    }
}

/// The steps that remain when the listing has been gone through up to `w` and the
/// index entries up to `i`: the smaller of the two names at hand is dealt with
/// first, and both at once where they are equal.
pub open spec fn merge_steps(
    listing: Seq<ReadDirEntry>,
    slice: Seq<DirEntryView>,
    w: int,
    i: int,
) -> Seq<Step>
    decreases left(listing.len(), w) + left(slice.len(), i),
{
    if 0 <= w < listing.len() && 0 <= i < slice.len() {
        match name_order(listing[w].name@, slice[i].name) {
            NameOrder::Equal => seq![Step::Both { item: w, entry: i }] + merge_steps(
                listing,
                slice,
                w + 1,
                i + 1,
            ),
            NameOrder::Less => seq![Step::Unknown { item: w }] + merge_steps(
                listing,
                slice,
                w + 1,
                i,
            ),
            NameOrder::Greater => seq![Step::Missing { entry: i }] + merge_steps(
                listing,
                slice,
                w,
                i + 1,
            ),
        }
    } else if 0 <= w < listing.len() {
        seq![Step::Unknown { item: w }] + merge_steps(listing, slice, w + 1, i)
    } else if 0 <= i < slice.len() {
        seq![Step::Missing { entry: i }] + merge_steps(listing, slice, w, i + 1)
    } else {
        Seq::empty()
    }
}

/// All the steps of comparing a listing with the index entries of its directory.
pub open spec fn steps_of(listing: Seq<ReadDirEntry>, slice: Seq<DirEntryView>) -> Seq<Step> {
    merge_steps(listing, slice, 0, 0)
}

/// What one step contributes.
pub open spec fn step_finding(
    step: Step,
    listing: Seq<ReadDirEntry>,
    slice: Seq<DirEntryView>,
    directory: Seq<char>,
    index: Map<Seq<u8>, Seq<DirEntryView>>,
    chain: Seq<IgnoreRulesView>,
) -> Option<FindingView> {
    match step {
        Step::Both { item, entry } => tracked_finding(listing[item], slice[entry]),
        Step::Unknown { item } => match unknown_entry(listing[item], index, chain) {
            Some(found) => Some(FindingView::Entry(found)),
            None => None,
        },
        Step::Missing { entry } => match missing_entry(directory, slice[entry]) {
            Some(found) => Some(FindingView::Entry(found)),
            None => None,
        },
    }
}

/// What the steps contribute, in their order.
pub open spec fn findings_of(
    steps: Seq<Step>,
    listing: Seq<ReadDirEntry>,
    slice: Seq<DirEntryView>,
    directory: Seq<char>,
    index: Map<Seq<u8>, Seq<DirEntryView>>,
    chain: Seq<IgnoreRulesView>,
) -> Seq<FindingView>
    decreases steps.len(),
{
    if steps.len() == 0 {
        Seq::empty()
    } else {
        let earlier = findings_of(steps.drop_last(), listing, slice, directory, index, chain);
        match step_finding(steps.last(), listing, slice, directory, index, chain) {
            Some(finding) => earlier.push(finding),
            None => earlier,
        }
    }
}

/// Whether a step stops the walk at the item `k` of the listing.
pub open spec fn step_stops(
    step: Step,
    listing: Seq<ReadDirEntry>,
    slice: Seq<DirEntryView>,
    index: Map<Seq<u8>, Seq<DirEntryView>>,
    k: int,
) -> bool {
    match step {
        Step::Both { item, entry } => item == k && tracked_stops(listing[item], slice[entry]),
        Step::Unknown { item } => item == k && unknown_stops(listing[item], index),
        Step::Missing { entry } => false,
    }
}

/// Whether one of the steps stops the walk at the item `k` of the listing.
pub open spec fn stopped(
    steps: Seq<Step>,
    listing: Seq<ReadDirEntry>,
    slice: Seq<DirEntryView>,
    index: Map<Seq<u8>, Seq<DirEntryView>>,
    k: int,
) -> bool
    decreases steps.len(),
{
    if steps.len() == 0 {
        false
    } else {
        stopped(steps.drop_last(), listing, slice, index, k) || step_stops(
            steps.last(),
            listing,
            slice,
            index,
            k,
        )
    }
}

/// The item `k` of a listing as the comparison with the index leaves it: no
/// longer to be gone into where a step stopped the walk at it.
pub open spec fn marked(
    listing: Seq<ReadDirEntry>,
    slice: Seq<DirEntryView>,
    index: Map<Seq<u8>, Seq<DirEntryView>>,
    steps: Seq<Step>,
    k: int,
) -> ReadDirEntry {
    ReadDirEntry {
        process: listing[k].process && !stopped(steps, listing, slice, index, k),
        ..listing[k]
    }
}

/// What comparing a directory's listing with its index entries contributes.
pub open spec fn delta_findings(
    listing: Seq<ReadDirEntry>,
    slice: Seq<DirEntryView>,
    directory: Seq<char>,
    index: Map<Seq<u8>, Seq<DirEntryView>>,
    chain: Seq<IgnoreRulesView>,
) -> Seq<FindingView> {
    findings_of(steps_of(listing, slice), listing, slice, directory, index, chain)
}

/// Compares the items of a directory of the working tree with the entries that
/// the index lists for it, both in order of their names, and reports what
/// differs. It marks the directories that the walk is not to go into.
pub fn get_file_deltas(
    worktree: &mut Vec<ReadDirEntry>,
    index_entry: &[DirEntry],
    directory: &str,
    index: &Index,
    ignores: &IgnoreChain,
    found: &mut Vec<Finding>,
)
    requires
        index.wf(),
    ensures
        views(final(found)@) == views(old(found)@) + delta_findings(
            old(worktree)@,
            views(index_entry@),
            directory@,
            index@,
            ignores@,
        ),
        final(worktree)@.len() == old(worktree)@.len(),
        forall|k: int|
            0 <= k < old(worktree)@.len() ==> #[trigger] final(worktree)@[k] == marked(
                old(worktree)@,
                views(index_entry@),
                index@,
                steps_of(old(worktree)@, views(index_entry@)),
                k,
            ),
{
    let ghost listing = worktree@;
    let ghost slice = views(index_entry@);
    let ghost before = views(found@);
    let ghost mut done: Seq<Step> = Seq::empty();
    let mut w: usize = 0;
    let mut i: usize = 0;
    proof {
        assert(done + merge_steps(listing, slice, 0, 0) =~= steps_of(listing, slice));
        assert(before + Seq::<FindingView>::empty() =~= before);
    }
    while w < worktree.len() || i < index_entry.len()
        invariant
            index.wf(),
            w <= listing.len(),
            i <= slice.len(),
            slice == views(index_entry@),
            slice.len() == index_entry@.len(),
            worktree@.len() == listing.len(),
            steps_of(listing, slice) == done + merge_steps(listing, slice, w as int, i as int),
            views(found@) == before + findings_of(
                done,
                listing,
                slice,
                directory@,
                index@,
                ignores@,
            ),
            forall|k: int|
                0 <= k < listing.len() ==> #[trigger] worktree@[k] == marked(
                    listing,
                    slice,
                    index@,
                    done,
                    k,
                ),
        decreases (listing.len() - w) + (slice.len() - i),
    {
        let ghost earlier = worktree@;
        let order = if w < worktree.len() && i < index_entry.len() {
            compare_names(worktree[w].name.as_str(), index_entry[i].name.as_str())
        } else if w < worktree.len() {
            NameOrder::Less
        } else {
            NameOrder::Greater
        };
        let ghost step = match order {
            NameOrder::Equal => Step::Both { item: w as int, entry: i as int },
            NameOrder::Less => Step::Unknown { item: w as int },
            NameOrder::Greater => Step::Missing { entry: i as int },
        };
        proof {
            if i < slice.len() {
                assert(slice[i as int] == index_entry@[i as int]@);
            }
            if w < listing.len() {
                assert(worktree@[w as int] == marked(listing, slice, index@, done, w as int));
            }
            assert(merge_steps(listing, slice, w as int, i as int) == seq![step] + merge_steps(
                listing,
                slice,
                if order == NameOrder::Greater {
                    w as int
                } else {
                    w + 1
                },
                if order == NameOrder::Less {
                    i as int
                } else {
                    i + 1
                },
            ));
            assert(done.push(step).drop_last() =~= done);
            assert(done.push(step).last() == step);
        }
        let finding = match order {
            NameOrder::Equal => {
                let finding = process_tracked_item(&mut worktree[w], &index_entry[i]);
                w += 1;
                i += 1;
                finding
            },
            NameOrder::Less => {
                let entry = process_new_item(&mut worktree[w], index, ignores);
                w += 1;
                match entry {
                    Some(entry) => Some(Finding::Entry(entry)),
                    None => None,
                }
            },
            NameOrder::Greater => {
                let entry = process_deleted_item(directory, &index_entry[i]);
                i += 1;
                match entry {
                    Some(entry) => Some(Finding::Entry(entry)),
                    None => None,
                }
            },
        };
        proof {
            assert(match finding {
                Some(finding) => step_finding(step, listing, slice, directory@, index@, ignores@)
                    == Some(finding@),
                None => step_finding(step, listing, slice, directory@, index@, ignores@) is None,
            });
            assert forall|k: int| 0 <= k < listing.len() implies #[trigger] worktree@[k] == marked(
                listing,
                slice,
                index@,
                done.push(step),
                k,
            ) by {
                assert(earlier[k] == marked(listing, slice, index@, done, k));
            }
        }
        match finding {
            Some(finding) => {
                proof {
                    assert(views(found@.push(finding)) =~= views(found@).push(finding@));
                }
                found.push(finding);
            },
            None => {},
        }
        proof {
            let further = merge_steps(listing, slice, w as int, i as int);
            assert(done + (seq![step] + further) =~= done.push(step) + further);
            assert(before + findings_of(
                done.push(step),
                listing,
                slice,
                directory@,
                index@,
                ignores@,
            ) =~= views(found@));
            done = done.push(step);
        }
    }
    proof {
        assert(done + Seq::<Step>::empty() =~= done);
    }
}

/// The entries that the index lists for a directory; none for a directory that
/// it does not know.
pub open spec fn slice_of(index: Map<Seq<u8>, Seq<DirEntryView>>, directory: Seq<char>) -> Seq<
    DirEntryView,
> {
    if index.dom().contains(key_of(directory)) {
        index[key_of(directory)]
    } else {
        Seq::empty()
    }
}

/// Compares the items of the directory at `path`, in order of their names, with
/// what the index lists for that directory.
pub fn process_directory(
    path: &str,
    entries: &mut Vec<ReadDirEntry>,
    index: &Index,
    ignores: &IgnoreChain,
    found: &mut Vec<Finding>,
)
    requires
        index.wf(),
    ensures
        views(final(found)@) == views(old(found)@) + delta_findings(
            old(entries)@,
            slice_of(index@, path@),
            path@,
            index@,
            ignores@,
        ),
        final(entries)@.len() == old(entries)@.len(),
        forall|k: int|
            0 <= k < old(entries)@.len() ==> #[trigger] final(entries)@[k] == marked(
                old(entries)@,
                slice_of(index@, path@),
                index@,
                steps_of(old(entries)@, slice_of(index@, path@)),
                k,
            ),
{
    match index.entries.get(path) {
        Some(dir_entry) => get_file_deltas(
            entries,
            dir_entry.as_slice(),
            path,
            index,
            ignores,
            found,
        ),
        None => {
            // A directory that the index does not know: nothing in it is tracked.
            let nothing: Vec<DirEntry> = Vec::new();
            proof {
                assert(views(nothing@) =~= Seq::<DirEntryView>::empty());
            }
            get_file_deltas(entries, nothing.as_slice(), path, index, ignores, found)
        },
    }
}

/// The items of a directory without the repository's own directory `.git`.
pub open spec fn without_git(entries: Seq<ReadDirEntry>) -> Seq<ReadDirEntry>
    decreases entries.len(),
{
    if entries.len() == 0 {
        entries
    } else if entries.last().name@ == ".git"@ {
        without_git(entries.drop_last())
    } else {
        without_git(entries.drop_last()).push(entries.last())
    }
}

/// The listing of a directory as the comparison takes it: without `.git`, in
/// byte-wise order of the names.
pub open spec fn listing_of(entries: Seq<ReadDirEntry>) -> Seq<ReadDirEntry> {
    sorted::<ReadDirEntry>(without_git(entries))
}

proof fn lemma_without_git_members(entries: Seq<ReadDirEntry>)
    ensures
        without_git(entries).len() <= entries.len(),
        forall|i: int|
            0 <= i < without_git(entries).len() ==> entries.contains(
                #[trigger] without_git(entries)[i],
            ) && without_git(entries)[i].name@ != ".git"@,
    decreases entries.len(),
{
    if entries.len() > 0 {
        let front = entries.drop_last();
        lemma_without_git_members(front);
        assert forall|i: int| 0 <= i < without_git(entries).len() implies entries.contains(
            #[trigger] without_git(entries)[i],
        ) && without_git(entries)[i].name@ != ".git"@ by {
            if i < without_git(front).len() {
                let item = without_git(front)[i];
                assert(front.contains(item));
                let j = choose|j: int| 0 <= j < front.len() && front[j] == item;
                assert(entries[j] == item);
            } else {
                assert(entries[entries.len() - 1] == without_git(entries)[i]);
            }
        }
    }
}

/// Every item of a listing is an item of the directory that it was made from,
/// and none is the repository's own directory.
pub proof fn lemma_listing_members(entries: Seq<ReadDirEntry>)
    ensures
        listing_of(entries).len() <= entries.len(),
        forall|k: int|
            0 <= k < listing_of(entries).len() ==> entries.contains(
                #[trigger] listing_of(entries)[k],
            ) && listing_of(entries)[k].name@ != ".git"@,
{
    broadcast use vstd::seq_lib::group_to_multiset_ensures;

    let kept = without_git(entries);
    lemma_without_git_members(entries);
    lemma_sorted_permutes::<ReadDirEntry>(kept);
    assert forall|k: int| 0 <= k < listing_of(entries).len() implies entries.contains(
        #[trigger] listing_of(entries)[k],
    ) && listing_of(entries)[k].name@ != ".git"@ by {
        let item = listing_of(entries)[k];
        assert(listing_of(entries).to_multiset().count(item) > 0);
        assert(kept.contains(item));
        let i = choose|i: int| 0 <= i < kept.len() && kept[i] == item;
        assert(entries.contains(kept[i]));
    }
}

/// Whether the walk goes into the item `k` of a directory's listing once the
/// listing has been compared with the index.
pub open spec fn goes_into(
    listing: Seq<ReadDirEntry>,
    slice: Seq<DirEntryView>,
    index: Map<Seq<u8>, Seq<DirEntryView>>,
    k: int,
) -> bool {
    listing[k].is_dir && listing[k].process && !stopped(
        steps_of(listing, slice),
        listing,
        slice,
        index,
        k,
    )
}

/// What a walk of the directory at `path` comes upon: what the comparison of the
/// directory itself gives, then what the walks of the directories give that it
/// goes into, the last of the listing first.
pub open spec fn walk(
    entries: Seq<ReadDirEntry>,
    ignore_lines: Option<Vec<String>>,
    path: Seq<char>,
    index: Map<Seq<u8>, Seq<DirEntryView>>,
    chain: Seq<IgnoreRulesView>,
) -> Seq<FindingView>
    decreases entries, entries.len() + 1,
{
    let inner = crate::ignores::chain_inside(chain, path, ignore_lines);
    proof {
        lemma_listing_members(entries);
    }
    delta_findings(listing_of(entries), slice_of(index, path), path, index, inner) + walk_below(
        entries,
        path,
        index,
        inner,
        listing_of(entries).len(),
    )
}

/// What the walks come upon of the directories among the first `k` items of the
/// listing, the last of them first.
pub open spec fn walk_below(
    entries: Seq<ReadDirEntry>,
    path: Seq<char>,
    index: Map<Seq<u8>, Seq<DirEntryView>>,
    chain: Seq<IgnoreRulesView>,
    k: nat,
) -> Seq<FindingView>
    decreases entries, k,
{
    let listing = listing_of(entries);
    if k == 0 || k > listing.len() {
        Seq::empty()
    } else {
        let item = listing[k - 1];
        proof {
            lemma_listing_members(entries);
            assert(entries.contains(item));
            let j = choose|j: int| 0 <= j < entries.len() && entries[j] == item;
            assert(decreases_to!(entries => entries[j]));
            assert(decreases_to!(entries[j] => entries[j].children));
            assert(decreases_to!(entries[j].children => entries[j].children@));
        }
        (if goes_into(listing, slice_of(index, path), index, k - 1) {
            walk(item.children@, item.ignore_lines, item.spec_path(), index, chain)
        } else {
            Seq::empty()
        }) + walk_below(entries, path, index, chain, (k - 1) as nat)
    }
}

/// Takes the repository's own directory `.git` out of a directory's items.
pub fn remove_git(entries: Vec<ReadDirEntry>) -> (r: Vec<ReadDirEntry>)
    ensures
        r@ == without_git(entries@),
{
    let ghost all = entries@;
    let mut pending = reversed(entries);
    let mut kept: Vec<ReadDirEntry> = Vec::new();
    let ghost mut k: int = 0;
    while pending.len() > 0
        invariant
            0 <= k,
            k + pending@.len() == all.len(),
            forall|j: int| 0 <= j < pending@.len() ==> pending@[j] == all[all.len() - 1 - j],
            kept@ == without_git(all.take(k)),
        decreases pending@.len(),
    {
        let entry = pending.pop().unwrap();
        proof {
            assert(entry == all[k]);
            assert(all.take(k + 1).drop_last() =~= all.take(k));
            assert(all.take(k + 1).last() == all[k]);
        }
        if !same_name(entry.name.as_str(), ".git") {
            kept.push(entry);
        }
        proof {
            k = k + 1;
        }
    }
    proof {
        assert(all.take(k) =~= all);
    }
    kept
}

/// Walks the directory at `path`, whose items are `entries`: compares it with the
/// index, then walks the directories in it that hold tracked files.
pub fn read_dir(
    entries: Vec<ReadDirEntry>,
    ignore_lines: &Option<Vec<String>>,
    path: &str,
    index: &Index,
    ignores: &IgnoreChain,
    found: &mut Vec<Finding>,
)
    requires
        index.wf(),
    ensures
        views(final(found)@) == views(old(found)@) + walk(
            entries@,
            *ignore_lines,
            path@,
            index@,
            ignores@,
        ),
    decreases entries,
{
    let ghost all = entries@;
    let ghost before = views(found@);
    let chain = ignores.inside(path, ignore_lines);
    let kept = remove_git(entries);
    let mut files = sort_by_name(kept);
    proof {
        assert(views(files@) =~= files@);
        assert(views(kept@) =~= kept@);
        lemma_listing_members(all);
    }
    let ghost listing = files@;
    let ghost slice = slice_of(index@, path@);
    process_directory(path, &mut files, index, &chain, found);
    let ghost local = delta_findings(listing, slice, path@, index@, chain@);
    let ghost done = files@;
    proof {
        assert(before + local + Seq::<FindingView>::empty() =~= before + local);
    }
    while files.len() > 0
        invariant
            index.wf(),
            all == entries@,
            listing == listing_of(all),
            slice == slice_of(index@, path@),
            done.len() == listing.len(),
            files@.len() <= done.len(),
            files@ == done.take(files@.len() as int),
            forall|k: int|
                0 <= k < listing.len() ==> #[trigger] done[k] == marked(
                    listing,
                    slice,
                    index@,
                    steps_of(listing, slice),
                    k,
                ),
            forall|k: int| 0 <= k < listing.len() ==> all.contains(#[trigger] listing[k]),
            views(found@) + walk_below(all, path@, index@, chain@, files@.len() as nat) == before
                + local + walk_below(all, path@, index@, chain@, listing.len()),
        decreases files@.len(),
    {
        let ghost gathered = views(found@);
        let ghost k = files@.len() - 1;
        let item = files.pop().unwrap();
        proof {
            assert(item == done[k]);
            assert(item == marked(listing, slice, index@, steps_of(listing, slice), k));
            assert((item.is_dir && item.process) == goes_into(listing, slice, index@, k));
        }
        if item.is_dir && item.process {
            let below = item.path();
            let ReadDirEntry { children, ignore_lines: lines, .. } = item;
            proof {
                assert(all.contains(listing[k]));
                let j = choose|j: int| 0 <= j < all.len() && all[j] == listing[k];
                assert(children == all[j].children);
                assert(decreases_to!(entries => entries@));
                assert(decreases_to!(entries@ => entries@[j]));
                assert(decreases_to!(entries@[j] => entries@[j].children));
            }
            read_dir(children, &lines, below.as_str(), index, &chain, found);
            proof {
                let deeper = walk(
                    listing[k].children@,
                    listing[k].ignore_lines,
                    listing[k].spec_path(),
                    index@,
                    chain@,
                );
                let rest = walk_below(all, path@, index@, chain@, k as nat);
                assert(walk_below(all, path@, index@, chain@, (k + 1) as nat) == deeper + rest);
                assert(views(found@) + rest =~= gathered + (deeper + rest));
            }
        }
    }
    proof {
        let total = before + local + walk_below(all, path@, index@, chain@, listing.len());
        assert(views(found@) + Seq::<FindingView>::empty() =~= views(found@));
        assert(total =~= before + walk(all, *ignore_lines, path@, index@, ignores@));
    }
}

/// The first failure among the findings, if there is one.
pub open spec fn first_failure(findings: Seq<FindingView>) -> Option<FindingView>
    decreases findings.len(),
{
    if findings.len() == 0 {
        None
    } else if findings[0] is Failure {
        Some(findings[0])
    } else {
        first_failure(findings.drop_first())
    }
}

/// The status entries among the findings, in their order.
pub open spec fn entries_of(findings: Seq<FindingView>) -> Seq<StatusEntryView>
    decreases findings.len(),
{
    if findings.len() == 0 {
        Seq::empty()
    } else {
        match findings.last() {
            FindingView::Entry(entry) => entries_of(findings.drop_last()).push(entry),
            FindingView::Failure { .. } => entries_of(findings.drop_last()),
        }
    }
}

/// The outcome of a run with these findings: the first failure if there is one,
/// else the status entries in byte-wise order of their names.
pub open spec fn outcome(findings: Seq<FindingView>) -> Result<Seq<StatusEntryView>, FindingView> {
    match first_failure(findings) {
        Some(failure) => Err(failure),
        None => Ok(sorted::<StatusEntry>(entries_of(findings))),
    }
}

/// Gathers what a walk came upon: its first failure, or else its status
/// entries, sorted by name.
pub fn aggregate(found: Vec<Finding>) -> (r: Result<Vec<StatusEntry>, StatusError>)
    ensures
        match r {
            Ok(entries) => outcome(views(found@)) == Ok::<Seq<StatusEntryView>, FindingView>(
                views(entries@),
            ),
            Err(error) => outcome(views(found@)) == Err::<Seq<StatusEntryView>, FindingView>(
                FindingView::Failure { kind: error.kind, message: error.message@ },
            ),
        },
{
    let ghost all = views(found@);
    let mut pending = reversed(found);
    let mut entries: Vec<StatusEntry> = Vec::new();
    let ghost mut k: int = 0;
    proof {
        assert(all.skip(0) =~= all);
        assert(views(entries@) =~= entries_of(all.take(0)));
    }
    while pending.len() > 0
        invariant
            0 <= k,
            k + pending@.len() == all.len(),
            all == views(found@),
            forall|j: int|
                0 <= j < pending@.len() ==> (#[trigger] pending@[j])@ == all[all.len() - 1 - j],
            first_failure(all) == first_failure(all.skip(k)),
            views(entries@) == entries_of(all.take(k)),
        decreases pending@.len(),
    {
        let finding = pending.pop().unwrap();
        proof {
            assert(finding@ == all[k]);
            assert(all.skip(k)[0] == all[k]);
            assert(all.skip(k).drop_first() =~= all.skip(k + 1));
            assert(all.take(k + 1).drop_last() =~= all.take(k));
            assert(all.take(k + 1).last() == all[k]);
        }
        match finding {
            Finding::Failure(error) => {
                proof {
                    assert(all[k] == (FindingView::Failure {
                        kind: error.kind,
                        message: error.message@,
                    }));
                    assert(first_failure(all.skip(k)) == Some(all[k]));
                }
                return Err(error);
            },
            Finding::Entry(entry) => {
                proof {
                    assert(views(entries@.push(entry)) =~= views(entries@).push(entry@));
                }
                entries.push(entry);
            },
        }
        proof {
            k = k + 1;
        }
    }
    proof {
        assert(all.take(k) =~= all);
    }
    Ok(sort_by_name(entries))
}

impl WorkTree {
    /// What a walk of the working directory comes upon, with the user's global
    /// ignore file holding the lines `excludes`. The walk starts in the items of
    /// `root`; the name of `root` itself plays no part.
    pub open spec fn findings(
        root: ReadDirEntry,
        index: Map<Seq<u8>, Seq<DirEntryView>>,
        excludes: Seq<String>,
    ) -> Seq<FindingView> {
        walk(
            root.children@,
            root.ignore_lines,
            Seq::<char>::empty(),
            index,
            seq![
                IgnoreRulesView {
                    root: Seq::<char>::empty(),
                    lines: crate::ignores::lines_view(excludes),
                },
            ],
        )
    }

    /// Walks the working directory `root` and gathers what it comes upon.
    pub fn scoped_diff(
        root: ReadDirEntry,
        index: &Index,
        excludes: &Vec<String>,
        found: &mut Vec<Finding>,
    )
        requires
            index.wf(),
        ensures
            views(final(found)@) == views(old(found)@) + WorkTree::findings(
                root,
                index@,
                excludes@,
            ),
    {
        let ignores = IgnoreChain::new(excludes);
        let path = String::new();
        let ReadDirEntry { children, ignore_lines, .. } = root;
        read_dir(children, &ignore_lines, path.as_str(), index, &ignores, found);
    }

    /// Whether `result` is what a run with these findings hands back.
    pub open spec fn reports(
        result: Result<WorkTree, StatusError>,
        findings: Seq<FindingView>,
    ) -> bool {
        match result {
            Ok(tree) => outcome(findings) == Ok::<Seq<StatusEntryView>, FindingView>(
                views(tree.entries@),
            ),
            Err(error) => outcome(findings) == Err::<Seq<StatusEntryView>, FindingView>(
                FindingView::Failure { kind: error.kind, message: error.message@ },
            ),
        }
    }

    /// Compares an index with the working tree that was read into `root`: the
    /// tracked files that are modified or deleted, the untracked paths that are
    /// not ignored, and the submodules that have changed, in byte-wise order of
    /// their names. A submodule that could not be opened fails the comparison.
    pub fn diff_against_index(root: ReadDirEntry, index: Index, excludes: &Vec<String>) -> (r:
        Result<WorkTree, StatusError>)
        requires
            index.wf(),
        ensures
            WorkTree::reports(r, WorkTree::findings(root, index@, excludes@)),
            r matches Ok(tree) ==> is_sorted::<StatusEntry>(views(tree.entries@)),
    {
        proof {
            lemma_sorted_is_sorted::<StatusEntry>(
                entries_of(WorkTree::findings(root, index@, excludes@)),
            );
        }
        let mut changed_files: Vec<Finding> = Vec::new();
        proof {
            assert(views(changed_files@) =~= Seq::<FindingView>::empty());
        }
        WorkTree::scoped_diff(root, &index, excludes, &mut changed_files);
        proof {
            assert(Seq::<FindingView>::empty() + WorkTree::findings(root, index@, excludes@)
                =~= WorkTree::findings(root, index@, excludes@));
        }
        match aggregate(changed_files) {
            Ok(entries) => Ok(WorkTree { entries }),
            Err(error) => Err(error),
        }
    }
}

} // verus!
