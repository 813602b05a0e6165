use crate::directories::key_of;
use crate::direntry::{DirEntryView, ObjectType};
use crate::error::StatusError;
use crate::ignores::{chain_inside, chain_verdict, rules_verdict, IgnoreMatch, IgnoreRulesView};
use crate::names::{
    joined, lemma_name_order_equal, name_le, name_order, with_slash, NameOrder,
};
use crate::sorting::{is_sorted, lemma_sorted_is_sorted, lemma_sorted_permutes, sorted, views};
use crate::status::{StatusEntry, StatusEntryView, StatusView};
use crate::worktree::{
    entries_of, findings_of, first_failure, goes_into, has_trackable_file,
    has_untracked, lemma_listing_members, listing_of, merge_steps, missing_entry,
    modified_content, new_commits, passed_over, probe_finding, slice_of, step_finding, steps_of,
    step_stops, stopped, submodule_detail, unknown_entry, unknown_stops, untracked_content, walk,
    walk_below, without_git, FindingView, Probe, ReadDirEntry, Step, Submodule, WorkTree,
};
use vstd::prelude::*;

verus! {

/// Two runs on the same working tree, index and global excludes hand back the
/// same: either both fail with the same failure, or both give the same entries
/// in the same order.
pub proof fn lemma_runs_agree(
    root: ReadDirEntry,
    index: Map<Seq<u8>, Seq<DirEntryView>>,
    excludes: Seq<String>,
    first: Result<WorkTree, StatusError>,
    second: Result<WorkTree, StatusError>,
)
    requires
        WorkTree::reports(first, WorkTree::findings(root, index, excludes)),
        WorkTree::reports(second, WorkTree::findings(root, index, excludes)),
    ensures
        match (first, second) {
            (Ok(a), Ok(b)) => views(a.entries@) == views(b.entries@),
            (Err(a), Err(b)) => a.kind == b.kind && a.message@ == b.message@,
            _ => false,
        },
{
}

/// A run that reports nothing reports nothing again when it is repeated on the
/// same working tree and index.
pub proof fn lemma_quiet_run_stays_quiet(
    root: ReadDirEntry,
    index: Map<Seq<u8>, Seq<DirEntryView>>,
    excludes: Seq<String>,
    first: Result<WorkTree, StatusError>,
    second: Result<WorkTree, StatusError>,
)
    requires
        WorkTree::reports(first, WorkTree::findings(root, index, excludes)),
        WorkTree::reports(second, WorkTree::findings(root, index, excludes)),
        first matches Ok(tree) && tree.entries@.len() == 0,
    ensures
        second matches Ok(tree) && tree.entries@.len() == 0,
{
    lemma_runs_agree(root, index, excludes, first, second);
    assert(views(first->Ok_0.entries@).len() == 0);
    assert(views(second->Ok_0.entries@).len() == 0);
}

/// Every finding is an entry for a new path.
pub open spec fn all_new(findings: Seq<FindingView>) -> bool {
    forall|i: int|
        0 <= i < findings.len() ==> match #[trigger] findings[i] {
            FindingView::Entry(entry) => entry.state is New,
            FindingView::Failure { .. } => false,
        }
}

/// The index lists no entry in any of its directories.
pub open spec fn without_entries(index: Map<Seq<u8>, Seq<DirEntryView>>) -> bool {
    forall|d: Seq<u8>| index.dom().contains(d) ==> (#[trigger] index[d]).len() == 0
}

proof fn lemma_only_unknown_steps(listing: Seq<ReadDirEntry>, slice: Seq<DirEntryView>, w: int)
    requires
        slice.len() == 0,
        0 <= w,
    ensures
        forall|j: int|
            0 <= j < merge_steps(listing, slice, w, 0).len() ==> #[trigger] merge_steps(
                listing,
                slice,
                w,
                0,
            )[j] is Unknown,
    decreases listing.len() - w,
{
    if w < listing.len() {
        lemma_only_unknown_steps(listing, slice, w + 1);
    }
}

proof fn lemma_unknown_steps_find_new(
    steps: Seq<Step>,
    listing: Seq<ReadDirEntry>,
    slice: Seq<DirEntryView>,
    directory: Seq<char>,
    index: Map<Seq<u8>, Seq<DirEntryView>>,
    chain: Seq<IgnoreRulesView>,
)
    requires
        forall|j: int| 0 <= j < steps.len() ==> #[trigger] steps[j] is Unknown,
    ensures
        all_new(findings_of(steps, listing, slice, directory, index, chain)),
    decreases steps.len(),
{
    if steps.len() > 0 {
        lemma_unknown_steps_find_new(steps.drop_last(), listing, slice, directory, index, chain);
        assert(steps[steps.len() - 1] is Unknown);
    }
}

proof fn lemma_walk_all_new(
    entries: Seq<ReadDirEntry>,
    ignore_lines: Option<Vec<String>>,
    path: Seq<char>,
    index: Map<Seq<u8>, Seq<DirEntryView>>,
    chain: Seq<IgnoreRulesView>,
)
    requires
        without_entries(index),
    ensures
        all_new(walk(entries, ignore_lines, path, index, chain)),
    decreases entries, entries.len() + 1,
{
    let inner = chain_inside(chain, path, ignore_lines);
    let listing = listing_of(entries);
    let slice = slice_of(index, path);
    lemma_listing_members(entries);
    lemma_only_unknown_steps(listing, slice, 0);
    lemma_unknown_steps_find_new(steps_of(listing, slice), listing, slice, path, index, inner);
    lemma_walk_below_all_new(entries, path, index, inner, listing.len());
}

proof fn lemma_walk_below_all_new(
    entries: Seq<ReadDirEntry>,
    path: Seq<char>,
    index: Map<Seq<u8>, Seq<DirEntryView>>,
    chain: Seq<IgnoreRulesView>,
    k: nat,
)
    requires
        without_entries(index),
    ensures
        all_new(walk_below(entries, path, index, chain, k)),
    decreases entries, k,
{
    let listing = listing_of(entries);
    if k == 0 || k > listing.len() {
    } else {
        let item = listing[k - 1];
        lemma_listing_members(entries);
        assert(entries.contains(item));
        let j = choose|j: int| 0 <= j < entries.len() && entries[j] == item;
        assert(decreases_to!(entries => entries[j]));
        assert(decreases_to!(entries[j] => entries[j].children));
        assert(decreases_to!(entries[j].children => entries[j].children@));
        if goes_into(listing, slice_of(index, path), index, k - 1) {
            lemma_walk_all_new(item.children@, item.ignore_lines, item.spec_path(), index, chain);
        }
        lemma_walk_below_all_new(entries, path, index, chain, (k - 1) as nat);
    }
}

proof fn lemma_all_new_never_fails(findings: Seq<FindingView>)
    requires
        all_new(findings),
    ensures
        first_failure(findings) is None,
    decreases findings.len(),
{
    if findings.len() > 0 {
        let rest = findings.drop_first();
        assert(findings[0] is Entry);
        assert forall|i: int| 0 <= i < rest.len() implies match #[trigger] rest[i] {
            FindingView::Entry(entry) => entry.state is New,
            FindingView::Failure { .. } => false,
        } by {
            assert(rest[i] == findings[i + 1]);
        }
        lemma_all_new_never_fails(rest);
    }
}

/// With an index that lists no entry, whatever the working tree holds, a run
/// does not fail and reports new paths only: nothing is modified and nothing is
/// deleted.
pub proof fn lemma_empty_index_reports_only_new(
    root: ReadDirEntry,
    index: Map<Seq<u8>, Seq<DirEntryView>>,
    excludes: Seq<String>,
    result: Result<WorkTree, StatusError>,
)
    requires
        without_entries(index),
        WorkTree::reports(result, WorkTree::findings(root, index, excludes)),
    ensures
        all_new(WorkTree::findings(root, index, excludes)),
        result matches Ok(tree) && forall|k: int|
            0 <= k < tree.entries@.len() ==> (#[trigger] tree.entries@[k]).state@ is New,
{
    broadcast use vstd::seq_lib::group_to_multiset_ensures;

    let findings = WorkTree::findings(root, index, excludes);
    lemma_walk_all_new(
        root.children@,
        root.ignore_lines,
        Seq::<char>::empty(),
        index,
        seq![
            IgnoreRulesView {
                root: Seq::<char>::empty(),
                lines: crate::ignores::lines_view(excludes),
            },
        ],
    );
    lemma_all_new_never_fails(findings);
    let tree = result->Ok_0;
    let gathered = entries_of(findings);
    let reported = views(tree.entries@);
    lemma_sorted_permutes::<StatusEntry>(gathered);
    lemma_entries_of_members(findings);
    assert forall|k: int| 0 <= k < tree.entries@.len() implies (#[trigger] tree.entries@[k]).state@
        is New by {
        let entry = reported[k];
        assert(entry == tree.entries@[k]@);
        assert(reported.to_multiset().count(entry) > 0);
        assert(gathered.contains(entry));
        let g = choose|g: int| 0 <= g < gathered.len() && gathered[g] == entry;
        assert(findings.contains(FindingView::Entry(gathered[g])));
        let f = choose|f: int| 0 <= f < findings.len() && findings[f] == FindingView::Entry(entry);
        assert(findings[f] == FindingView::Entry(entry));
    }
}

/// A chain ignores a path that one of its files ignores, unless a file before
/// it, nearer to the path, whitelists the path.
pub proof fn lemma_chain_ignores(
    chain: Seq<IgnoreRulesView>,
    path: Seq<char>,
    is_dir: bool,
    k: int,
)
    requires
        0 <= k < chain.len(),
        rules_verdict(chain[k], path, is_dir) == IgnoreMatch::Ignored,
        forall|j: int|
            0 <= j < k ==> rules_verdict(#[trigger] chain[j], path, is_dir)
                != IgnoreMatch::Whitelisted,
    ensures
        chain_verdict(chain, path, is_dir) == IgnoreMatch::Ignored,
    decreases k,
{
    if k > 0 && rules_verdict(chain[0], path, is_dir) == IgnoreMatch::Unmatched {
        let rest = chain.drop_first();
        assert(rest[k - 1] == chain[k]);
        assert forall|j: int| 0 <= j < k - 1 implies rules_verdict(
            #[trigger] rest[j],
            path,
            is_dir,
        ) != IgnoreMatch::Whitelisted by {
            assert(rest[j] == chain[j + 1]);
        }
        lemma_chain_ignores(rest, path, is_dir, k - 1);
    }
}

/// A chain does not ignore a path that one of its files whitelists, if no file
/// before it, nearer to the path, ignores the path.
pub proof fn lemma_chain_whitelists(
    chain: Seq<IgnoreRulesView>,
    path: Seq<char>,
    is_dir: bool,
    k: int,
)
    requires
        0 <= k < chain.len(),
        rules_verdict(chain[k], path, is_dir) == IgnoreMatch::Whitelisted,
        forall|j: int|
            0 <= j < k ==> rules_verdict(#[trigger] chain[j], path, is_dir)
                != IgnoreMatch::Ignored,
    ensures
        chain_verdict(chain, path, is_dir) == IgnoreMatch::Whitelisted,
    decreases k,
{
    if k > 0 && rules_verdict(chain[0], path, is_dir) == IgnoreMatch::Unmatched {
        let rest = chain.drop_first();
        assert(rest[k - 1] == chain[k]);
        assert forall|j: int| 0 <= j < k - 1 implies rules_verdict(
            #[trigger] rest[j],
            path,
            is_dir,
        ) != IgnoreMatch::Ignored by {
            assert(rest[j] == chain[j + 1]);
        }
        lemma_chain_whitelists(rest, path, is_dir, k - 1);
    }
}

/// A file that an ignore file of the chain ignores is not reported as new,
/// unless an ignore file nearer to it whitelists it; and a file that the chain
/// does not ignore, and that the index does not list, is reported as new.
pub proof fn lemma_ignored_file_is_not_new(
    item: ReadDirEntry,
    index: Map<Seq<u8>, Seq<DirEntryView>>,
    chain: Seq<IgnoreRulesView>,
    k: int,
)
    requires
        !item.is_dir,
        0 <= k < chain.len(),
        rules_verdict(chain[k], item.spec_path(), false) == IgnoreMatch::Ignored,
        forall|j: int|
            0 <= j < k ==> rules_verdict(#[trigger] chain[j], item.spec_path(), false)
                != IgnoreMatch::Whitelisted,
    ensures
        unknown_entry(item, index, chain) is None,
{
    lemma_chain_ignores(chain, item.spec_path(), false, k);
}

/// A file that the index does not list is reported as new exactly if the chain
/// does not ignore it.
pub proof fn lemma_file_is_new_unless_ignored(
    item: ReadDirEntry,
    index: Map<Seq<u8>, Seq<DirEntryView>>,
    chain: Seq<IgnoreRulesView>,
)
    requires
        !item.is_dir,
    ensures
        chain_verdict(chain, item.spec_path(), false) == IgnoreMatch::Ignored ==> unknown_entry(
            item,
            index,
            chain,
        ) is None,
        chain_verdict(chain, item.spec_path(), false) != IgnoreMatch::Ignored ==> unknown_entry(
            item,
            index,
            chain,
        ) == Some(StatusEntryView { name: item.spec_path(), state: StatusView::New }),
{
}

/// A directory that the chain does not whitelist, and in which every file, at
/// any depth, is ignored, is not reported as new.
pub proof fn lemma_directory_of_ignored_files_is_not_new(
    item: ReadDirEntry,
    index: Map<Seq<u8>, Seq<DirEntryView>>,
    chain: Seq<IgnoreRulesView>,
)
    requires
        item.is_dir,
        chain_verdict(chain, item.spec_path(), true) != IgnoreMatch::Whitelisted,
        !has_trackable_file(item.children@, chain),
    ensures
        unknown_entry(item, index, chain) is None,
{
}

/// A directory without tracked files that the chain does not ignore, and that
/// holds at some depth a file that the chain does not ignore, is reported as
/// new, once, with `/` behind its path; and the walk does not go into it, so
/// that nothing in it is reported by itself.
pub proof fn lemma_directory_with_a_file_is_new(
    item: ReadDirEntry,
    index: Map<Seq<u8>, Seq<DirEntryView>>,
    chain: Seq<IgnoreRulesView>,
)
    requires
        item.is_dir,
        !index.dom().contains(key_of(item.spec_path())),
        chain_verdict(chain, item.spec_path(), true) != IgnoreMatch::Ignored,
        has_trackable_file(item.children@, chain),
    ensures
        unknown_entry(item, index, chain) == Some(
            StatusEntryView { name: with_slash(item.spec_path()), state: StatusView::New },
        ),
        unknown_stops(item, index),
{
}

/// A directory that is passed over contributes nothing, whatever it holds, and
/// the walk does not go into it.
pub proof fn lemma_passed_over_directory_is_silent(
    item: ReadDirEntry,
    index: Map<Seq<u8>, Seq<DirEntryView>>,
    chain: Seq<IgnoreRulesView>,
)
    requires
        item.is_dir,
        passed_over(item.spec_path(), index, chain),
    ensures
        unknown_entry(item, index, chain) is None,
        unknown_stops(item, index),
{
}

/// A submodule whose directory is not in the working tree contributes nothing,
/// and so does one in whose directory there is no repository.
pub proof fn lemma_missing_submodule_is_silent(
    directory: Seq<char>,
    entry: DirEntryView,
    name: Seq<char>,
)
    requires
        entry.object_type == ObjectType::GitLink,
    ensures
        missing_entry(directory, entry) is None,
        probe_finding(name, entry.sha, Probe::Absent) is None,
{
}

/// A submodule at the recorded commit, with nothing staged, and in whose working
/// tree there are untracked files and nothing else, is reported as modified with
/// the note "untracked content".
pub proof fn lemma_submodule_with_untracked_files(
    name: Seq<char>,
    recorded: Seq<u8>,
    found: Submodule,
)
    requires
        found.head@ == recorded,
        found.staged.entries@.len() == 0,
        found.worktree.entries@.len() > 0,
        forall|i: int|
            0 <= i < found.worktree.entries@.len() ==> (
            #[trigger] found.worktree.entries@[i]).state@ is New,
    ensures
        probe_finding(name, recorded, Probe::Opened(found)) == Some(
            FindingView::Entry(
                StatusEntryView {
                    name,
                    state: StatusView::Modified(Some("untracked content"@)),
                },
            ),
        ),
{
    assert(found.worktree.entries@[0].state@ is New);
    assert(has_untracked(found.worktree.entries@));
}

/// The further parts of a submodule's note, behind what stands there already.
pub open spec fn note_tail(modified: bool, untracked: bool) -> Seq<char> {
    (if modified {
        ", modified content"@
    } else {
        ""@
    }) + (if untracked {
        ", untracked content"@
    } else {
        ""@
    })
}

/// A submodule whose HEAD is at another commit than the recorded one is reported
/// as modified, and its note starts with "new commits"; "modified content" and
/// "untracked content" follow in this order where they hold.
pub proof fn lemma_submodule_with_new_commits(name: Seq<char>, recorded: Seq<u8>, found: Submodule)
    requires
        found.head@ != recorded,
    ensures
        probe_finding(name, recorded, Probe::Opened(found)) == Some(
            FindingView::Entry(
                StatusEntryView {
                    name,
                    state: StatusView::Modified(
                        Some(
                            "new commits"@ + note_tail(
                                modified_content(found),
                                untracked_content(found),
                            ),
                        ),
                    ),
                },
            ),
        ),
{
    reveal_strlit("new commits");
    reveal_strlit(", modified content");
    reveal_strlit(", untracked content");
    reveal_strlit("");
    reveal_strlit("new commits, modified content");
    reveal_strlit("new commits, untracked content");
    reveal_strlit("new commits, modified content, untracked content");
    let modified = modified_content(found);
    let untracked = untracked_content(found);
    let detail = submodule_detail(true, modified, untracked);
    assert(new_commits(recorded, found));
    assert(detail->Some_0 =~= "new commits"@ + note_tail(modified, untracked));
}

/// Whether `item` is one of these items or lies, at any depth, below one of them.
pub open spec fn occurs(entries: Seq<ReadDirEntry>, item: ReadDirEntry) -> bool
    decreases entries,
{
    exists|i: int|
        0 <= i < entries.len() && ((#[trigger] entries[i]) == item || occurs(
            entries[i].children@,
            item,
        ))
}

/// Whether `name` is the path of an entry of the index.
pub open spec fn is_tracked_path(index: Map<Seq<u8>, Seq<DirEntryView>>, name: Seq<char>) -> bool {
    exists|directory: Seq<char>, k: int|
        index.dom().contains(key_of(directory)) && 0 <= k < index[key_of(directory)].len()
            && name == joined(directory, #[trigger] index[key_of(directory)][k].name)
}

/// Whether `name` is the path of an item of the working tree, or that path with
/// `/` behind it.
pub open spec fn is_tree_path(entries: Seq<ReadDirEntry>, name: Seq<char>) -> bool {
    exists|item: ReadDirEntry| #[trigger]
        occurs(entries, item) && (name == item.spec_path() || name == with_slash(
            item.spec_path(),
        ))
}

/// Every entry among the findings names a tracked path or an item of the tree.
pub open spec fn names_accounted(
    findings: Seq<FindingView>,
    entries: Seq<ReadDirEntry>,
    index: Map<Seq<u8>, Seq<DirEntryView>>,
) -> bool {
    forall|i: int|
        0 <= i < findings.len() ==> match #[trigger] findings[i] {
            FindingView::Entry(entry) => is_tracked_path(index, entry.name) || is_tree_path(
                entries,
                entry.name,
            ),
            FindingView::Failure { .. } => true,
        }
}

/// A step speaks of an item of the listing and of an entry of the slice.
pub open spec fn in_range(step: Step, items: nat, entries: nat) -> bool {
    match step {
        Step::Both { item, entry } => 0 <= item < items && 0 <= entry < entries,
        Step::Unknown { item } => 0 <= item < items,
        Step::Missing { entry } => 0 <= entry < entries,
    }
}

proof fn lemma_steps_in_range(
    listing: Seq<ReadDirEntry>,
    slice: Seq<DirEntryView>,
    w: int,
    i: int,
)
    ensures
        forall|j: int|
            0 <= j < merge_steps(listing, slice, w, i).len() ==> in_range(
                #[trigger] merge_steps(listing, slice, w, i)[j],
                listing.len(),
                slice.len(),
            ),
    decreases crate::worktree::left(listing.len(), w) + crate::worktree::left(slice.len(), i),
{
    let steps = merge_steps(listing, slice, w, i);
    if steps.len() > 0 {
        let (next_w, next_i) = if 0 <= w < listing.len() && 0 <= i < slice.len() {
            match crate::names::name_order(listing[w].name@, slice[i].name) {
                crate::names::NameOrder::Equal => (w + 1, i + 1),
                crate::names::NameOrder::Less => (w + 1, i),
                crate::names::NameOrder::Greater => (w, i + 1),
            }
        } else if 0 <= w < listing.len() {
            (w + 1, i)
        } else {
            (w, i + 1)
        };
        let rest = merge_steps(listing, slice, next_w, next_i);
        lemma_steps_in_range(listing, slice, next_w, next_i);
        assert(steps == seq![steps[0]] + rest);
        assert(in_range(steps[0], listing.len(), slice.len()));
        assert forall|j: int| 0 <= j < steps.len() implies in_range(
            #[trigger] steps[j],
            listing.len(),
            slice.len(),
        ) by {
            if j > 0 {
                assert(steps[j] == rest[j - 1]);
            }
        }
    }
}

proof fn lemma_occurs_member(entries: Seq<ReadDirEntry>, item: ReadDirEntry)
    requires
        entries.contains(item),
    ensures
        occurs(entries, item),
{
    let i = choose|i: int| 0 <= i < entries.len() && entries[i] == item;
    assert(entries[i] == item);
}

proof fn lemma_occurs_below(entries: Seq<ReadDirEntry>, parent: ReadDirEntry, item: ReadDirEntry)
    requires
        entries.contains(parent),
        occurs(parent.children@, item),
    ensures
        occurs(entries, item),
{
    let i = choose|i: int| 0 <= i < entries.len() && entries[i] == parent;
    assert(occurs(entries[i].children@, item));
}

proof fn lemma_step_findings_accounted(
    steps: Seq<Step>,
    listing: Seq<ReadDirEntry>,
    directory: Seq<char>,
    index: Map<Seq<u8>, Seq<DirEntryView>>,
    chain: Seq<IgnoreRulesView>,
    entries: Seq<ReadDirEntry>,
)
    requires
        forall|j: int|
            0 <= j < steps.len() ==> in_range(
                #[trigger] steps[j],
                listing.len(),
                slice_of(index, directory).len(),
            ),
        forall|k: int| 0 <= k < listing.len() ==> entries.contains(#[trigger] listing[k]),
    ensures
        names_accounted(
            findings_of(steps, listing, slice_of(index, directory), directory, index, chain),
            entries,
            index,
        ),
    decreases steps.len(),
{
    let slice = slice_of(index, directory);
    if steps.len() > 0 {
        let front = steps.drop_last();
        let last = steps.last();
        assert forall|j: int| 0 <= j < front.len() implies in_range(
            #[trigger] front[j],
            listing.len(),
            slice.len(),
        ) by {
            assert(front[j] == steps[j]);
        }
        lemma_step_findings_accounted(front, listing, directory, index, chain, entries);
        assert(in_range(steps[steps.len() - 1], listing.len(), slice.len()));
        match step_finding(last, listing, slice, directory, index, chain) {
            Some(FindingView::Entry(found)) => {
                match last {
                    Step::Both { item, entry } => {
                        assert(entries.contains(listing[item]));
                        lemma_occurs_member(entries, listing[item]);
                    },
                    Step::Unknown { item } => {
                        assert(entries.contains(listing[item]));
                        lemma_occurs_member(entries, listing[item]);
                    },
                    Step::Missing { entry } => {
                        assert(index.dom().contains(key_of(directory)));
                        assert(found.name == joined(directory, index[key_of(directory)][entry].name));
                        assert(is_tracked_path(index, found.name));
                    },
                }
            },
            _ => {},
        }
    }
}

proof fn lemma_accounted_below(
    findings: Seq<FindingView>,
    entries: Seq<ReadDirEntry>,
    parent: ReadDirEntry,
    index: Map<Seq<u8>, Seq<DirEntryView>>,
)
    requires
        entries.contains(parent),
        names_accounted(findings, parent.children@, index),
    ensures
        names_accounted(findings, entries, index),
{
    assert forall|i: int| 0 <= i < findings.len() implies match #[trigger] findings[i] {
        FindingView::Entry(entry) => is_tracked_path(index, entry.name) || is_tree_path(
            entries,
            entry.name,
        ),
        FindingView::Failure { .. } => true,
    } by {
        match findings[i] {
            FindingView::Entry(entry) => {
                if !is_tracked_path(index, entry.name) {
                    let item = choose|item: ReadDirEntry| #[trigger]
                        occurs(parent.children@, item) && (entry.name == item.spec_path()
                            || entry.name == with_slash(item.spec_path()));
                    lemma_occurs_below(entries, parent, item);
                }
            },
            _ => {},
        }
    }
}

proof fn lemma_walk_accounted(
    entries: Seq<ReadDirEntry>,
    ignore_lines: Option<Vec<String>>,
    path: Seq<char>,
    index: Map<Seq<u8>, Seq<DirEntryView>>,
    chain: Seq<IgnoreRulesView>,
)
    ensures
        names_accounted(walk(entries, ignore_lines, path, index, chain), entries, index),
    decreases entries, entries.len() + 1,
{
    let inner = chain_inside(chain, path, ignore_lines);
    let listing = listing_of(entries);
    let slice = slice_of(index, path);
    lemma_listing_members(entries);
    lemma_steps_in_range(listing, slice, 0, 0);
    lemma_step_findings_accounted(steps_of(listing, slice), listing, path, index, inner, entries);
    lemma_walk_below_accounted(entries, path, index, inner, listing.len());
}

proof fn lemma_walk_below_accounted(
    entries: Seq<ReadDirEntry>,
    path: Seq<char>,
    index: Map<Seq<u8>, Seq<DirEntryView>>,
    chain: Seq<IgnoreRulesView>,
    k: nat,
)
    ensures
        names_accounted(walk_below(entries, path, index, chain, k), entries, index),
    decreases entries, k,
{
    let listing = listing_of(entries);
    if k == 0 || k > listing.len() {
    } else {
        let item = listing[k - 1];
        lemma_listing_members(entries);
        assert(entries.contains(item));
        let j = choose|j: int| 0 <= j < entries.len() && entries[j] == item;
        assert(decreases_to!(entries => entries[j]));
        assert(decreases_to!(entries[j] => entries[j].children));
        assert(decreases_to!(entries[j].children => entries[j].children@));
        if goes_into(listing, slice_of(index, path), index, k - 1) {
            lemma_walk_accounted(item.children@, item.ignore_lines, item.spec_path(), index, chain);
            lemma_accounted_below(
                walk(item.children@, item.ignore_lines, item.spec_path(), index, chain),
                entries,
                item,
                index,
            );
        }
        lemma_walk_below_accounted(entries, path, index, chain, (k - 1) as nat);
    }
}

proof fn lemma_entries_of_members(findings: Seq<FindingView>)
    ensures
        forall|k: int|
            0 <= k < entries_of(findings).len() ==> findings.contains(
                FindingView::Entry(#[trigger] entries_of(findings)[k]),
            ),
    decreases findings.len(),
{
    if findings.len() > 0 {
        let front = findings.drop_last();
        lemma_entries_of_members(front);
        assert forall|k: int| 0 <= k < entries_of(findings).len() implies findings.contains(
            FindingView::Entry(#[trigger] entries_of(findings)[k]),
        ) by {
            if k < entries_of(front).len() {
                let wanted = FindingView::Entry(entries_of(front)[k]);
                assert(front.contains(wanted));
                let m = choose|m: int| 0 <= m < front.len() && front[m] == wanted;
                assert(findings[m] == wanted);
            } else {
                assert(findings[findings.len() - 1] == FindingView::Entry(entries_of(findings)[k]));
            }
        }
    }
}

/// Every name that a run reports is the path of an entry of the index, or the
/// path of an item of the working tree, with `/` behind it for a directory that
/// is new.
pub proof fn lemma_reported_names_are_known(
    root: ReadDirEntry,
    index: Map<Seq<u8>, Seq<DirEntryView>>,
    excludes: Seq<String>,
    result: Result<WorkTree, StatusError>,
)
    requires
        WorkTree::reports(result, WorkTree::findings(root, index, excludes)),
    ensures
        result matches Ok(tree) ==> forall|k: int|
            0 <= k < tree.entries@.len() ==> is_tracked_path(
                index,
                (#[trigger] tree.entries@[k]).name@,
            ) || is_tree_path(root.children@, tree.entries@[k].name@),
{
    broadcast use vstd::seq_lib::group_to_multiset_ensures;

    let findings = WorkTree::findings(root, index, excludes);
    lemma_walk_accounted(
        root.children@,
        root.ignore_lines,
        Seq::<char>::empty(),
        index,
        seq![
            IgnoreRulesView {
                root: Seq::<char>::empty(),
                lines: crate::ignores::lines_view(excludes),
            },
        ],
    );
    if let Ok(tree) = result {
        let gathered = entries_of(findings);
        let reported = views(tree.entries@);
        lemma_sorted_permutes::<StatusEntry>(gathered);
        lemma_entries_of_members(findings);
        assert forall|k: int| 0 <= k < tree.entries@.len() implies is_tracked_path(
            index,
            (#[trigger] tree.entries@[k]).name@,
        ) || is_tree_path(root.children@, tree.entries@[k].name@) by {
            let entry = reported[k];
            assert(entry == tree.entries@[k]@);
            assert(reported.to_multiset().count(entry) > 0);
            assert(gathered.contains(entry));
            let g = choose|g: int| 0 <= g < gathered.len() && gathered[g] == entry;
            assert(findings.contains(FindingView::Entry(gathered[g])));
            let f = choose|f: int|
                0 <= f < findings.len() && findings[f] == FindingView::Entry(entry);
            assert(findings[f] == FindingView::Entry(entry));
        }
    }
}

/// The files among the items of a directory, in their order.
pub open spec fn files_of(items: Seq<ReadDirEntry>) -> Seq<ReadDirEntry>
    decreases items.len(),
{
    if items.len() == 0 {
        items
    } else if items.last().is_dir {
        files_of(items.drop_last())
    } else {
        files_of(items.drop_last()).push(items.last())
    }
}

/// No two of the items have the same name.
pub open spec fn distinct_names(items: Seq<ReadDirEntry>) -> bool {
    forall|i: int, j: int|
        0 <= i < j < items.len() ==> (#[trigger] items[i]).name@ != (#[trigger] items[j]).name@
}

/// Whether a directory with these items holds no file at any depth.
pub open spec fn holds_no_file(entries: Seq<ReadDirEntry>) -> bool
    decreases entries,
{
    forall|i: int|
        0 <= i < entries.len() ==> (#[trigger] entries[i]).is_dir && holds_no_file(
            entries[i].children@,
        )
}

/// The directory at `path`, in which the chain `chain` is in effect, is as the
/// index has it: its files are, name by name, the entries that the index lists
/// for it, none of them a submodule, with the times and sizes that the index
/// records; and each directory in it either holds tracked files, or holds no
/// file at any depth and is not whitelisted by the chain.
pub open spec fn unchanged_directory(
    entries: Seq<ReadDirEntry>,
    path: Seq<char>,
    index: Map<Seq<u8>, Seq<DirEntryView>>,
    chain: Seq<IgnoreRulesView>,
) -> bool {
    let listing = listing_of(entries);
    let slice = slice_of(index, path);
    let files = files_of(listing);
    &&& distinct_names(listing)
    &&& files.len() == slice.len()
    &&& forall|j: int|
        0 <= j < slice.len() ==> (#[trigger] files[j]).name@ == slice[j].name && files[j].stat
            == slice[j].stat && slice[j].object_type != ObjectType::GitLink
    &&& forall|k: int|
        0 <= k < listing.len() && (#[trigger] listing[k]).is_dir ==> index.dom().contains(
            key_of(listing[k].spec_path()),
        ) || (holds_no_file(listing[k].children@) && chain_verdict(
            chain,
            listing[k].spec_path(),
            true,
        ) != IgnoreMatch::Whitelisted)
}

/// The directory at `path`, which is reached with the chain `chain` and whose own
/// ignore file holds `ignore_lines`, and every directory with tracked files
/// below it, the repository's own directory left aside, are as the index has
/// them.
pub open spec fn unchanged_tree(
    entries: Seq<ReadDirEntry>,
    ignore_lines: Option<Vec<String>>,
    path: Seq<char>,
    index: Map<Seq<u8>, Seq<DirEntryView>>,
    chain: Seq<IgnoreRulesView>,
) -> bool
    decreases entries,
{
    &&& unchanged_directory(entries, path, index, chain_inside(chain, path, ignore_lines))
    &&& forall|i: int|
        0 <= i < entries.len() && (#[trigger] entries[i]).is_dir && entries[i].name@ != ".git"@
            && index.dom().contains(key_of(entries[i].spec_path())) ==> unchanged_tree(
            entries[i].children@,
            entries[i].ignore_lines,
            entries[i].spec_path(),
            index,
            chain_inside(chain, path, ignore_lines),
        )
}

proof fn lemma_no_file_to_report(entries: Seq<ReadDirEntry>, chain: Seq<IgnoreRulesView>)
    requires
        holds_no_file(entries),
    ensures
        !has_trackable_file(entries, chain),
    decreases entries,
{
    if has_trackable_file(entries, chain) {
        let i = choose|i: int|
            0 <= i < entries.len() && if (#[trigger] entries[i]).is_dir {
                has_trackable_file(entries[i].children@, chain)
            } else {
                chain_verdict(chain, entries[i].spec_path(), false) != IgnoreMatch::Ignored
            };
        assert(entries[i].is_dir && holds_no_file(entries[i].children@));
        lemma_no_file_to_report(entries[i].children@, chain);
    }
}

proof fn lemma_stopped_by(
    steps: Seq<Step>,
    step: Step,
    listing: Seq<ReadDirEntry>,
    slice: Seq<DirEntryView>,
    index: Map<Seq<u8>, Seq<DirEntryView>>,
    k: int,
)
    requires
        steps.contains(step),
        step_stops(step, listing, slice, index, k),
    ensures
        stopped(steps, listing, slice, index, k),
    decreases steps.len(),
{
    let j = choose|j: int| 0 <= j < steps.len() && steps[j] == step;
    if j < steps.len() - 1 {
        assert(steps.drop_last()[j] == step);
        lemma_stopped_by(steps.drop_last(), step, listing, slice, index, k);
    }
}

proof fn lemma_files_grow(items: Seq<ReadDirEntry>, w: int)
    requires
        0 <= w <= items.len(),
    ensures
        files_of(items.take(w)).len() <= files_of(items).len(),
        forall|j: int|
            0 <= j < files_of(items.take(w)).len() ==> files_of(items)[j] == #[trigger] files_of(
                items.take(w),
            )[j],
    decreases items.len(),
{
    if w == items.len() {
        assert(items.take(w) =~= items);
    } else {
        let front = items.drop_last();
        lemma_files_grow(front, w);
        assert(front.take(w) =~= items.take(w));
    }
}

proof fn lemma_files_step(items: Seq<ReadDirEntry>, w: int)
    requires
        0 <= w < items.len(),
    ensures
        items[w].is_dir ==> files_of(items.take(w + 1)) == files_of(items.take(w)),
        !items[w].is_dir ==> files_of(items.take(w + 1)) == files_of(items.take(w)).push(items[w]),
{
    assert(items.take(w + 1).drop_last() =~= items.take(w));
    assert(items.take(w + 1).last() == items[w]);
}

proof fn lemma_file_position(items: Seq<ReadDirEntry>, j: int) -> (m: int)
    requires
        0 <= j < files_of(items).len(),
    ensures
        0 <= m < items.len(),
        items[m] == files_of(items)[j],
        !items[m].is_dir,
        files_of(items.take(m)).len() == j,
    decreases items.len(),
{
    let front = items.drop_last();
    assert(items.take(items.len() - 1) =~= front);
    if !items.last().is_dir && j == files_of(front).len() {
        items.len() - 1
    } else {
        let m = lemma_file_position(front, j);
        assert(front.take(m) =~= items.take(m));
        m
    }
}

/// The hypotheses on one directory, spelled out for its listing.
spec fn unchanged_listing(
    listing: Seq<ReadDirEntry>,
    slice: Seq<DirEntryView>,
    index: Map<Seq<u8>, Seq<DirEntryView>>,
    chain: Seq<IgnoreRulesView>,
) -> bool {
    &&& is_sorted::<ReadDirEntry>(listing)
    &&& distinct_names(listing)
    &&& files_of(listing).len() == slice.len()
    &&& forall|j: int|
        0 <= j < slice.len() ==> (#[trigger] files_of(listing)[j]).name@ == slice[j].name
            && files_of(listing)[j].stat == slice[j].stat && slice[j].object_type
            != ObjectType::GitLink
    &&& forall|k: int|
        0 <= k < listing.len() && (#[trigger] listing[k]).is_dir ==> index.dom().contains(
            key_of(listing[k].spec_path()),
        ) || (holds_no_file(listing[k].children@) && chain_verdict(
            chain,
            listing[k].spec_path(),
            true,
        ) != IgnoreMatch::Whitelisted)
}

proof fn lemma_unchanged_merge(
    listing: Seq<ReadDirEntry>,
    slice: Seq<DirEntryView>,
    directory: Seq<char>,
    index: Map<Seq<u8>, Seq<DirEntryView>>,
    chain: Seq<IgnoreRulesView>,
    w: int,
    i: int,
)
    requires
        unchanged_listing(listing, slice, index, chain),
        0 <= w <= listing.len(),
        i == files_of(listing.take(w)).len(),
    ensures
        forall|j: int|
            0 <= j < merge_steps(listing, slice, w, i).len() ==> step_finding(
                #[trigger] merge_steps(listing, slice, w, i)[j],
                listing,
                slice,
                directory,
                index,
                chain,
            ) is None,
        forall|k: int|
            w <= k < listing.len() && (#[trigger] listing[k]).is_dir ==> merge_steps(
                listing,
                slice,
                w,
                i,
            ).contains(Step::Unknown { item: k }),
    decreases listing.len() - w,
{
    let files = files_of(listing);
    let steps = merge_steps(listing, slice, w, i);
    lemma_files_grow(listing, w);
    if w == listing.len() {
        assert(listing.take(w) =~= listing);
    } else {
        let item = listing[w];
        lemma_files_step(listing, w);
        lemma_files_grow(listing, w + 1);
        let next_i = if item.is_dir {
            i
        } else {
            i + 1
        };
        if !item.is_dir {
            assert(files[i] == files_of(listing.take(w + 1))[i]);
            assert(files[i] == item);
            lemma_name_order_equal(item.name@, slice[i].name);
        } else {
            if i < slice.len() {
                let m = lemma_file_position(listing, i);
                if m <= w {
                    if m < w {
                        lemma_files_grow(listing.take(w), m + 1);
                        assert(listing.take(w).take(m + 1) =~= listing.take(m + 1));
                        lemma_files_step(listing, m);
                    }
                    assert(false);
                }
                assert(files[i].name@ == slice[i].name);
                assert(name_le(item.name@, listing[m].name@));
                lemma_name_order_equal(item.name@, listing[m].name@);
                assert(name_order(item.name@, slice[i].name) == NameOrder::Less);
            }
            if !index.dom().contains(key_of(item.spec_path())) {
                lemma_no_file_to_report(item.children@, chain);
            }
        }
        lemma_unchanged_merge(listing, slice, directory, index, chain, w + 1, next_i);
        let rest = merge_steps(listing, slice, w + 1, next_i);
        let first = if item.is_dir {
            Step::Unknown { item: w }
        } else {
            Step::Both { item: w, entry: i }
        };
        assert(steps == seq![first] + rest);
        assert(steps[0] == first);
        assert(step_finding(first, listing, slice, directory, index, chain) is None);
        assert forall|j: int| 0 <= j < steps.len() implies step_finding(
            #[trigger] steps[j],
            listing,
            slice,
            directory,
            index,
            chain,
        ) is None by {
            if j > 0 {
                assert(steps[j] == rest[j - 1]);
            }
        }
        assert forall|k: int| w <= k < listing.len() && (#[trigger] listing[k]).is_dir implies
            steps.contains(Step::Unknown { item: k }) by {
            if k > w {
                let wanted = Step::Unknown { item: k };
                assert(rest.contains(wanted));
                let p = choose|p: int| 0 <= p < rest.len() && rest[p] == wanted;
                assert(steps[p + 1] == wanted);
            }
        }
    }
}

proof fn lemma_nothing_found(
    steps: Seq<Step>,
    listing: Seq<ReadDirEntry>,
    slice: Seq<DirEntryView>,
    directory: Seq<char>,
    index: Map<Seq<u8>, Seq<DirEntryView>>,
    chain: Seq<IgnoreRulesView>,
)
    requires
        forall|j: int|
            0 <= j < steps.len() ==> step_finding(
                #[trigger] steps[j],
                listing,
                slice,
                directory,
                index,
                chain,
            ) is None,
    ensures
        findings_of(steps, listing, slice, directory, index, chain) == Seq::<FindingView>::empty(),
    decreases steps.len(),
{
    if steps.len() > 0 {
        let front = steps.drop_last();
        assert forall|j: int| 0 <= j < front.len() implies step_finding(
            #[trigger] front[j],
            listing,
            slice,
            directory,
            index,
            chain,
        ) is None by {
            assert(front[j] == steps[j]);
        }
        lemma_nothing_found(front, listing, slice, directory, index, chain);
        assert(step_finding(steps[steps.len() - 1], listing, slice, directory, index, chain)
            is None);
    }
}

proof fn lemma_unchanged_walk(
    entries: Seq<ReadDirEntry>,
    ignore_lines: Option<Vec<String>>,
    path: Seq<char>,
    index: Map<Seq<u8>, Seq<DirEntryView>>,
    chain: Seq<IgnoreRulesView>,
)
    requires
        unchanged_tree(entries, ignore_lines, path, index, chain),
    ensures
        walk(entries, ignore_lines, path, index, chain) == Seq::<FindingView>::empty(),
    decreases entries, entries.len() + 1,
{
    let inner = chain_inside(chain, path, ignore_lines);
    let listing = listing_of(entries);
    let slice = slice_of(index, path);
    lemma_listing_members(entries);
    lemma_sorted_is_sorted::<ReadDirEntry>(without_git(entries));
    assert(listing.take(0) =~= Seq::<ReadDirEntry>::empty());
    lemma_unchanged_merge(listing, slice, path, index, inner, 0, 0);
    lemma_nothing_found(steps_of(listing, slice), listing, slice, path, index, inner);
    lemma_unchanged_walk_below(entries, ignore_lines, path, index, chain, listing.len());
}

proof fn lemma_unchanged_walk_below(
    entries: Seq<ReadDirEntry>,
    ignore_lines: Option<Vec<String>>,
    path: Seq<char>,
    index: Map<Seq<u8>, Seq<DirEntryView>>,
    chain: Seq<IgnoreRulesView>,
    k: nat,
)
    requires
        unchanged_tree(entries, ignore_lines, path, index, chain),
    ensures
        walk_below(entries, path, index, chain_inside(chain, path, ignore_lines), k) == Seq::<
            FindingView,
        >::empty(),
    decreases entries, k,
{
    let inner = chain_inside(chain, path, ignore_lines);
    let listing = listing_of(entries);
    let slice = slice_of(index, path);
    if k == 0 || k > listing.len() {
    } else {
        let item = listing[k - 1];
        lemma_listing_members(entries);
        assert(entries.contains(item));
        let j = choose|j: int| 0 <= j < entries.len() && entries[j] == item;
        assert(decreases_to!(entries => entries[j]));
        assert(decreases_to!(entries[j] => entries[j].children));
        assert(decreases_to!(entries[j].children => entries[j].children@));
        if goes_into(listing, slice, index, k - 1) {
            assert(entries[j].is_dir && entries[j].name@ != ".git"@);
            if !index.dom().contains(key_of(item.spec_path())) {
                lemma_sorted_is_sorted::<ReadDirEntry>(without_git(entries));
                assert(listing.take(0) =~= Seq::<ReadDirEntry>::empty());
                lemma_unchanged_merge(listing, slice, path, index, inner, 0, 0);
                lemma_stopped_by(
                    steps_of(listing, slice),
                    Step::Unknown { item: k - 1 },
                    listing,
                    slice,
                    index,
                    k - 1,
                );
                assert(false);
            }
            lemma_unchanged_walk(item.children@, item.ignore_lines, item.spec_path(), index, inner);
        }
        lemma_unchanged_walk_below(entries, ignore_lines, path, index, chain, (k - 1) as nat);
    }
}

/// Where every directory of the working tree is as the index has it, so that no
/// file differs from its entry, none is missing and none is untracked, a run
/// reports nothing. Directories that hold no file may be there beside the
/// tracked ones, as long as no ignore file whitelists them.
pub proof fn lemma_unchanged_tree_reports_nothing(
    root: ReadDirEntry,
    index: Map<Seq<u8>, Seq<DirEntryView>>,
    excludes: Seq<String>,
    result: Result<WorkTree, StatusError>,
)
    requires
        unchanged_tree(
            root.children@,
            root.ignore_lines,
            Seq::<char>::empty(),
            index,
            seq![
                IgnoreRulesView {
                    root: Seq::<char>::empty(),
                    lines: crate::ignores::lines_view(excludes),
                },
            ],
        ),
        WorkTree::reports(result, WorkTree::findings(root, index, excludes)),
    ensures
        result matches Ok(tree) && tree.entries@.len() == 0,
{
    lemma_unchanged_walk(
        root.children@,
        root.ignore_lines,
        Seq::<char>::empty(),
        index,
        seq![
            IgnoreRulesView {
                root: Seq::<char>::empty(),
                lines: crate::ignores::lines_view(excludes),
            },
        ],
    );
    let findings = WorkTree::findings(root, index, excludes);
    assert(findings.len() == 0);
    assert(first_failure(findings) is None);
    assert(entries_of(findings).len() == 0);
    assert(sorted::<StatusEntry>(entries_of(findings)).len() == 0);
    assert(views(result->Ok_0.entries@).len() == 0);
}

} // verus!
