use crate::status::{Status, StatusEntry, StatusView};
use vstd::prelude::*;

verus! {

/// The flag of a staged status for a path that HEAD does not have.
pub const INDEX_NEW: u32 = 1;

/// The flag of a staged status for a path whose content differs from HEAD.
pub const INDEX_MODIFIED: u32 = 2;

/// The flag of a staged status for a path that the index no longer has.
pub const INDEX_DELETED: u32 = 4;

/// How the index differs from the tree of HEAD: the changes to be committed.
#[derive(Debug, Default, PartialEq, Eq, Clone)]
pub struct TreeDiff {
    pub entries: Vec<StatusEntry>,
}

/// The state that a set of status flags stands for, where it is one of the three
/// that are supported.
pub open spec fn staged_state(flags: u32) -> Option<StatusView> {
    if flags == INDEX_NEW {
        Some(StatusView::New)
    } else if flags == INDEX_MODIFIED {
        Some(StatusView::Modified(None))
    } else if flags == INDEX_DELETED {
        Some(StatusView::Deleted)
    } else {
        None
    }
}

/// Whether every path carries flags that are supported.
pub open spec fn all_supported(statuses: Seq<(String, u32)>) -> bool {
    forall|i: int| 0 <= i < statuses.len() ==> staged_state((#[trigger] statuses[i]).1) is Some
}

impl TreeDiff {
    /// Whether the flags are those of a new, a modified or a deleted path.
    pub fn is_supported(flags: u32) -> (r: bool)
        ensures
            r == staged_state(flags) is Some,
    {
        flags == INDEX_NEW || flags == INDEX_MODIFIED || flags == INDEX_DELETED
    }

    /// Whether every status of the list has supported flags.
    pub fn supports(statuses: &Vec<(String, u32)>) -> (r: bool)
        ensures
            r == all_supported(statuses@),
    {
        let mut i: usize = 0;
        while i < statuses.len()
            invariant
                i <= statuses@.len(),
                forall|j: int| 0 <= j < i ==> staged_state((#[trigger] statuses@[j]).1) is Some,
            decreases statuses@.len() - i,
        {
            if !TreeDiff::is_supported(statuses[i].1) {
                return false;
            }
            i += 1;
        }
        true
    }

    /// The state that supported status flags stand for.
    pub fn git2_status_to_treediff_status(flags: u32) -> (r: Status)
        requires
            staged_state(flags) is Some,
        ensures
            Some(r@) == staged_state(flags),
    {
        if flags == INDEX_NEW {
            Status::New
        } else if flags == INDEX_MODIFIED {
            Status::Modified(None)
        } else {
            Status::Deleted
        }
    }

    /// The staged changes, one entry for each path with its flags, in their order.
    pub fn convert_git2_to_treediff(statuses: Vec<(String, u32)>) -> (r: TreeDiff)
        requires
            all_supported(statuses@),
        ensures
            r.entries@.len() == statuses@.len(),
            forall|i: int|
                0 <= i < statuses@.len() ==> (#[trigger] r.entries@[i]).name@ == statuses@[i].0@
                    && Some(r.entries@[i].state@) == staged_state(statuses@[i].1),
    {
        let ghost all = statuses@;
        let mut pending = crate::sorting::reversed(statuses);
        let mut entries: Vec<StatusEntry> = Vec::new();
        while pending.len() > 0
            invariant
                entries@.len() + pending@.len() == all.len(),
                all_supported(all),
                forall|j: int| 0 <= j < pending@.len() ==> pending@[j] == all[all.len() - 1 - j],
                forall|i: int|
                    0 <= i < entries@.len() ==> (#[trigger] entries@[i]).name@ == all[i].0@ && Some(
                        entries@[i].state@,
                    ) == staged_state(all[i].1),
            decreases pending@.len(),
        {
            let (name, flags) = pending.pop().unwrap();
            assert((name, flags) == all[entries@.len() as int]);
            let state = TreeDiff::git2_status_to_treediff_status(flags);
            entries.push(StatusEntry { name, state });
        }
        TreeDiff { entries }
    }
}

} // verus!
