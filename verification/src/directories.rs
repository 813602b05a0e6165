use crate::direntry::{DirEntry, DirEntryView};
use crate::names::{
    byte_order, compare_bytes, lemma_byte_order_equal, lemma_byte_order_flip,
    lemma_byte_order_trans, NameOrder,
};
use crate::names::{
    lemma_name_order_equal, lemma_name_order_flip, lemma_name_order_trans, name_le, same_name,
};
use crate::sorting::{
    insert_by_name, inserted, is_sorted, lemma_inserted_sorted, lower_bound, views, Named,
};
use vstd::prelude::*;
use vstd::slice::*;
use vstd::string::*;
use vstd::utf8::*;

verus! {

impl Named for DirEntry {
    open spec fn name_of(v: DirEntryView) -> Seq<char> {
        v.name
    }

    fn name(&self) -> (r: &str) {
        self.name.as_str()
    }
}

/// The key under which a directory is filed: the bytes of its path.
pub open spec fn key_of(path: Seq<char>) -> Seq<u8> {
    encode_utf8(path)
}

/// Whether `a` is the directory `d` itself, the root, or a directory above `d`.
pub open spec fn is_ancestor(a: Seq<u8>, d: Seq<u8>) -> bool {
    a.len() == 0 || a == d || (a.len() < d.len() && d[a.len() as int] == 47 && d.take(
        a.len() as int,
    ) == a)
}

/// Whether `found` is the first entry of the list that has the name `name`.
pub open spec fn is_first_of_name(
    list: Seq<DirEntryView>,
    name: Seq<char>,
    found: DirEntryView,
) -> bool {
    exists|k: int|
        0 <= k < list.len() && #[trigger] list[k] == found && found.name == name && forall|j: int|
            0 <= j < k ==> (#[trigger] list[j]).name != name
}

/// The tracked entries of one directory.
pub struct Directory {
    path: Vec<u8>,
    entries: Vec<DirEntry>,
}

/// The directories of an index, each with its entries in order of their names.
/// With a directory it holds every directory above it, up to the root `""`.
pub struct DirectoryMap {
    dirs: Vec<Directory>,
}

spec fn holds(dirs: Seq<Directory>, key: Seq<u8>) -> bool {
    exists|i: int| 0 <= i < dirs.len() && #[trigger] dirs[i].path@ == key
}

spec fn slot(dirs: Seq<Directory>, key: Seq<u8>) -> int {
    choose|i: int| 0 <= i < dirs.len() && #[trigger] dirs[i].path@ == key
}

spec fn ascending(dirs: Seq<Directory>) -> bool {
    forall|i: int, j: int|
        0 <= i < j < dirs.len() ==> byte_order(#[trigger] dirs[i].path@, #[trigger] dirs[j].path@)
            == NameOrder::Less
}

spec fn closed_upwards(dirs: Seq<Directory>) -> bool {
    forall|i: int, a: Seq<u8>|
        0 <= i < dirs.len() && #[trigger] is_ancestor(a, dirs[i].path@) ==> holds(dirs, a)
}

spec fn in_order(dirs: Seq<Directory>) -> bool {
    forall|i: int| 0 <= i < dirs.len() ==> is_sorted::<DirEntry>(views((#[trigger] dirs[i]).entries@))
}

spec fn contents(dirs: Seq<Directory>) -> Map<Seq<u8>, Seq<DirEntryView>> {
    Map::new(|k: Seq<u8>| holds(dirs, k), |k: Seq<u8>| views(dirs[slot(dirs, k)].entries@))
}

proof fn lemma_slot(dirs: Seq<Directory>, i: int)
    requires
        ascending(dirs),
        0 <= i < dirs.len(),
    ensures
        holds(dirs, dirs[i].path@),
        slot(dirs, dirs[i].path@) == i,
{
    let key = dirs[i].path@;
    let j = slot(dirs, key);
    lemma_byte_order_equal(dirs[j].path@, key);
    if j < i {
        assert(byte_order(dirs[j].path@, dirs[i].path@) == NameOrder::Less);
    } else if i < j {
        assert(byte_order(dirs[i].path@, dirs[j].path@) == NameOrder::Less);
        lemma_byte_order_flip(dirs[i].path@, dirs[j].path@);
    }
}

/// Where `key` stands among ascending directories, or would stand if it were there.
proof fn lemma_absent(dirs: Seq<Directory>, key: Seq<u8>, p: int)
    requires
        ascending(dirs),
        0 <= p <= dirs.len(),
        forall|i: int| 0 <= i < p ==> byte_order(#[trigger] dirs[i].path@, key) == NameOrder::Less,
        forall|i: int|
            p <= i < dirs.len() ==> byte_order(#[trigger] dirs[i].path@, key) != NameOrder::Less,
        p == dirs.len() || dirs[p].path@ != key,
    ensures
        !holds(dirs, key),
        forall|i: int|
            p <= i < dirs.len() ==> byte_order(#[trigger] dirs[i].path@, key)
                == NameOrder::Greater,
{
    assert forall|i: int| p <= i < dirs.len() implies byte_order(#[trigger] dirs[i].path@, key)
        == NameOrder::Greater by {
        lemma_byte_order_equal(dirs[i].path@, key);
        if i > p {
            assert(byte_order(dirs[p].path@, dirs[i].path@) == NameOrder::Less);
            lemma_byte_order_equal(dirs[p].path@, key);
            lemma_byte_order_flip(dirs[p].path@, key);
            lemma_byte_order_flip(dirs[i].path@, key);
            lemma_byte_order_trans(key, dirs[p].path@, dirs[i].path@);
        }
    }
    if holds(dirs, key) {
        let i = slot(dirs, key);
        lemma_byte_order_equal(dirs[i].path@, key);
    }
}

impl View for DirectoryMap {
    type V = Map<Seq<u8>, Seq<DirEntryView>>;

    closed spec fn view(&self) -> Map<Seq<u8>, Seq<DirEntryView>> {
        contents(self.dirs@)
    }
}

impl DirectoryMap {
    /// The directories stand in ascending order of their paths, none twice, and with
    /// each of them every directory above it; the entries of each directory stand
    /// in ascending order of their names.
    pub closed spec fn wf(&self) -> bool {
        &&& ascending(self.dirs@)
        &&& closed_upwards(self.dirs@)
        &&& in_order(self.dirs@)
        &&& self@.dom().finite()
        &&& self@.dom().len() == self.dirs@.len()
    }

    /// How many directories the map holds.
    pub closed spec fn count(&self) -> nat {
        self.dirs@.len()
    }

    /// The key of the directory at a position.
    pub closed spec fn key_at(&self, position: int) -> Seq<u8> {
        self.dirs@[position].path@
    }

    /// A map without directories.
    pub fn new() -> (r: DirectoryMap)
        ensures
            r.wf(),
            r@ == Map::<Seq<u8>, Seq<DirEntryView>>::empty(),
    {
        let dirs: Vec<Directory> = Vec::new();
        assert(contents(dirs@) =~= Map::<Seq<u8>, Seq<DirEntryView>>::empty());
        DirectoryMap { dirs }
    }

    /// With a directory the map holds every directory above it.
    pub proof fn lemma_closed_upwards(&self, d: Seq<u8>, a: Seq<u8>)
        requires
            self.wf(),
            self@.dom().contains(d),
            is_ancestor(a, d),
        ensures
            self@.dom().contains(a),
    {
        let i = slot(self.dirs@, d);
        assert(is_ancestor(a, self.dirs@[i].path@));
    }

    /// How many directories the map holds.
    pub fn len(&self) -> (r: usize)
        requires
            self.wf(),
        ensures
            r == self@.dom().len(),
    {
        self.dirs.len()
    }

    /// First position whose path does not come before `key`.
    fn lower_bound(&self, key: &[u8]) -> (p: usize)
        requires
            self.wf(),
        ensures
            p <= self.dirs@.len(),
            forall|i: int|
                0 <= i < p ==> byte_order(#[trigger] self.dirs@[i].path@, key@)
                    == NameOrder::Less,
            forall|i: int|
                p <= i < self.dirs@.len() ==> byte_order(#[trigger] self.dirs@[i].path@, key@)
                    != NameOrder::Less,
    {
        let mut low: usize = 0;
        let mut high: usize = self.dirs.len();
        while low < high
            invariant
                low <= high <= self.dirs@.len(),
                ascending(self.dirs@),
                forall|i: int|
                    0 <= i < low ==> byte_order(#[trigger] self.dirs@[i].path@, key@)
                        == NameOrder::Less,
                forall|i: int|
                    high <= i < self.dirs@.len() ==> byte_order(
                        #[trigger] self.dirs@[i].path@,
                        key@,
                    ) != NameOrder::Less,
            decreases high - low,
        {
            let mid: usize = low + (high - low) / 2;
            let middle = compare_bytes(self.dirs[mid].path.as_slice(), key);
            match middle {
                NameOrder::Less => {
                    proof {
                        assert forall|i: int| 0 <= i < mid + 1 implies byte_order(
                            #[trigger] self.dirs@[i].path@,
                            key@,
                        ) == NameOrder::Less by {
                            if i < mid {
                                assert(byte_order(self.dirs@[i].path@, self.dirs@[mid as int].path@)
                                    == NameOrder::Less);
                                lemma_byte_order_trans(
                                    self.dirs@[i].path@,
                                    self.dirs@[mid as int].path@,
                                    key@,
                                );
                            }
                        }
                    }
                    low = mid + 1;
                },
                _ => {
                    proof {
                        assert forall|i: int| mid <= i < self.dirs@.len() implies byte_order(
                            #[trigger] self.dirs@[i].path@,
                            key@,
                        ) != NameOrder::Less by {
                            if i > mid {
                                assert(byte_order(self.dirs@[mid as int].path@, self.dirs@[i].path@)
                                    == NameOrder::Less);
                                lemma_byte_order_flip(self.dirs@[mid as int].path@, key@);
                                lemma_byte_order_flip(self.dirs@[i].path@, key@);
                                lemma_byte_order_trans(
                                    key@,
                                    self.dirs@[mid as int].path@,
                                    self.dirs@[i].path@,
                                );
                            }
                        }
                    }
                    high = mid;
                },
            }
        }
        low
    }

    /// The position of the directory filed under `key`, if the map holds it.
    pub(crate) fn find(&self, key: &[u8]) -> (r: Option<usize>)
        requires
            self.wf(),
        ensures
            match r {
                Some(p) => p < self.count() && self.key_at(p as int) == key@
                    && self@.dom().contains(key@),
                None => !self@.dom().contains(key@),
            },
    {
        self.locate(key)
    }

    fn locate(&self, key: &[u8]) -> (r: Option<usize>)
        requires
            self.wf(),
        ensures
            match r {
                Some(p) => p < self.count() && self.key_at(p as int) == key@
                    && self@.dom().contains(key@) && self@[key@] == views(
                    self.dirs@[p as int].entries@,
                ),
                None => !self@.dom().contains(key@),
            },
    {
        let p = self.lower_bound(key);
        if p < self.dirs.len() {
            proof {
                lemma_byte_order_equal(self.dirs@[p as int].path@, key@);
            }
            match compare_bytes(self.dirs[p].path.as_slice(), key) {
                NameOrder::Equal => {
                    proof {
                        lemma_slot(self.dirs@, p as int);
                    }
                    return Some(p);
                },
                _ => {},
            }
        }
        proof {
            lemma_absent(self.dirs@, key@, p as int);
        }
        None
    }

    /// Whether the index knows the directory at `path`.
    pub fn contains_key(&self, path: &str) -> (r: bool)
        requires
            self.wf(),
        ensures
            r == self@.dom().contains(key_of(path@)),
    {
        self.find(path.as_bytes()).is_some()
    }

    /// The entries of the directory at `path`, in order of their names.
    pub fn get(&self, path: &str) -> (r: Option<&Vec<DirEntry>>)
        requires
            self.wf(),
        ensures
            match r {
                Some(list) => self@.dom().contains(key_of(path@)) && views(list@)
                    == self@[key_of(path@)],
                None => !self@.dom().contains(key_of(path@)),
            },
    {
        match self.locate(path.as_bytes()) {
            Some(p) => Some(&self.dirs[p].entries),
            None => None,
        }
    }

    /// The entries of each directory stand in ascending order of their names.
    pub proof fn lemma_entries_in_order(&self, d: Seq<u8>)
        requires
            self.wf(),
            self@.dom().contains(d),
        ensures
            is_sorted::<DirEntry>(self@[d]),
    {
        let i = slot(self.dirs@, d);
        assert(is_sorted::<DirEntry>(views(self.dirs@[i].entries@)));
    }

    /// The entry `name` of the directory at `directory`, the first one where the
    /// directory lists several of that name; none where the index does not know
    /// the directory or the directory lists no such entry.
    pub fn entry(&self, directory: &str, name: &str) -> (r: Option<&DirEntry>)
        requires
            self.wf(),
        ensures
            match r {
                Some(found) => self@.dom().contains(key_of(directory@)) && found@.name == name@
                    && self@[key_of(directory@)].contains(found@) && is_first_of_name(
                    self@[key_of(directory@)],
                    name@,
                    found@,
                ),
                None => !self@.dom().contains(key_of(directory@)) || forall|k: int|
                    0 <= k < self@[key_of(directory@)].len() ==> (
                    #[trigger] self@[key_of(directory@)][k]).name != name@,
            },
    {
        let position = match self.locate(directory.as_bytes()) {
            Some(position) => position,
            None => {
                return None;
            },
        };
        let list = &self.dirs[position].entries;
        let ghost listed = views(list@);
        proof {
            assert(is_sorted::<DirEntry>(views(self.dirs@[position as int].entries@)));
        }
        let p = lower_bound(list, name);
        if p < list.len() && same_name(list[p].name.as_str(), name) {
            proof {
                assert(listed[p as int] == list@[p as int]@);
                assert forall|j: int| 0 <= j < p implies (#[trigger] listed[j]).name != name@ by {
                    assert(listed[j] == list@[j]@);
                    lemma_name_order_equal(listed[j].name, name@);
                }
            }
            return Some(&list[p]);
        }
        proof {
            assert forall|k: int| 0 <= k < listed.len() implies (#[trigger] listed[k]).name
                != name@ by {
                lemma_name_order_equal(listed[k].name, name@);
                assert(listed[k] == list@[k]@);
                if k > p {
                    assert(listed[p as int] == list@[p as int]@);
                    lemma_name_order_equal(listed[p as int].name, name@);
                    assert(name_le(
                        DirEntry::name_of(listed[p as int]),
                        DirEntry::name_of(listed[k]),
                    ));
                    lemma_name_order_flip(listed[p as int].name, name@);
                    lemma_name_order_flip(listed[k].name, name@);
                    lemma_name_order_trans(name@, listed[p as int].name, listed[k].name);
                }
            }
        }
        None
    }

    /// Files the directory `key` with no entries, unless the map holds it already.
    pub(crate) fn file(&mut self, key: &[u8])
        requires
            old(self).wf(),
            forall|a: Seq<u8>| is_ancestor(a, key@) && a != key@ ==> old(self)@.dom().contains(a),
        ensures
            final(self).wf(),
            final(self)@.dom() == old(self)@.dom().insert(key@),
            forall|k: Seq<u8>| old(self)@.dom().contains(k) ==> final(self)@[k] == old(self)@[k],
            !old(self)@.dom().contains(key@) ==> final(self)@[key@] == Seq::<DirEntryView>::empty(),
    {
        let ghost before = self.dirs@;
        let p = self.lower_bound(key);
        if p < self.dirs.len() {
            proof {
                lemma_byte_order_equal(self.dirs@[p as int].path@, key@);
            }
            match compare_bytes(self.dirs[p].path.as_slice(), key) {
                NameOrder::Equal => {
                    proof {
                        lemma_slot(self.dirs@, p as int);
                        assert(self@.dom().insert(key@) =~= self@.dom());
                    }
                    return ;
                },
                _ => {},
            }
        }
        let directory = Directory { path: slice_to_vec(key), entries: Vec::new() };
        proof {
            lemma_absent(before, key@, p as int);
            let after = before.insert(p as int, directory);
            assert forall|i: int, j: int| 0 <= i < j < after.len() implies byte_order(
                #[trigger] after[i].path@,
                #[trigger] after[j].path@,
            ) == NameOrder::Less by {
                if i == p {
                    assert(after[j] == before[j - 1]);
                    lemma_byte_order_flip(before[j - 1].path@, key@);
                } else if j == p {
                    assert(after[i] == before[i]);
                } else {
                    let bi = if i < p {
                        i
                    } else {
                        i - 1
                    };
                    let bj = if j < p {
                        j
                    } else {
                        j - 1
                    };
                    assert(after[i] == before[bi]);
                    assert(after[j] == before[bj]);
                }
            }
            assert forall|k: Seq<u8>| holds(after, k) <==> (holds(before, k) || k == key@) by {
                if holds(after, k) {
                    let i = slot(after, k);
                    if i < p {
                        assert(after[i] == before[i]);
                    } else if i > p {
                        assert(after[i] == before[i - 1]);
                    }
                }
                if holds(before, k) {
                    let i = slot(before, k);
                    if i < p {
                        assert(after[i] == before[i]);
                    } else {
                        assert(after[i + 1] == before[i]);
                    }
                }
                if k == key@ {
                    assert(after[p as int].path@ == key@);
                }
            }
            assert forall|i: int, a: Seq<u8>|
                0 <= i < after.len() && #[trigger] is_ancestor(a, after[i].path@) implies holds(
                after,
                a,
            ) by {
                if i == p {
                    if a != key@ {
                        assert(contents(before).dom().contains(a));
                    }
                } else {
                    let bi = if i < p {
                        i
                    } else {
                        i - 1
                    };
                    assert(after[i] == before[bi]);
                    assert(is_ancestor(a, before[bi].path@));
                }
            }
            assert(contents(after).dom() =~= contents(before).dom().insert(key@));
            assert forall|k: Seq<u8>| contents(before).dom().contains(k) implies contents(
                after,
            )[k] == contents(before)[k] by {
                let i = slot(before, k);
                lemma_slot(before, i);
                let ai = if i < p {
                    i
                } else {
                    i + 1
                };
                assert(after[ai] == before[i]);
                lemma_slot(after, ai);
            }
            lemma_slot(after, p as int);
            assert(views(after[p as int].entries@) =~= Seq::<DirEntryView>::empty());
            assert forall|i: int| 0 <= i < after.len() implies is_sorted::<DirEntry>(
                views((#[trigger] after[i]).entries@),
            ) by {
                if i != p {
                    let bi = if i < p {
                        i
                    } else {
                        i - 1
                    };
                    assert(after[i] == before[bi]);
                }
            }
        }
        self.dirs.insert(p, directory);
    }

    /// Puts `entry` into the directory at `position`, behind the entries whose names
    /// do not come after its own.
    pub(crate) fn add(&mut self, position: usize, entry: DirEntry)
        requires
            old(self).wf(),
            position < old(self).count(),
        ensures
            final(self).wf(),
            final(self)@ == old(self)@.insert(
                old(self).key_at(position as int),
                inserted::<DirEntry>(old(self)@[old(self).key_at(position as int)], entry@),
            ),
    {
        let ghost before = self.dirs@;
        let ghost key = before[position as int].path@;
        let ghost target = old(self)@.insert(
            key,
            inserted::<DirEntry>(old(self)@[key], entry@),
        );
        proof {
            lemma_slot(before, position as int);
            lemma_inserted_sorted::<DirEntry>(views(before[position as int].entries@), entry@);
        }
        let mut list: Vec<DirEntry> = Vec::new();
        core::mem::swap(&mut list, &mut self.dirs[position].entries);
        insert_by_name(&mut list, entry);
        core::mem::swap(&mut list, &mut self.dirs[position].entries);
        proof {
            let after = self.dirs@;
            assert(after.len() == before.len());
            assert forall|i: int| 0 <= i < after.len() implies is_sorted::<DirEntry>(
                views((#[trigger] after[i]).entries@),
            ) by {
                if i != position {
                    assert(after[i] == before[i]);
                }
            }
            assert forall|i: int| 0 <= i < after.len() implies #[trigger] after[i].path@
                == before[i].path@ by {}
            assert forall|k: Seq<u8>| holds(after, k) <==> holds(before, k) by {
                if holds(after, k) {
                    let i = slot(after, k);
                    assert(before[i].path@ == k);
                }
                if holds(before, k) {
                    let i = slot(before, k);
                    assert(after[i].path@ == k);
                }
            }
            assert(ascending(after)) by {
                assert forall|i: int, j: int| 0 <= i < j < after.len() implies byte_order(
                    #[trigger] after[i].path@,
                    #[trigger] after[j].path@,
                ) == NameOrder::Less by {
                    assert(byte_order(before[i].path@, before[j].path@) == NameOrder::Less);
                }
            }
            assert(closed_upwards(after)) by {
                assert forall|i: int, a: Seq<u8>|
                    0 <= i < after.len() && #[trigger] is_ancestor(
                        a,
                        after[i].path@,
                    ) implies holds(after, a) by {
                    assert(is_ancestor(a, before[i].path@));
                }
            }
            assert(contents(after).dom() =~= contents(before).dom());
            assert forall|k: Seq<u8>| contents(after).dom().contains(k) implies #[trigger] contents(
                after,
            )[k] == target[k] by {
                let i = slot(before, k);
                lemma_slot(before, i);
                lemma_slot(after, i);
            }
            assert(contents(after) =~= target);
        }
    }
}

} // verus!
