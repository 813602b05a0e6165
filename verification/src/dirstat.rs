use crate::direntry::FileStat;
use crate::names::{
    lemma_name_order_equal, lemma_name_order_flip, lemma_name_order_trans, name_le, name_order,
    same_name, NameOrder,
};
use crate::sorting::{is_sorted, lower_bound, views, Named};
use vstd::prelude::*;
use vstd::slice::*;
use vstd::string::*;

verus! {

/// The attribute bit that marks a directory.
pub const FILE_ATTRIBUTE_DIRECTORY: u32 = 0x10;

/// The Unix epoch in the time of the file system: the number of intervals of a
/// hundred nanoseconds between the first day of 1601 and the first day of 1970.
pub const WINDOWS_TO_UNIX_EPOCH: u64 = 116444736000000000;

/// Bytes of a directory record that come before the name.
pub const NAME_OFFSET: usize = 68;

/// The little-endian number in the four bytes at `at`.
pub open spec fn le32(s: Seq<u8>, at: int) -> int {
    s[at] as int + 256 * (s[at + 1] as int + 256 * (s[at + 2] as int + 256 * (s[at + 3] as int)))
}

/// The little-endian number in the eight bytes at `at`.
pub open spec fn le64(s: Seq<u8>, at: int) -> int {
    le32(s, at) + 4294967296 * le32(s, at + 4)
}

fn read_le32(buffer: &[u8], at: usize) -> (r: u32)
    requires
        at + 4 <= buffer@.len(),
    ensures
        r == le32(buffer@, at as int),
{
    let b0: u32 = buffer[at] as u32;
    let b1: u32 = buffer[at + 1] as u32;
    let b2: u32 = buffer[at + 2] as u32;
    let b3: u32 = buffer[at + 3] as u32;
    b0 + 256 * (b1 + 256 * (b2 + 256 * b3))
}

fn read_le64(buffer: &[u8], at: usize) -> (r: u64)
    requires
        at + 8 <= buffer@.len() <= usize::MAX,
    ensures
        r == le64(buffer@, at as int),
{
    let low: u64 = read_le32(buffer, at) as u64;
    let high: u64 = read_le32(buffer, at + 4) as u64;
    low + 4294967296 * high
}

/// What the file system reports of one item of a directory.
#[derive(PartialEq, Eq, Debug, Clone)]
pub struct DirRecord {
    pub name: String,
    /// The attribute bits of the item.
    pub attributes: u32,
    /// The time of the last write, in intervals of a hundred nanoseconds since
    /// the first day of 1601.
    pub last_write_time: u64,
    /// The size of the file in bytes.
    pub end_of_file: u64,
}

/// A record as mathematical values.
pub ghost struct DirRecordView {
    pub name: Seq<char>,
    pub attributes: u32,
    pub last_write_time: u64,
    pub end_of_file: u64,
}

impl View for DirRecord {
    type V = DirRecordView;

    open spec fn view(&self) -> DirRecordView {
        DirRecordView {
            name: self.name@,
            attributes: self.attributes,
            last_write_time: self.last_write_time,
            end_of_file: self.end_of_file,
        }
    }
}

/// A time of the file system in nanoseconds since the Unix epoch; zero for a time
/// before it.
pub open spec fn git_time(time: u64) -> u128 {
    if time >= WINDOWS_TO_UNIX_EPOCH {
        ((time - WINDOWS_TO_UNIX_EPOCH) * 100) as u128
    } else {
        0
    }
}

/// The time and the size by which a change of the file is detected: the time in
/// nanoseconds since the Unix epoch, the size cut to its low 32 bits.
pub open spec fn record_stat(record: DirRecordView) -> FileStat {
    FileStat {
        mtime: git_time(record.last_write_time),
        size: (record.end_of_file % 4294967296) as u32,
    }
}

/// Whether a record is that of a directory.
pub open spec fn is_directory(record: DirRecordView) -> bool {
    record.attributes & FILE_ATTRIBUTE_DIRECTORY != 0
}

/// What the UTF-16 units spell, where they are well-formed UTF-16.
pub uninterp spec fn utf16_text(units: Seq<u16>) -> Option<Seq<char>>;

/// Calls `String::from_utf16` of the standard library. The text it gives, or
/// that it gives none, depends on the units alone.
#[verifier::external_body]
fn string_from_utf16(units: &Vec<u16>) -> (r: Option<String>)
    ensures
        match r {
            Some(text) => utf16_text(units@) == Some(text@),
            None => utf16_text(units@) is None,
        },
{
    String::from_utf16(units.as_slice()).ok()
}

/// The first `count` UTF-16 units of a buffer, each from two bytes, the low one
/// first.
pub open spec fn units_of(bytes: Seq<u8>, count: int) -> Seq<u16> {
    Seq::new(count as nat, |i: int| (bytes[2 * i] as int + 256 * (bytes[2 * i + 1] as int)) as u16)
}

/// The name that `size` bytes of UTF-16 at the start of a buffer spell; none
/// where the buffer is shorter or the bytes are not well-formed UTF-16.
pub open spec fn name_text(bytes: Seq<u8>, size: int) -> Option<Seq<char>> {
    if size < 0 || size / 2 * 2 > bytes.len() {
        None
    } else {
        utf16_text(units_of(bytes, size / 2))
    }
}

/// One record of a buffer of directory information, and where the next one is.
pub ghost struct ParsedRecord {
    pub record: Option<DirRecordView>,
    pub next: int,
}

/// The record at `offset` of a buffer of directory information; none where the
/// buffer ends before the record does. A record whose name is not well-formed
/// UTF-16 is passed over.
pub open spec fn record_at(buffer: Seq<u8>, offset: int) -> Option<ParsedRecord> {
    if offset < 0 || offset + 68 > buffer.len() {
        None
    } else {
        let name = name_text(buffer.skip(offset + 68), le32(buffer, offset + 60));
        Some(
            ParsedRecord {
                record: match name {
                    Some(name) => Some(
                        DirRecordView {
                            name,
                            attributes: le32(buffer, offset + 56) as u32,
                            last_write_time: le64(buffer, offset + 24) as u64,
                            end_of_file: le64(buffer, offset + 40) as u64,
                        },
                    ),
                    None => None,
                },
                next: le32(buffer, offset),
            },
        )
    }
}

/// The records of a buffer of directory information from `offset` on: each
/// record says how far behind it the next one starts, and the last one says 0.
pub open spec fn records_from(buffer: Seq<u8>, offset: int) -> Seq<DirRecordView>
    decreases buffer.len() - offset,
{
    match record_at(buffer, offset) {
        None => Seq::empty(),
        Some(parsed) => {
            let first = match parsed.record {
                Some(record) => seq![record],
                None => Seq::empty(),
            };
            if parsed.next <= 0 || offset + parsed.next > buffer.len() {
                first
            } else {
                first + records_from(buffer, offset + parsed.next)
            }
        },
    }
}

/// One file of a directory with its time and size.
pub struct FileRecord {
    name: String,
    stat: FileStat,
}

/// A file record as mathematical values.
pub ghost struct FileRecordView {
    pub name: Seq<char>,
    pub stat: FileStat,
}

impl View for FileRecord {
    type V = FileRecordView;

    closed spec fn view(&self) -> FileRecordView {
        FileRecordView { name: self.name@, stat: self.stat }
    }
}

impl Named for FileRecord {
    open spec fn name_of(v: FileRecordView) -> Seq<char> {
        v.name
    }

    fn name(&self) -> (r: &str) {
        self.name.as_str()
    }
}

/// The time and size of every file of one directory, by name. Directories are
/// left out.
pub struct DirectoryStat {
    directory: String,
    file_stats: Vec<FileRecord>,
}

spec fn lists(list: Seq<FileRecord>, name: Seq<char>) -> bool {
    exists|i: int| 0 <= i < list.len() && (#[trigger] list[i]).name@ == name
}

spec fn place(list: Seq<FileRecord>, name: Seq<char>) -> int {
    choose|i: int| 0 <= i < list.len() && (#[trigger] list[i]).name@ == name
}

spec fn rising(list: Seq<FileRecord>) -> bool {
    forall|i: int, j: int|
        0 <= i < j < list.len() ==> name_order(
            (#[trigger] list[i]).name@,
            (#[trigger] list[j]).name@,
        ) == NameOrder::Less
}

spec fn stats(list: Seq<FileRecord>) -> Map<Seq<char>, FileStat> {
    Map::new(|name: Seq<char>| lists(list, name), |name: Seq<char>| list[place(list, name)].stat)
}

proof fn lemma_place(list: Seq<FileRecord>, i: int)
    requires
        rising(list),
        0 <= i < list.len(),
    ensures
        lists(list, list[i].name@),
        place(list, list[i].name@) == i,
{
    let name = list[i].name@;
    let j = place(list, name);
    lemma_name_order_equal(list[j].name@, name);
    if j < i {
        assert(name_order(list[j].name@, list[i].name@) == NameOrder::Less);
    } else if i < j {
        assert(name_order(list[i].name@, list[j].name@) == NameOrder::Less);
        lemma_name_order_flip(list[i].name@, list[j].name@);
    }
}

proof fn lemma_rising_is_sorted(list: Seq<FileRecord>)
    requires
        rising(list),
    ensures
        is_sorted::<FileRecord>(views(list)),
{
    assert forall|i: int, j: int| 0 <= i < j < views(list).len() implies name_le(
        FileRecord::name_of(#[trigger] views(list)[i]),
        FileRecord::name_of(#[trigger] views(list)[j]),
    ) by {
        assert(name_order(list[i].name@, list[j].name@) == NameOrder::Less);
    }
}

proof fn lemma_missing(list: Seq<FileRecord>, name: Seq<char>, p: int)
    requires
        rising(list),
        0 <= p <= list.len(),
        forall|i: int| 0 <= i < p ==> name_order((#[trigger] list[i]).name@, name) == NameOrder::Less,
        forall|i: int|
            p <= i < list.len() ==> name_order((#[trigger] list[i]).name@, name)
                != NameOrder::Less,
        p == list.len() || list[p].name@ != name,
    ensures
        !lists(list, name),
        forall|i: int|
            p <= i < list.len() ==> name_order((#[trigger] list[i]).name@, name)
                == NameOrder::Greater,
{
    assert forall|i: int| p <= i < list.len() implies name_order(
        (#[trigger] list[i]).name@,
        name,
    ) == NameOrder::Greater by {
        lemma_name_order_equal(list[i].name@, name);
        if i > p {
            assert(name_order(list[p].name@, list[i].name@) == NameOrder::Less);
            lemma_name_order_equal(list[p].name@, name);
            lemma_name_order_flip(list[p].name@, name);
            lemma_name_order_flip(list[i].name@, name);
            lemma_name_order_trans(name, list[p].name@, list[i].name@);
        }
    }
    if lists(list, name) {
        let i = place(list, name);
        lemma_name_order_equal(list[i].name@, name);
    }
}

proof fn lemma_bounds(list: Seq<FileRecord>, name: Seq<char>, p: int)
    requires
        0 <= p <= list.len(),
        forall|i: int|
            0 <= i < p ==> name_order(FileRecord::name_of(#[trigger] list[i]@), name)
                == NameOrder::Less,
        forall|i: int|
            p <= i < list.len() ==> name_order(FileRecord::name_of(#[trigger] list[i]@), name)
                != NameOrder::Less,
    ensures
        forall|i: int| 0 <= i < p ==> name_order((#[trigger] list[i]).name@, name) == NameOrder::Less,
        forall|i: int|
            p <= i < list.len() ==> name_order((#[trigger] list[i]).name@, name)
                != NameOrder::Less,
{
    assert forall|i: int| 0 <= i < p implies name_order((#[trigger] list[i]).name@, name)
        == NameOrder::Less by {
        assert(FileRecord::name_of(list[i]@) == list[i].name@);
    }
    assert forall|i: int| p <= i < list.len() implies name_order(
        (#[trigger] list[i]).name@,
        name,
    ) != NameOrder::Less by {
        assert(FileRecord::name_of(list[i]@) == list[i].name@);
    }
}

proof fn lemma_replaced(before: Seq<FileRecord>, after: Seq<FileRecord>, p: int, stat: FileStat)
    requires
        rising(before),
        0 <= p < before.len(),
        after.len() == before.len(),
        after[p].name == before[p].name,
        after[p].stat == stat,
        forall|i: int| 0 <= i < before.len() && i != p ==> #[trigger] after[i] == before[i],
    ensures
        rising(after),
        stats(after) == stats(before).insert(before[p].name@, stat),
        stats(after).dom() == stats(before).dom(),
{
    assert forall|i: int| 0 <= i < after.len() implies (#[trigger] after[i]).name@
        == before[i].name@ by {}
    assert forall|i: int, j: int| 0 <= i < j < after.len() implies name_order(
        (#[trigger] after[i]).name@,
        (#[trigger] after[j]).name@,
    ) == NameOrder::Less by {
        assert(name_order(before[i].name@, before[j].name@) == NameOrder::Less);
    }
    assert forall|n: Seq<char>| lists(after, n) <==> lists(before, n) by {
        if lists(after, n) {
            let i = place(after, n);
            assert(before[i].name@ == n);
        }
        if lists(before, n) {
            let i = place(before, n);
            assert(after[i].name@ == n);
        }
    }
    lemma_place(before, p);
    assert(stats(after).dom() =~= stats(before).dom());
    assert forall|n: Seq<char>| stats(after).dom().contains(n) implies #[trigger] stats(after)[n]
        == stats(before).insert(before[p].name@, stat)[n] by {
        let i = place(before, n);
        lemma_place(before, i);
        lemma_place(after, i);
    }
    assert(stats(after) =~= stats(before).insert(before[p].name@, stat));
}

proof fn lemma_put(before: Seq<FileRecord>, record: FileRecord, p: int)
    requires
        rising(before),
        0 <= p <= before.len(),
        !lists(before, record.name@),
        forall|i: int|
            0 <= i < p ==> name_order((#[trigger] before[i]).name@, record.name@)
                == NameOrder::Less,
        forall|i: int|
            p <= i < before.len() ==> name_order((#[trigger] before[i]).name@, record.name@)
                == NameOrder::Greater,
    ensures
        rising(before.insert(p, record)),
        stats(before.insert(p, record)) == stats(before).insert(record.name@, record.stat),
        stats(before.insert(p, record)).dom() == stats(before).dom().insert(record.name@),
        !stats(before).dom().contains(record.name@),
{
    let key = record.name@;
    let after = before.insert(p, record);
    assert forall|i: int, j: int| 0 <= i < j < after.len() implies name_order(
        (#[trigger] after[i]).name@,
        (#[trigger] after[j]).name@,
    ) == NameOrder::Less by {
        if i == p {
            assert(after[j] == before[j - 1]);
            lemma_name_order_flip(before[j - 1].name@, key);
        } else if j == p {
            assert(after[i] == before[i]);
        } else {
            let bi = if i < p {
                i
            } else {
                i - 1
            };
            let bj = if j < p {
                j
            } else {
                j - 1
            };
            assert(after[i] == before[bi]);
            assert(after[j] == before[bj]);
            assert(name_order(before[bi].name@, before[bj].name@) == NameOrder::Less);
        }
    }
    assert forall|n: Seq<char>| lists(after, n) <==> (lists(before, n) || n == key) by {
        if lists(after, n) {
            let i = place(after, n);
            if i < p {
                assert(after[i] == before[i]);
            } else if i > p {
                assert(after[i] == before[i - 1]);
            }
        }
        if lists(before, n) {
            let i = place(before, n);
            if i < p {
                assert(after[i] == before[i]);
            } else {
                assert(after[i + 1] == before[i]);
            }
        }
        if n == key {
            assert(after[p].name@ == key);
        }
    }
    assert(stats(after).dom() =~= stats(before).dom().insert(key));
    lemma_place(after, p);
    assert forall|n: Seq<char>| stats(after).dom().contains(n) implies #[trigger] stats(after)[n]
        == stats(before).insert(key, record.stat)[n] by {
        if n != key {
            let i = place(before, n);
            lemma_place(before, i);
            let ai = if i < p {
                i
            } else {
                i + 1
            };
            assert(after[ai] == before[i]);
            lemma_place(after, ai);
        }
    }
    assert(stats(after) =~= stats(before).insert(key, record.stat));
}

/// What a list of records says of the files of a directory: for each name the
/// time and size of the last record of a file of that name.
pub open spec fn stats_of(records: Seq<DirRecordView>) -> Map<Seq<char>, FileStat>
    decreases records.len(),
{
    if records.len() == 0 {
        Map::empty()
    } else if is_directory(records.last()) {
        stats_of(records.drop_last())
    } else {
        stats_of(records.drop_last()).insert(records.last().name, record_stat(records.last()))
    }
}

impl View for DirectoryStat {
    type V = Map<Seq<char>, FileStat>;

    closed spec fn view(&self) -> Map<Seq<char>, FileStat> {
        stats(self.file_stats@)
    }
}

impl DirectoryStat {
    /// The files stand in ascending order of their names, none twice.
    pub closed spec fn wf(&self) -> bool {
        &&& rising(self.file_stats@)
        &&& self@.dom().finite()
        &&& self@.dom().len() == self.file_stats@.len()
    }

    /// The path of the directory.
    pub closed spec fn spec_directory(&self) -> Seq<char> {
        self.directory@
    }

    /// The path of the directory.
    pub fn directory(&self) -> (r: &str)
        ensures
            r@ == self.spec_directory(),
    {
        self.directory.as_str()
    }

    /// The time of the file system in nanoseconds since the Unix epoch.
    pub fn windows_time_to_git_time(time: u64) -> (r: u128)
        ensures
            r == git_time(time),
    {
        if time >= WINDOWS_TO_UNIX_EPOCH {
            ((time - WINDOWS_TO_UNIX_EPOCH) as u128) * 100
        } else {
            0
        }
    }

    /// Reads a name of `size` bytes of UTF-16 from the start of a buffer.
    pub fn read_string(slice: &[u8], size: usize) -> (r: Option<String>)
        ensures
            match r {
                Some(name) => name_text(slice@, size as int) == Some(name@),
                None => name_text(slice@, size as int) is None,
            },
    {
        let count: usize = size / 2;
        if count > slice.len() / 2 {
            return None;
        }
        let mut units: Vec<u16> = Vec::new();
        let mut i: usize = 0;
        while i < count
            invariant
                i <= count,
                count * 2 <= slice@.len() <= usize::MAX,
                units@ == units_of(slice@, i as int),
            decreases count - i,
        {
            let low: u16 = slice[2 * i] as u16;
            let high: u16 = slice[2 * i + 1] as u16;
            units.push(low + 256 * high);
            proof {
                assert(units@ =~= units_of(slice@, i + 1));
            }
            i += 1;
        }
        string_from_utf16(&units)
    }

    /// Reads the records out of a buffer that the file system filled with
    /// directory information.
    pub fn get_dir_stats(buffer: &[u8]) -> (r: Vec<DirRecord>)
        ensures
            views(r@) == records_from(buffer@, 0),
    {
        let mut records: Vec<DirRecord> = Vec::new();
        let mut offset: usize = 0;
        proof {
            assert(views(records@) + records_from(buffer@, 0) =~= records_from(buffer@, 0));
        }
        loop
            invariant
                offset <= buffer@.len(),
                views(records@) + records_from(buffer@, offset as int) == records_from(buffer@, 0),
            decreases buffer@.len() - offset,
        {
            if buffer.len() - offset < NAME_OFFSET {
                proof {
                    assert(views(records@) + Seq::<DirRecordView>::empty() =~= views(records@));
                }
                return records;
            }
            let next = read_le32(buffer, offset);
            let last_write_time = read_le64(buffer, offset + 24);
            let end_of_file = read_le64(buffer, offset + 40);
            let attributes = read_le32(buffer, offset + 56);
            let name_length = read_le32(buffer, offset + 60);
            let tail = slice_subrange(buffer, offset + NAME_OFFSET, buffer.len());
            let ghost before = views(records@);
            let ghost first = match record_at(buffer@, offset as int)->Some_0.record {
                Some(record) => seq![record],
                None => Seq::<DirRecordView>::empty(),
            };
            proof {
                assert(tail@ =~= buffer@.skip(offset + 68));
            }
            match DirectoryStat::read_string(tail, name_length as usize) {
                Some(name) => {
                    let record = DirRecord { name, attributes, last_write_time, end_of_file };
                    proof {
                        assert(views(records@.push(record)) =~= before + first);
                    }
                    records.push(record);
                },
                None => {
                    proof {
                        assert(before + first =~= before);
                    }
                },
            }
            if next == 0 || next as usize > buffer.len() - offset {
                proof {
                    if next != 0 {
                        assert(records_from(buffer@, offset + next) == Seq::<
                            DirRecordView,
                        >::empty());
                        assert(first + Seq::<DirRecordView>::empty() =~= first);
                    }
                }
                return records;
            }
            proof {
                let rest = records_from(buffer@, offset + next);
                assert(before + (first + rest) =~= (before + first) + rest);
            }
            offset = offset + next as usize;
        }
    }

    /// A directory without files.
    pub fn empty(directory: &str) -> (r: DirectoryStat)
        ensures
            r.wf(),
            r.spec_directory() == directory@,
            r@ == Map::<Seq<char>, FileStat>::empty(),
    {
        let file_stats: Vec<FileRecord> = Vec::new();
        assert(stats(file_stats@) =~= Map::<Seq<char>, FileStat>::empty());
        DirectoryStat { directory: String::from_str(directory), file_stats }
    }

    /// How many files the directory has.
    pub fn len(&self) -> (r: usize)
        requires
            self.wf(),
        ensures
            r == self@.dom().len(),
    {
        self.file_stats.len()
    }

    fn find(&self, name: &str) -> (r: Option<usize>)
        requires
            self.wf(),
        ensures
            match r {
                Some(p) => p < self.file_stats@.len() && self.file_stats@[p as int].name@ == name@
                    && self@.dom().contains(name@) && self@[name@]
                    == self.file_stats@[p as int].stat,
                None => !self@.dom().contains(name@),
            },
    {
        proof {
            lemma_rising_is_sorted(self.file_stats@);
        }
        let p = lower_bound(&self.file_stats, name);
        proof {
            lemma_bounds(self.file_stats@, name@, p as int);
        }
        if p < self.file_stats.len() && same_name(self.file_stats[p].name.as_str(), name) {
            proof {
                lemma_place(self.file_stats@, p as int);
            }
            return Some(p);
        }
        proof {
            lemma_missing(self.file_stats@, name@, p as int);
        }
        None
    }

    /// The time and size of the file `name`, if the directory has such a file.
    pub fn get(&self, name: &str) -> (r: Option<FileStat>)
        requires
            self.wf(),
        ensures
            match r {
                Some(stat) => self@.dom().contains(name@) && self@[name@] == stat,
                None => !self@.dom().contains(name@),
            },
    {
        match self.find(name) {
            Some(p) => Some(self.file_stats[p].stat),
            None => None,
        }
    }

    /// Records the time and size of the file `name`, in place of what was
    /// recorded for it before.
    pub fn insert(&mut self, name: String, stat: FileStat)
        requires
            old(self).wf(),
        ensures
            final(self).wf(),
            final(self)@ == old(self)@.insert(name@, stat),
            final(self).spec_directory() == old(self).spec_directory(),
    {
        let ghost before = self.file_stats@;
        proof {
            lemma_rising_is_sorted(before);
        }
        let p = lower_bound(&self.file_stats, name.as_str());
        proof {
            lemma_bounds(before, name@, p as int);
        }
        if p < self.file_stats.len() && same_name(self.file_stats[p].name.as_str(), name.as_str()) {
            self.file_stats[p].stat = stat;
            proof {
                lemma_replaced(before, self.file_stats@, p as int, stat);
                assert(stats(before).dom().insert(name@) =~= stats(before).dom());
            }
            return ;
        }
        let record = FileRecord { name, stat };
        proof {
            lemma_missing(before, record.name@, p as int);
            lemma_put(before, record, p as int);
        }
        self.file_stats.insert(p, record);
    }

    /// The files of the directory at `path`, from the records that the file
    /// system gave for it.
    pub fn new(path: &str, records: &Vec<DirRecord>) -> (r: DirectoryStat)
        ensures
            r.wf(),
            r.spec_directory() == path@,
            r@ == stats_of(views(records@)),
    {
        let mut dirstat = DirectoryStat::empty(path);
        let ghost all = views(records@);
        let mut i: usize = 0;
        proof {
            assert(all.take(0) =~= Seq::<DirRecordView>::empty());
        }
        while i < records.len()
            invariant
                i <= records@.len(),
                all == views(records@),
                dirstat.wf(),
                dirstat.spec_directory() == path@,
                dirstat@ == stats_of(all.take(i as int)),
            decreases records@.len() - i,
        {
            let record = &records[i];
            proof {
                assert(all.take(i + 1).drop_last() =~= all.take(i as int));
                assert(all.take(i + 1).last() == record@);
            }
            if record.attributes & FILE_ATTRIBUTE_DIRECTORY == 0 {
                let mtime = DirectoryStat::windows_time_to_git_time(record.last_write_time);
                let size: u32 = (record.end_of_file % 4294967296) as u32;
                dirstat.insert(record.name.clone(), FileStat { mtime, size });
            }
            i += 1;
        }
        proof {
            assert(all.take(i as int) =~= all);
        }
        dirstat
    }
}

} // verus!
