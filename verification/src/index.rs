use crate::directories::{is_ancestor, key_of, DirectoryMap};
use crate::direntry::{mode_object_type, DirEntry, DirEntryView, FileStat, ObjectType};
use crate::error::{index_fault_message, ErrorKind, IndexFault, StatusError};
use crate::sorting::{reversed, sorted};
use vstd::prelude::*;
use vstd::slice::*;
use vstd::string::*;
use vstd::utf8::*;

verus! {

/// Bytes of an entry that come before its path.
pub const ENTRY_PREFIX: usize = 62;

/// The value that the 12-bit length field holds when the path is too long for it.
pub const LONG_NAME: u16 = 4095;

/// The big-endian number in the two bytes at `at`.
pub open spec fn be16(s: Seq<u8>, at: int) -> int {
    s[at] as int * 256 + s[at + 1] as int
}

/// The big-endian number in the four bytes at `at`.
pub open spec fn be32(s: Seq<u8>, at: int) -> int {
    ((s[at] as int * 256 + s[at + 1] as int) * 256 + s[at + 2] as int) * 256 + s[at + 3] as int
}

fn read_be16(stream: &[u8], at: usize) -> (r: u16)
    requires
        at + 2 <= stream@.len(),
    ensures
        r == be16(stream@, at as int),
{
    let high: u16 = stream[at] as u16;
    let low: u16 = stream[at + 1] as u16;
    high * 256 + low
}

fn read_be32(stream: &[u8], at: usize) -> (r: u32)
    requires
        at + 4 <= stream@.len(),
    ensures
        r == be32(stream@, at as int),
{
    let b0: u32 = stream[at] as u32;
    let b1: u32 = stream[at + 1] as u32;
    let b2: u32 = stream[at + 2] as u32;
    let b3: u32 = stream[at + 3] as u32;
    ((b0 * 256 + b1) * 256 + b2) * 256 + b3
}

/// The fixed part at the start of an index file.
#[derive(PartialEq, Eq, Debug, Default, Clone, Copy)]
pub struct Header {
    pub version: u32,
    /// How many entries follow.
    pub entries: u32,
}

/// Whether the stream starts with the four letters `DIRC`.
pub open spec fn has_signature(s: Seq<u8>) -> bool {
    s.len() >= 4 && s[0] == 68 && s[1] == 73 && s[2] == 82 && s[3] == 67
}

/// What the first twelve bytes of an index file say.
pub open spec fn parse_header(s: Seq<u8>) -> Result<Header, IndexFault> {
    if s.len() >= 4 && !has_signature(s) {
        Err(IndexFault::BadSignature)
    } else if s.len() < 12 {
        Err(IndexFault::Truncated)
    } else {
        Ok(Header { version: be32(s, 4) as u32, entries: be32(s, 8) as u32 })
    }
}

/// Position of the first zero byte at or after `i`, or the stream's length if there is none.
pub open spec fn scan_nul(s: Seq<u8>, i: int) -> int
    decreases s.len() - i,
{
    if i >= s.len() {
        s.len() as int
    } else if s[i] == 0 {
        i
    } else {
        scan_nul(s, i + 1)
    }
}

/// Length of the path of the entry at the start of `s`: the low twelve bits of the
/// flags, unless they are all set, in which case the path runs up to the first zero byte.
pub open spec fn name_length(s: Seq<u8>) -> int {
    let field = be16(s, 60) % 4096;
    if field < 4095 {
        field
    } else {
        scan_nul(s, 62) - 62
    }
}

/// How many zero bytes follow a path of `len` bytes: between one and eight, so that
/// the entry ends on a multiple of eight.
pub open spec fn padding(len: int) -> int {
    8 - (62 + len) % 8
}

/// Bytes that an entry with a path of `len` bytes takes.
pub open spec fn entry_size(len: int) -> int {
    62 + len + padding(len)
}

/// Position of the last `/` in a path, or -1 if it has none.
pub open spec fn last_slash(path: Seq<u8>) -> int
    decreases path.len(),
{
    if path.len() == 0 {
        -1
    } else if path.last() == 47 {
        path.len() - 1
    } else {
        last_slash(path.drop_last())
    }
}

/// The directory of a path: what stands before its last `/`, the root `""` if it has none.
pub open spec fn directory_part(path: Seq<u8>) -> Seq<u8> {
    if last_slash(path) < 0 {
        Seq::empty()
    } else {
        path.take(last_slash(path))
    }
}

/// The last component of a path: what stands after its last `/`.
pub open spec fn leaf_part(path: Seq<u8>) -> Seq<u8> {
    path.skip(last_slash(path) + 1)
}

/// One decoded entry: its directory, the entry under its leaf name, and the bytes it took.
pub ghost struct ParsedEntry {
    pub directory: Seq<char>,
    pub entry: DirEntryView,
    pub consumed: int,
}

/// Whether the entry at the start of `s` carries the extended flag, the second
/// highest bit of its flags.
pub open spec fn is_extended(s: Seq<u8>) -> bool {
    be16(s, 60) / 16384 % 2 == 1
}

/// What the entry at the start of `s` says. An entry that carries the extended
/// flag is refused.
pub open spec fn parse_entry(s: Seq<u8>) -> Result<ParsedEntry, IndexFault> {
    if s.len() < 62 {
        Err(IndexFault::Truncated)
    } else if is_extended(s) {
        Err(IndexFault::ExtendedFlags)
    } else if s.len() < entry_size(name_length(s)) {
        Err(IndexFault::Truncated)
    } else {
        let path = s.subrange(62, 62 + name_length(s));
        let directory = directory_part(path);
        let leaf = leaf_part(path);
        if leaf.len() == 0 || !valid_utf8(directory) || !valid_utf8(leaf) {
            Err(IndexFault::BadName)
        } else {
            Ok(
                ParsedEntry {
                    directory: decode_utf8(directory),
                    entry: DirEntryView {
                        object_type: mode_object_type(be16(s, 26) as u16),
                        stat: FileStat {
                            mtime: (be32(s, 8) * 1_000_000_000 + be32(s, 12)) as u128,
                            size: be32(s, 36) as u32,
                        },
                        sha: s.subrange(40, 60),
                        name: decode_utf8(leaf),
                        mode: be16(s, 26) as u16,
                    },
                    consumed: entry_size(name_length(s)),
                },
            )
        }
    }
}

/// Calls `String::from_utf8` of the standard library on a copy of the bytes. It
/// succeeds exactly on well-formed UTF-8, and the string it gives encodes to the
/// bytes it was given.
#[verifier::external_body]
fn string_from_utf8(bytes: &[u8]) -> (r: Option<String>)
    ensures
        r is Some <==> valid_utf8(bytes@),
        r matches Some(s) ==> encode_utf8(s@) == bytes@,
{
    String::from_utf8(bytes.to_vec()).ok()
}

/// Reads the length field out of the two bytes of an entry's flags, their low
/// twelve bits, and hands back what follows the flags. The four bits above the
/// length (assume-valid, extended, stage) are masked off.
pub fn parse_name_size(input: &[u8]) -> (r: Result<(&[u8], u16), IndexFault>)
    ensures
        match r {
            Ok((rest, size)) => input@.len() >= 2 && size == be16(input@, 0) % 4096 && rest@
                == input@.skip(2),
            Err(fault) => input@.len() < 2 && fault == IndexFault::Truncated,
        },
{
    if input.len() < 2 {
        return Err(IndexFault::Truncated);
    }
    let flags = read_be16(input, 0);
    Ok((slice_subrange(input, 2, input.len()), flags % 4096))
}

/// Finds the end of a path that runs up to the first zero byte.
fn find_nul(stream: &[u8], from: usize) -> (r: usize)
    requires
        from <= stream@.len(),
    ensures
        r == scan_nul(stream@, from as int),
        from <= r <= stream@.len(),
{
    let mut i: usize = from;
    while i < stream.len() && stream[i] != 0
        invariant
            from <= i <= stream@.len(),
            scan_nul(stream@, from as int) == scan_nul(stream@, i as int),
        decreases stream@.len() - i,
    {
        i += 1;
    }
    i
}

/// Finds where the last component of a path starts.
fn leaf_start(path: &[u8]) -> (r: usize)
    ensures
        r == last_slash(path@) + 1,
        r <= path@.len(),
{
    let mut i: usize = path.len();
    assert(path@.take(path@.len() as int) =~= path@);
    while i > 0 && path[i - 1] != 47
        invariant
            i <= path@.len(),
            last_slash(path@) == last_slash(path@.take(i as int)),
        decreases i,
    {
        proof {
            assert(path@.take(i as int).drop_last() =~= path@.take(i - 1));
        }
        i -= 1;
    }
    proof {
        if i > 0 {
            assert(path@.take(i as int).last() == path@[i - 1]);
        }
    }
    i
}

/// An entry together with the key of the directory it lies in.
pub ghost struct Filed {
    pub directory: Seq<u8>,
    pub entry: DirEntryView,
}

/// The entries of a list with the keys of their directories.
pub open spec fn filed(entries: Seq<(String, DirEntry)>) -> Seq<Filed> {
    Seq::new(
        entries.len(),
        |i: int| Filed { directory: key_of(entries[i].0@), entry: entries[i].1@ },
    )
}

/// Decoded entries with the keys of their directories.
pub open spec fn filed_parsed(parsed: Seq<ParsedEntry>) -> Seq<Filed> {
    Seq::new(
        parsed.len(),
        |i: int| Filed { directory: key_of(parsed[i].directory), entry: parsed[i].entry },
    )
}

/// The entries of `list` that lie directly in the directory `d`, in their order.
pub open spec fn entries_in(list: Seq<Filed>, d: Seq<u8>) -> Seq<DirEntryView>
    decreases list.len(),
{
    if list.len() == 0 {
        Seq::empty()
    } else if list.last().directory == d {
        entries_in(list.drop_last(), d).push(list.last().entry)
    } else {
        entries_in(list.drop_last(), d)
    }
}

/// Whether `d` is the directory of an entry of `list`, or lies above one.
pub open spec fn is_directory_of(list: Seq<Filed>, d: Seq<u8>) -> bool {
    exists|i: int| 0 <= i < list.len() && is_ancestor(d, #[trigger] list[i].directory)
}

/// The directories that a list of entries gives rise to: the directory of each
/// entry and every directory above it, each with the entries that lie directly
/// in it, sorted by name.
pub open spec fn directories_of(list: Seq<Filed>) -> Map<Seq<u8>, Seq<DirEntryView>> {
    Map::new(
        |d: Seq<u8>| is_directory_of(list, d),
        |d: Seq<u8>| sorted::<DirEntry>(entries_in(list, d)),
    )
}

/// The first `count` entries of a stream, read one after the other.
pub open spec fn parse_entries(s: Seq<u8>, count: nat) -> Result<Seq<ParsedEntry>, IndexFault>
    decreases count,
{
    if count == 0 {
        Ok(Seq::empty())
    } else {
        match parse_entry(s) {
            Err(fault) => Err(fault),
            Ok(first) => match parse_entries(s.skip(first.consumed), (count - 1) as nat) {
                Err(fault) => Err(fault),
                Ok(rest) => Ok(seq![first] + rest),
            },
        }
    }
}

/// The entries of an index file of version 2 or 3. What follows the last entry
/// (extensions, the checksum) plays no part in them.
pub open spec fn parse_index(s: Seq<u8>) -> Result<Seq<ParsedEntry>, IndexFault> {
    match parse_header(s) {
        Err(fault) => Err(fault),
        Ok(header) => if header.version != 2 && header.version != 3 {
            Err(IndexFault::UnsupportedVersion)
        } else {
            parse_entries(s.skip(12), header.entries as nat)
        },
    }
}

/// The entries read so far, followed by what the rest of the stream gives.
pub open spec fn after_entries(
    done: Seq<ParsedEntry>,
    rest: Result<Seq<ParsedEntry>, IndexFault>,
) -> Result<Seq<ParsedEntry>, IndexFault> {
    match rest {
        Ok(tail) => Ok(done + tail),
        Err(fault) => Err(fault),
    }
}

proof fn lemma_after_entries(done: Seq<ParsedEntry>, s: Seq<u8>, count: nat)
    requires
        count > 0,
        parse_entry(s) is Ok,
    ensures
        after_entries(done, parse_entries(s, count)) == after_entries(
            done.push(parse_entry(s)->Ok_0),
            parse_entries(s.skip(parse_entry(s)->Ok_0.consumed), (count - 1) as nat),
        ),
{
    let first = parse_entry(s)->Ok_0;
    let further = parse_entries(s.skip(first.consumed), (count - 1) as nat);
    if further is Ok {
        assert(done + (seq![first] + further->Ok_0) =~= done.push(first) + further->Ok_0);
    }
}

proof fn lemma_entries_in_absent(list: Seq<Filed>, d: Seq<u8>)
    requires
        !is_directory_of(list, d),
    ensures
        entries_in(list, d) == Seq::<DirEntryView>::empty(),
    decreases list.len(),
{
    if list.len() > 0 {
        let front = list.drop_last();
        assert(is_ancestor(d, d));
        assert(list[list.len() - 1].directory != d);
        if is_directory_of(front, d) {
            let i = choose|i: int| 0 <= i < front.len() && is_ancestor(d, #[trigger] front[i].directory);
            assert(is_ancestor(d, list[i].directory));
        }
        lemma_entries_in_absent(front, d);
    }
}

/// Whether `a` is the root or a directory above `key` whose path is shorter than `i`.
pub open spec fn above(a: Seq<u8>, key: Seq<u8>, i: int) -> bool {
    a.len() == 0 || (a.len() < i && a.len() < key.len() && key[a.len() as int] == 47 && a
        == key.take(a.len() as int))
}

/// How many bytes the entries took, one after the other.
pub open spec fn consumed_by(parsed: Seq<ParsedEntry>) -> int
    decreases parsed.len(),
{
    if parsed.len() == 0 {
        0
    } else {
        consumed_by(parsed.drop_last()) + parsed.last().consumed
    }
}

/// The object id of an index file whose entries are `parsed`: the last twenty
/// bytes of the file where at least twenty bytes follow the last entry, twenty
/// zero bytes where the file ends before that.
pub open spec fn object_id(contents: Seq<u8>, parsed: Seq<ParsedEntry>) -> Seq<u8> {
    if contents.len() - 12 - consumed_by(parsed) >= 20 {
        contents.skip(contents.len() - 20)
    } else {
        Seq::new(20, |i: int| 0u8)
    }
}

proof fn lemma_consumed_further(contents: Seq<u8>, done: Seq<ParsedEntry>, next: ParsedEntry)
    requires
        0 <= 12 + consumed_by(done) <= contents.len(),
        0 <= next.consumed <= contents.len() - 12 - consumed_by(done),
    ensures
        consumed_by(done.push(next)) == consumed_by(done) + next.consumed,
        contents.skip(12 + consumed_by(done)).skip(next.consumed) == contents.skip(
            12 + consumed_by(done.push(next)),
        ),
{
    assert(done.push(next).drop_last() =~= done);
    assert(contents.skip(12 + consumed_by(done)).skip(next.consumed) =~= contents.skip(
        12 + consumed_by(done) + next.consumed,
    ));
}

/// The index of a repository: the staging area, decoded from the file `.git/index`.
pub struct Index {
    /// The object id of the index: the checksum over its body that the file ends
    /// with. It is kept as it stands in the file and not verified. All its bytes
    /// are zero where the file does not hold it.
    pub oid: [u8; 20],
    /// The header that the index was decoded with.
    pub header: Header,
    /// The tracked entries, by directory.
    pub entries: DirectoryMap,
}

impl View for Index {
    type V = Map<Seq<u8>, Seq<DirEntryView>>;

    open spec fn view(&self) -> Map<Seq<u8>, Seq<DirEntryView>> {
        self.entries@
    }
}

impl Index {
    /// Reads the header at the start of an index file and hands back what follows it.
    pub fn read_header(stream: &[u8]) -> (r: Result<(&[u8], Header), IndexFault>)
        ensures
            match r {
                Ok((rest, header)) => parse_header(stream@) == Ok::<Header, IndexFault>(header)
                    && rest@ == stream@.skip(12),
                Err(fault) => parse_header(stream@) == Err::<Header, IndexFault>(fault),
            },
    {
        if stream.len() >= 4 {
            if stream[0] != 68 || stream[1] != 73 || stream[2] != 82 || stream[3] != 67 {
                return Err(IndexFault::BadSignature);
            }
        }
        if stream.len() < 12 {
            return Err(IndexFault::Truncated);
        }
        let version = read_be32(stream, 4);
        let entries = read_be32(stream, 8);
        let rest = slice_subrange(stream, 12, stream.len());
        Ok((rest, Header { version, entries }))
    }

    /// Reads one entry from the start of `stream` and hands back its directory, the
    /// entry under its leaf name, and what follows the entry's padding.
    pub fn read_entry(stream: &[u8]) -> (r: Result<(&[u8], (String, DirEntry)), IndexFault>)
        ensures
            match r {
                Ok((rest, (directory, entry))) => parse_entry(stream@) matches Ok(parsed)
                    && parsed.directory == directory@ && parsed.entry == entry@ && rest@
                    == stream@.skip(parsed.consumed) && 62 <= parsed.consumed <= stream@.len(),
                Err(fault) => parse_entry(stream@) == Err::<ParsedEntry, IndexFault>(fault),
            },
    {
        if stream.len() < ENTRY_PREFIX {
            return Err(IndexFault::Truncated);
        }
        let mtime_s = read_be32(stream, 8);
        let mtime_ns = read_be32(stream, 12);
        let mode = read_be16(stream, 26);
        let size = read_be32(stream, 36);
        let flags = read_be16(stream, 60);
        if flags / 16384 % 2 == 1 {
            return Err(IndexFault::ExtendedFlags);
        }
        let field: u16 = match parse_name_size(slice_subrange(stream, 60, stream.len())) {
            Ok((_, field)) => field,
            Err(fault) => {
                return Err(fault);
            },
        };
        assert(be16(stream@.subrange(60, stream@.len() as int), 0) == be16(stream@, 60));
        let len: usize = if field < LONG_NAME {
            field as usize
        } else {
            find_nul(stream, ENTRY_PREFIX) - ENTRY_PREFIX
        };
        assert(len == name_length(stream@));
        if stream.len() - ENTRY_PREFIX < len {
            return Err(IndexFault::Truncated);
        }
        let pad: usize = 8 - (ENTRY_PREFIX + len) % 8;
        if stream.len() - ENTRY_PREFIX - len < pad {
            return Err(IndexFault::Truncated);
        }
        let path = slice_subrange(stream, ENTRY_PREFIX, ENTRY_PREFIX + len);
        let cut = leaf_start(path);
        let directory_bytes = if cut == 0 {
            slice_subrange(path, 0, 0)
        } else {
            slice_subrange(path, 0, cut - 1)
        };
        let leaf_bytes = slice_subrange(path, cut, path.len());
        assert(directory_bytes@ =~= directory_part(path@));
        assert(leaf_bytes@ =~= leaf_part(path@));
        if leaf_bytes.len() == 0 {
            return Err(IndexFault::BadName);
        }
        let directory = match string_from_utf8(directory_bytes) {
            Some(s) => s,
            None => {
                return Err(IndexFault::BadName);
            },
        };
        let name = match string_from_utf8(leaf_bytes) {
            Some(s) => s,
            None => {
                return Err(IndexFault::BadName);
            },
        };
        proof {
            encode_utf8_decode_utf8(directory@);
            encode_utf8_decode_utf8(name@);
        }
        let mut sha: [u8; 20] = [0u8;20];
        let mut k: usize = 0;
        while k < 20
            invariant
                k <= 20,
                stream@.len() >= 62,
                forall|j: int| 0 <= j < k ==> sha@[j] == stream@[40 + j],
            decreases 20 - k,
        {
            sha[k] = stream[40 + k];
            k += 1;
        }
        assert(sha@ =~= stream@.subrange(40, 60));
        let mtime: u128 = (mtime_s as u128) * 1_000_000_000 + (mtime_ns as u128);
        let entry = DirEntry {
            object_type: ObjectType::from_mode(mode),
            stat: FileStat { mtime, size },
            sha,
            name,
            mode,
        };
        let rest = slice_subrange(stream, ENTRY_PREFIX + len + pad, stream.len());
        Ok((rest, (directory, entry)))
    }

    /// The index's directories are in order and complete.
    pub open spec fn wf(&self) -> bool {
        self.entries.wf()
    }

    /// Makes sure that the map holds the directory `name` and every directory
    /// above it, and hands back the position of `name`.
    pub fn get_directory_entry(name: &str, directory_map: &mut DirectoryMap) -> (position: usize)
        requires
            old(directory_map).wf(),
        ensures
            final(directory_map).wf(),
            forall|a: Seq<u8>|
                #![trigger final(directory_map)@.dom().contains(a)]
                #![trigger old(directory_map)@.dom().contains(a)]
                #![trigger is_ancestor(a, key_of(name@))]
                final(directory_map)@.dom().contains(a) <==> old(directory_map)@.dom().contains(a)
                    || is_ancestor(a, key_of(name@)),
            forall|k: Seq<u8>|
                #![trigger final(directory_map)@[k]]
                #![trigger old(directory_map)@.dom().contains(k)]
                old(directory_map)@.dom().contains(k) ==> final(directory_map)@[k] == old(
                    directory_map,
                )@[k],
            forall|k: Seq<u8>|
                #![trigger final(directory_map)@[k]]
                #![trigger final(directory_map)@.dom().contains(k)]
                final(directory_map)@.dom().contains(k) && !old(directory_map)@.dom().contains(k)
                    ==> final(directory_map)@[k] == Seq::<DirEntryView>::empty(),
            position < final(directory_map).count(),
            final(directory_map).key_at(position as int) == key_of(name@),
    {
        let key = name.as_bytes();
        let ghost start = directory_map@;
        match directory_map.find(key) {
            Some(position) => {
                proof {
                    assert forall|a: Seq<u8>| is_ancestor(a, key@) implies start.dom().contains(
                        a,
                    ) by {
                        directory_map.lemma_closed_upwards(key@, a);
                    }
                }
                return position;
            },
            None => {},
        }
        let root = slice_subrange(key, 0, 0);
        proof {
            assert forall|a: Seq<u8>| is_ancestor(a, root@) && a != root@ implies start.dom().contains(
                a,
            ) by {
                assert(a =~= root@);
            }
        }
        directory_map.file(root);
        proof {
            assert forall|a: Seq<u8>| #[trigger]
                directory_map@.dom().contains(a) <==> start.dom().contains(a) || above(
                    a,
                    key@,
                    0,
                ) by {
                if a.len() == 0 {
                    assert(a =~= root@);
                }
            }
        }
        let mut i: usize = 0;
        while i < key.len()
            invariant
                i <= key@.len(),
                directory_map.wf(),
                forall|a: Seq<u8>| #[trigger]
                    directory_map@.dom().contains(a) <==> start.dom().contains(a) || above(
                        a,
                        key@,
                        i as int,
                    ),
                forall|k: Seq<u8>|
                    start.dom().contains(k) ==> directory_map@[k] == start[k],
                forall|k: Seq<u8>|
                    directory_map@.dom().contains(k) && !start.dom().contains(k)
                        ==> directory_map@[k] == Seq::<DirEntryView>::empty(),
            decreases key@.len() - i,
        {
            if key[i] == 47 {
                let prefix = slice_subrange(key, 0, i);
                proof {
                    assert(prefix@ =~= key@.take(i as int));
                    assert forall|a: Seq<u8>| is_ancestor(a, prefix@) && a != prefix@ implies
                        directory_map@.dom().contains(a) by {
                        if a.len() > 0 {
                            assert(prefix@.take(a.len() as int) =~= key@.take(a.len() as int));
                        }
                    }
                }
                let ghost earlier = directory_map@;
                directory_map.file(prefix);
                proof {
                    assert forall|a: Seq<u8>| #[trigger]
                        directory_map@.dom().contains(a) <==> start.dom().contains(a) || above(
                            a,
                            key@,
                            i + 1,
                        ) by {
                        assert(earlier.dom().contains(a) <==> start.dom().contains(a) || above(
                            a,
                            key@,
                            i as int,
                        ));
                    }
                    assert forall|k: Seq<u8>| start.dom().contains(k) implies directory_map@[k]
                        == start[k] by {
                        assert(earlier.dom().contains(k));
                    }
                    assert forall|k: Seq<u8>|
                        directory_map@.dom().contains(k) && !start.dom().contains(k)
                        implies directory_map@[k] == Seq::<DirEntryView>::empty() by {
                        if earlier.dom().contains(k) {
                        }
                    }
                }
            }
            i += 1;
        }
        proof {
            assert forall|a: Seq<u8>| is_ancestor(a, key@) && a != key@ implies
                directory_map@.dom().contains(a) by {}
        }
        let ghost earlier = directory_map@;
        directory_map.file(key);
        proof {
            assert forall|k: Seq<u8>| start.dom().contains(k) implies directory_map@[k]
                == start[k] by {
                assert(earlier.dom().contains(k));
            }
            assert forall|k: Seq<u8>|
                directory_map@.dom().contains(k) && !start.dom().contains(k)
                implies directory_map@[k] == Seq::<DirEntryView>::empty() by {
                if earlier.dom().contains(k) {
                }
            }
        }
        match directory_map.find(key) {
            Some(position) => position,
            None => 0,
        }
    }

    /// Files entries under their directories.
    pub fn from_entries(entries: Vec<(String, DirEntry)>) -> (index: Index)
        ensures
            index.wf(),
            index@ == directories_of(filed(entries@)),
            index.oid@ == Seq::new(20, |i: int| 0u8),
            index.header == (Header { version: 2, entries: 0 }),
    {
        let ghost all = entries@;
        let ghost list = filed(all);
        let mut pending = reversed(entries);
        let mut map = DirectoryMap::new();
        let ghost mut k: int = 0;
        proof {
            assert(map@ =~= directories_of(list.take(0)));
        }
        while pending.len() > 0
            invariant
                0 <= k,
                k + pending@.len() == all.len(),
                list == filed(all),
                forall|j: int| 0 <= j < pending@.len() ==> pending@[j] == all[all.len() - 1 - j],
                map.wf(),
                map@ == directories_of(list.take(k)),
            decreases pending@.len(),
        {
            let (directory, entry) = pending.pop().unwrap();
            let ghost before = map@;
            let ghost key = key_of(directory@);
            let ghost done = list.take(k);
            let ghost next = list.take(k + 1);
            proof {
                assert(list[k] == Filed { directory: key, entry: entry@ });
                assert(next.drop_last() =~= done);
                assert(next.last() == list[k]);
                if !before.dom().contains(key) {
                    lemma_entries_in_absent(done, key);
                }
            }
            let position = Index::get_directory_entry(directory.as_str(), &mut map);
            let ghost filed_map = map@;
            map.add(position, entry);
            proof {
                assert forall|d: Seq<u8>| map@.dom().contains(d) <==> is_directory_of(next, d) by {
                    if is_directory_of(next, d) {
                        let i = choose|i: int|
                            0 <= i < next.len() && is_ancestor(d, #[trigger] next[i].directory);
                        if i < k {
                            assert(is_ancestor(d, done[i].directory));
                        }
                    }
                    if is_directory_of(done, d) {
                        let i = choose|i: int|
                            0 <= i < done.len() && is_ancestor(d, #[trigger] done[i].directory);
                        assert(is_ancestor(d, next[i].directory));
                    }
                    if is_ancestor(d, key) {
                        assert(is_ancestor(d, next[k].directory));
                    }
                }
                assert(map@.dom() =~= directories_of(next).dom());
                assert forall|d: Seq<u8>| map@.dom().contains(d) implies #[trigger] map@[d]
                    == directories_of(next)[d] by {
                    let earlier = entries_in(done, d);
                    if !before.dom().contains(d) {
                        lemma_entries_in_absent(done, d);
                        assert(filed_map[d] == Seq::<DirEntryView>::empty());
                    } else {
                        assert(filed_map[d] == before[d]);
                        assert(before[d] == sorted::<DirEntry>(earlier));
                    }
                    assert(filed_map[d] == sorted::<DirEntry>(earlier));
                    if d == key {
                        assert(entries_in(next, d) == earlier.push(entry@));
                        assert(earlier.push(entry@).drop_last() =~= earlier);
                        assert(earlier.push(entry@).last() == entry@);
                    } else {
                        assert(entries_in(next, d) == earlier);
                    }
                }
                assert(map@ =~= directories_of(next));
                k = k + 1;
            }
        }
        proof {
            assert(list.take(k) =~= list);
        }
        Index { oid: [0u8;20], header: Header { version: 2, entries: 0 }, entries: map }
    }

    /// Returns the object id of the index: twenty bytes.
    pub fn oid(&self) -> (r: &[u8])
        ensures
            r@ == self.oid@,
            r@.len() == 20,
    {
        self.oid.as_slice()
    }

    /// Decodes the contents of an index file of version 2 or 3. The last twenty
    /// bytes of the file are kept as its object id; what else follows the last
    /// entry is not looked at.
    pub fn new(contents: &[u8]) -> (r: Result<Index, StatusError>)
        ensures
            match r {
                Ok(index) => parse_index(contents@) matches Ok(parsed) && index.wf() && index@
                    == directories_of(filed_parsed(parsed)) && parse_header(contents@) == Ok::<
                    Header,
                    IndexFault,
                >(index.header) && index.oid@ == object_id(contents@, parsed),
                Err(error) => parse_index(contents@) matches Err(fault) && error.kind
                    == ErrorKind::IndexParse(fault) && error.message@ == index_fault_message(fault),
            },
    {
        let (start, header) = match Index::read_header(contents) {
            Ok(found) => found,
            Err(fault) => {
                return Err(StatusError::index_parse(fault));
            },
        };
        if header.version != 2 && header.version != 3 {
            return Err(StatusError::index_parse(IndexFault::UnsupportedVersion));
        }
        let mut rest: &[u8] = start;
        let mut entries: Vec<(String, DirEntry)> = Vec::new();
        let ghost mut done: Seq<ParsedEntry> = Seq::empty();
        let mut k: u32 = 0;
        while k < header.entries
            invariant
                k <= header.entries,
                done.len() == k,
                entries@.len() == k,
                start@ == contents@.skip(12),
                0 <= 12 + consumed_by(done) <= contents@.len(),
                rest@ == contents@.skip(12 + consumed_by(done)),
                parse_header(contents@) == Ok::<Header, IndexFault>(header),
                header.version == 2 || header.version == 3,
                forall|i: int|
                    0 <= i < k ==> (#[trigger] entries@[i]).0@ == done[i].directory
                        && entries@[i].1@ == done[i].entry,
                parse_entries(start@, header.entries as nat) == after_entries(
                    done,
                    parse_entries(rest@, (header.entries - k) as nat),
                ),
            decreases header.entries - k,
        {
            let ghost remaining = rest@;
            let (after, (directory, entry)) = match Index::read_entry(rest) {
                Ok(found) => found,
                Err(fault) => {
                    proof {
                        assert(parse_entries(remaining, (header.entries - k) as nat)
                            == Err::<Seq<ParsedEntry>, IndexFault>(fault));
                    }
                    return Err(StatusError::index_parse(fault));
                },
            };
            proof {
                let parsed = parse_entry(remaining)->Ok_0;
                lemma_after_entries(done, remaining, (header.entries - k) as nat);
                lemma_consumed_further(contents@, done, parsed);
                done = done.push(parsed);
            }
            entries.push((directory, entry));
            rest = after;
            k += 1;
        }
        proof {
            assert(done + Seq::<ParsedEntry>::empty() =~= done);
            assert(parse_index(contents@) == Ok::<Seq<ParsedEntry>, IndexFault>(done));
            assert(filed(entries@) =~= filed_parsed(done));
        }
        let built = Index::from_entries(entries);
        let mut oid: [u8; 20] = [0u8;20];
        if rest.len() >= 20 {
            let from: usize = contents.len() - 20;
            let mut i: usize = 0;
            while i < 20
                invariant
                    i <= 20,
                    from + 20 == contents@.len() <= usize::MAX,
                    forall|j: int| 0 <= j < i ==> oid@[j] == contents@[from + j],
                decreases 20 - i,
            {
                oid[i] = contents[from + i];
                i += 1;
            }
            assert(oid@ =~= contents@.skip(contents@.len() - 20));
        } else {
            assert(oid@ =~= Seq::new(20, |i: int| 0u8));
        }
        Ok(Index { oid, header, entries: built.entries })
    }
}

} // verus!
