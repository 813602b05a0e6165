use crate::direntry::{mode_object_type, DirEntryView, FileStat};
use crate::error::IndexFault;
use crate::index::{
    be16, be32, directory_part, entry_size, last_slash, leaf_part, name_length, padding,
    parse_entries, parse_entry, parse_header, parse_index, scan_nul, Header, ParsedEntry,
};
use vstd::prelude::*;
use vstd::utf8::*;

verus! {

/// An entry as an index file holds it.
pub ghost struct RawEntry {
    /// The eight bytes of the time of the last change of the file's metadata.
    pub created: Seq<u8>,
    pub mtime_seconds: u32,
    pub mtime_nanos: u32,
    /// The ten bytes of the device, the inode and the upper half of the mode word.
    pub device: Seq<u8>,
    pub mode: u16,
    /// The eight bytes of the user and the group.
    pub owner: Seq<u8>,
    pub size: u32,
    pub object_id: Seq<u8>,
    /// The four bits of the flags above the length: assume-valid, extended, and
    /// the two bits of the stage. The extended bit is zero in an entry that the
    /// decoder takes.
    pub flag_bits: int,
    /// The path, relative to the working directory, with `/` between its
    /// components.
    pub path: Seq<u8>,
}

/// The two bytes of a number, the high one first.
pub open spec fn be16_bytes(x: int) -> Seq<u8> {
    seq![(x / 256) as u8, (x % 256) as u8]
}

/// The four bytes of a number, the highest first.
pub open spec fn be32_bytes(x: int) -> Seq<u8> {
    seq![
        (x / 16777216) as u8,
        (x / 65536 % 256) as u8,
        (x / 256 % 256) as u8,
        (x % 256) as u8,
    ]
}

/// `n` zero bytes.
pub open spec fn zeros(n: int) -> Seq<u8> {
    Seq::new(n as nat, |i: int| 0u8)
}

/// What the length field holds for a path of `len` bytes.
pub open spec fn length_field(len: int) -> int {
    if len < 4095 {
        len
    } else {
        4095
    }
}

/// The 62 bytes of an entry that come before its path.
pub open spec fn encode_prefix(e: RawEntry) -> Seq<u8> {
    e.created + be32_bytes(e.mtime_seconds as int) + be32_bytes(e.mtime_nanos as int) + e.device
        + be16_bytes(e.mode as int) + e.owner + be32_bytes(e.size as int) + e.object_id
        + be16_bytes(e.flag_bits * 4096 + length_field(e.path.len() as int))
}

/// The bytes of an entry: the fixed part, the path, and one to eight zero bytes.
pub open spec fn encode_entry(e: RawEntry) -> Seq<u8> {
    encode_prefix(e) + e.path + zeros(padding(e.path.len() as int))
}

/// The bytes of the entries, one after the other.
pub open spec fn encode_entries(entries: Seq<RawEntry>) -> Seq<u8>
    decreases entries.len(),
{
    if entries.len() == 0 {
        Seq::empty()
    } else {
        encode_entry(entries[0]) + encode_entries(entries.drop_first())
    }
}

/// The bytes of an index file with these entries, up to where extensions and
/// the checksum follow.
pub open spec fn encode_index(version: u32, entries: Seq<RawEntry>) -> Seq<u8> {
    seq![68u8, 73u8, 82u8, 67u8] + be32_bytes(version as int) + be32_bytes(entries.len() as int)
        + encode_entries(entries)
}

/// Whether an entry is one that an index file of version 2 or 3 can hold and
/// that this library reads: its fields have their sizes, it does not carry the
/// extended flag, its path has no zero byte and does not end in `/`, and the
/// directory and the name in it are UTF-8.
pub open spec fn encodable(e: RawEntry) -> bool {
    &&& e.created.len() == 8
    &&& e.device.len() == 10
    &&& e.owner.len() == 8
    &&& e.object_id.len() == 20
    &&& 0 <= e.flag_bits < 16
    &&& e.flag_bits / 4 % 2 == 0
    &&& forall|i: int| 0 <= i < e.path.len() ==> #[trigger] e.path[i] != 0
    &&& leaf_part(e.path).len() > 0
    &&& valid_utf8(directory_part(e.path))
    &&& valid_utf8(leaf_part(e.path))
}

/// What the decoder is to make of an entry.
pub open spec fn decoded(e: RawEntry) -> ParsedEntry {
    ParsedEntry {
        directory: decode_utf8(directory_part(e.path)),
        entry: DirEntryView {
            object_type: mode_object_type(e.mode),
            stat: FileStat {
                mtime: (e.mtime_seconds * 1_000_000_000 + e.mtime_nanos) as u128,
                size: e.size,
            },
            sha: e.object_id,
            name: decode_utf8(leaf_part(e.path)),
            mode: e.mode,
        },
        consumed: entry_size(e.path.len() as int),
    }
}

/// What the decoder is to make of a list of entries.
pub open spec fn decoded_entries(entries: Seq<RawEntry>) -> Seq<ParsedEntry> {
    Seq::new(entries.len(), |i: int| decoded(entries[i]))
}

proof fn lemma_be16_of_bytes(s: Seq<u8>, at: int, x: int)
    requires
        0 <= x < 65536,
        0 <= at,
        at + 2 <= s.len(),
        s.subrange(at, at + 2) == be16_bytes(x),
    ensures
        be16(s, at) == x,
{
    let b = s.subrange(at, at + 2);
    assert(b[0] == s[at] && b[1] == s[at + 1]);
}

proof fn lemma_be32_of_bytes(s: Seq<u8>, at: int, x: int)
    requires
        0 <= x < 4294967296,
        0 <= at,
        at + 4 <= s.len(),
        s.subrange(at, at + 4) == be32_bytes(x),
    ensures
        be32(s, at) == x,
{
    let b = s.subrange(at, at + 4);
    assert(b[0] == s[at] && b[1] == s[at + 1] && b[2] == s[at + 2] && b[3] == s[at + 3]);
}

proof fn lemma_scan_nul(s: Seq<u8>, from: int, end: int)
    requires
        0 <= from <= end < s.len(),
        forall|i: int| from <= i < end ==> #[trigger] s[i] != 0,
        s[end] == 0,
    ensures
        scan_nul(s, from) == end,
    decreases end - from,
{
    if from < end {
        lemma_scan_nul(s, from + 1, end);
    }
}

/// Where the fields of an entry lie in its bytes.
pub open spec fn laid_out(s: Seq<u8>, e: RawEntry, rest: Seq<u8>) -> bool {
    let len = e.path.len() as int;
    &&& s.len() == entry_size(len) + rest.len()
    &&& s.subrange(8, 12) == be32_bytes(e.mtime_seconds as int)
    &&& s.subrange(12, 16) == be32_bytes(e.mtime_nanos as int)
    &&& s.subrange(26, 28) == be16_bytes(e.mode as int)
    &&& s.subrange(36, 40) == be32_bytes(e.size as int)
    &&& s.subrange(40, 60) == e.object_id
    &&& s.subrange(60, 62) == be16_bytes(e.flag_bits * 4096 + length_field(len))
    &&& s.subrange(62, 62 + len) == e.path
    &&& s[62 + len] == 0
    &&& s.skip(entry_size(len)) == rest
}

proof fn lemma_prefix_layout(e: RawEntry)
    requires
        encodable(e),
    ensures
        encode_prefix(e).len() == 62,
        encode_prefix(e).subrange(8, 12) == be32_bytes(e.mtime_seconds as int),
        encode_prefix(e).subrange(12, 16) == be32_bytes(e.mtime_nanos as int),
        encode_prefix(e).subrange(26, 28) == be16_bytes(e.mode as int),
        encode_prefix(e).subrange(36, 40) == be32_bytes(e.size as int),
        encode_prefix(e).subrange(40, 60) == e.object_id,
        encode_prefix(e).subrange(60, 62) == be16_bytes(
            e.flag_bits * 4096 + length_field(e.path.len() as int),
        ),
{
    let p1 = e.created;
    let p2 = p1 + be32_bytes(e.mtime_seconds as int);
    let p3 = p2 + be32_bytes(e.mtime_nanos as int);
    let p4 = p3 + e.device;
    let p5 = p4 + be16_bytes(e.mode as int);
    let p6 = p5 + e.owner;
    let p7 = p6 + be32_bytes(e.size as int);
    let p8 = p7 + e.object_id;
    let p9 = p8 + be16_bytes(e.flag_bits * 4096 + length_field(e.path.len() as int));
    assert(p9 == encode_prefix(e));
    assert(p2.len() == 12 && p3.len() == 16 && p4.len() == 26 && p5.len() == 28 && p6.len() == 36
        && p7.len() == 40 && p8.len() == 60 && p9.len() == 62);
    assert(p2.subrange(8, 12) =~= be32_bytes(e.mtime_seconds as int));
    assert(p3.subrange(12, 16) =~= be32_bytes(e.mtime_nanos as int));
    assert(p5.subrange(26, 28) =~= be16_bytes(e.mode as int));
    assert(p7.subrange(36, 40) =~= be32_bytes(e.size as int));
    assert(p8.subrange(40, 60) =~= e.object_id);
    assert(p9.subrange(60, 62) =~= be16_bytes(
        e.flag_bits * 4096 + length_field(e.path.len() as int),
    ));
    assert(p9.subrange(8, 12) =~= p2.subrange(8, 12));
    assert(p9.subrange(12, 16) =~= p3.subrange(12, 16));
    assert(p9.subrange(26, 28) =~= p5.subrange(26, 28));
    assert(p9.subrange(36, 40) =~= p7.subrange(36, 40));
    assert(p9.subrange(40, 60) =~= p8.subrange(40, 60));
}

proof fn lemma_entry_layout(e: RawEntry, rest: Seq<u8>)
    requires
        encodable(e),
    ensures
        laid_out(encode_entry(e) + rest, e, rest),
{
    let prefix = encode_prefix(e);
    let len = e.path.len() as int;
    let pad = padding(len);
    let s = encode_entry(e) + rest;
    lemma_prefix_layout(e);
    assert(1 <= pad <= 8);
    assert(zeros(pad).len() == pad);
    assert(s.len() == 62 + len + pad + rest.len());
    assert(s.subrange(0, 62) =~= prefix);
    assert(s.subrange(8, 12) =~= prefix.subrange(8, 12));
    assert(s.subrange(12, 16) =~= prefix.subrange(12, 16));
    assert(s.subrange(26, 28) =~= prefix.subrange(26, 28));
    assert(s.subrange(36, 40) =~= prefix.subrange(36, 40));
    assert(s.subrange(40, 60) =~= prefix.subrange(40, 60));
    assert(s.subrange(60, 62) =~= prefix.subrange(60, 62));
    assert(s.subrange(62, 62 + len) =~= e.path);
    assert(s[62 + len] == zeros(pad)[0]);
    assert(s.skip(entry_size(len)) =~= rest);
}

proof fn lemma_parse_laid_out(s: Seq<u8>, e: RawEntry, rest: Seq<u8>)
    requires
        encodable(e),
        laid_out(s, e, rest),
    ensures
        parse_entry(s) == Ok::<ParsedEntry, IndexFault>(decoded(e)),
{
    let len = e.path.len() as int;
    let flags = e.flag_bits * 4096 + length_field(len);
    assert(1 <= padding(len) <= 8);
    lemma_be32_of_bytes(s, 8, e.mtime_seconds as int);
    lemma_be32_of_bytes(s, 12, e.mtime_nanos as int);
    lemma_be16_of_bytes(s, 26, e.mode as int);
    lemma_be32_of_bytes(s, 36, e.size as int);
    lemma_be16_of_bytes(s, 60, flags);
    assert(flags % 4096 == length_field(len));
    assert forall|i: int| 62 <= i < 62 + len implies #[trigger] s[i] != 0 by {
        assert(s[i] == s.subrange(62, 62 + len)[i - 62]);
    }
    lemma_scan_nul(s, 62, 62 + len);
    assert(name_length(s) == len);
}

/// Decoding the bytes of an entry, whatever follows them, gives the entry back:
/// its mode, its time to the nanosecond, its size, its object id, and its path
/// as a directory and a name. What follows the entry is left over.
pub proof fn lemma_entry_is_reproduced(e: RawEntry, rest: Seq<u8>)
    requires
        encodable(e),
    ensures
        parse_entry(encode_entry(e) + rest) == Ok::<ParsedEntry, IndexFault>(decoded(e)),
        (encode_entry(e) + rest).skip(entry_size(e.path.len() as int)) == rest,
{
    lemma_entry_layout(e, rest);
    lemma_parse_laid_out(encode_entry(e) + rest, e, rest);
}

/// Decoding the bytes of a list of entries, whatever follows them, gives the
/// entries back, one for one and in their order.
pub proof fn lemma_entries_are_reproduced(entries: Seq<RawEntry>, rest: Seq<u8>)
    requires
        forall|i: int| 0 <= i < entries.len() ==> encodable(#[trigger] entries[i]),
    ensures
        parse_entries(encode_entries(entries) + rest, entries.len()) == Ok::<
            Seq<ParsedEntry>,
            IndexFault,
        >(decoded_entries(entries)),
    decreases entries.len(),
{
    if entries.len() == 0 {
        assert(decoded_entries(entries) =~= Seq::<ParsedEntry>::empty());
    } else {
        let first = entries[0];
        let others = entries.drop_first();
        let s = encode_entries(entries) + rest;
        assert(s =~= encode_entry(first) + (encode_entries(others) + rest));
        lemma_entry_is_reproduced(first, encode_entries(others) + rest);
        assert forall|i: int| 0 <= i < others.len() implies encodable(#[trigger] others[i]) by {
            assert(others[i] == entries[i + 1]);
        }
        lemma_entries_are_reproduced(others, rest);
        assert(seq![decoded(first)] + decoded_entries(others) =~= decoded_entries(entries));
    }
}

proof fn lemma_header_is_reproduced(version: u32, count: u32, body: Seq<u8>)
    ensures
        parse_header(
            seq![68u8, 73u8, 82u8, 67u8] + be32_bytes(version as int) + be32_bytes(count as int)
                + body,
        ) == Ok::<Header, IndexFault>(Header { version, entries: count }),
        (seq![68u8, 73u8, 82u8, 67u8] + be32_bytes(version as int) + be32_bytes(count as int)
            + body).skip(12) == body,
{
    let s = seq![68u8, 73u8, 82u8, 67u8] + be32_bytes(version as int) + be32_bytes(count as int)
        + body;
    assert(s.len() == 12 + body.len());
    assert(s.subrange(4, 8) =~= be32_bytes(version as int));
    assert(s.subrange(8, 12) =~= be32_bytes(count as int));
    lemma_be32_of_bytes(s, 4, version as int);
    lemma_be32_of_bytes(s, 8, count as int);
    assert(s[0] == 68 && s[1] == 73 && s[2] == 82 && s[3] == 67);
    assert(s.skip(12) =~= body);
}

/// Decoding the bytes of an index file of version 2 or 3, with whatever
/// extensions and checksum behind its entries, gives back every entry: its
/// mode, its time to the nanosecond, its size, its object id, and its path as a
/// directory and a name.
pub proof fn lemma_index_is_reproduced(version: u32, entries: Seq<RawEntry>, trailer: Seq<u8>)
    requires
        version == 2 || version == 3,
        entries.len() <= u32::MAX,
        forall|i: int| 0 <= i < entries.len() ==> encodable(#[trigger] entries[i]),
    ensures
        parse_index(encode_index(version, entries) + trailer) == Ok::<
            Seq<ParsedEntry>,
            IndexFault,
        >(decoded_entries(entries)),
{
    let s = encode_index(version, entries) + trailer;
    let body = encode_entries(entries) + trailer;
    lemma_header_is_reproduced(version, entries.len() as u32, body);
    assert(s =~= seq![68u8, 73u8, 82u8, 67u8] + be32_bytes(version as int) + be32_bytes(
        entries.len() as int,
    ) + body);
    lemma_entries_are_reproduced(entries, trailer);
}

/// A path is its directory, `/`, and its name; or its name alone where it has
/// no `/`.
pub proof fn lemma_path_parts(path: Seq<u8>)
    ensures
        -1 <= last_slash(path) < path.len(),
        last_slash(path) >= 0 ==> path[last_slash(path)] == 47 && path == directory_part(path)
            + seq![47u8] + leaf_part(path),
        last_slash(path) < 0 ==> path == leaf_part(path) && directory_part(path).len() == 0,
        forall|i: int| 0 <= i < leaf_part(path).len() ==> #[trigger] leaf_part(path)[i] != 47,
    decreases path.len(),
{
    if path.len() > 0 && path.last() != 47 {
        let front = path.drop_last();
        lemma_path_parts(front);
        assert(last_slash(path) == last_slash(front));
        if last_slash(path) >= 0 {
            assert(directory_part(path) =~= directory_part(front));
            assert(leaf_part(path) =~= leaf_part(front).push(path.last()));
            assert(path =~= directory_part(path) + seq![47u8] + leaf_part(path));
        } else {
            assert(leaf_part(path) =~= path);
        }
        assert forall|i: int| 0 <= i < leaf_part(path).len() implies #[trigger] leaf_part(
            path,
        )[i] != 47 by {
            if i < leaf_part(front).len() {
                assert(leaf_part(path)[i] == leaf_part(front)[i]);
            }
        }
    } else if path.len() > 0 {
        assert(path =~= directory_part(path) + seq![47u8] + leaf_part(path));
    } else {
        assert(leaf_part(path) =~= path);
    }
}

/// The directory and the name of a path that is UTF-8 are UTF-8.
pub proof fn lemma_parts_of_utf8_path(path: Seq<u8>)
    requires
        valid_utf8(path),
    ensures
        valid_utf8(directory_part(path)),
        valid_utf8(leaf_part(path)),
{
    lemma_path_parts(path);
    let cut = last_slash(path);
    if cut < 0 {
        assert(directory_part(path) =~= Seq::<u8>::empty());
    } else {
        is_char_boundary_iff_not_is_continuation_byte(path, cut);
        valid_utf8_split(path, cut);
        let tail = path.subrange(cut, path.len() as int);
        assert(directory_part(path) =~= path.subrange(0, cut));
        assert(tail[0] == 47);
        assert(leaf_part(path) =~= pop_first_scalar(tail));
    }
}

/// The directory and the name that the decoder makes of a path spell the path.
pub proof fn lemma_path_is_reproduced(e: RawEntry)
    requires
        encodable(e),
    ensures
        encode_utf8(decoded(e).directory) == directory_part(e.path),
        encode_utf8(decoded(e).entry.name) == leaf_part(e.path),
        last_slash(e.path) >= 0 ==> e.path == encode_utf8(decoded(e).directory) + seq![47u8]
            + encode_utf8(decoded(e).entry.name),
        last_slash(e.path) < 0 ==> e.path == encode_utf8(decoded(e).entry.name) && decoded(
            e,
        ).directory.len() == 0,
{
    lemma_path_parts(e.path);
    decode_utf8_encode_utf8(directory_part(e.path));
    decode_utf8_encode_utf8(leaf_part(e.path));
    if last_slash(e.path) < 0 {
        assert(directory_part(e.path) =~= Seq::<u8>::empty());
        assert(decode_utf8(directory_part(e.path)) =~= Seq::<char>::empty());
    }
}

} // verus!
