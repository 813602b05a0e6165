use vstd::prelude::*;
use vstd::string::*;
use vstd::utf8::*;

verus! {

/// How one name stands to another in the byte-wise order.
#[derive(PartialEq, Eq, Debug, Clone, Copy)]
pub enum NameOrder {
    Less,
    Equal,
    Greater,
}

/// Byte-wise comparison of `a` and `b`, looking only at positions `i` and later.
pub open spec fn order_from(a: Seq<u8>, b: Seq<u8>, i: int) -> NameOrder
    decreases a.len() - i,
{
    if i >= a.len() {
        if i >= b.len() {
            NameOrder::Equal
        } else {
            NameOrder::Less
        }
    } else if i >= b.len() {
        NameOrder::Greater
    } else if a[i] < b[i] {
        NameOrder::Less
    } else if a[i] > b[i] {
        NameOrder::Greater
    } else {
        order_from(a, b, i + 1)
    }
}

/// Lexicographic order on byte strings: the first differing byte decides, and a
/// proper prefix comes before every extension of it.
pub open spec fn byte_order(a: Seq<u8>, b: Seq<u8>) -> NameOrder {
    order_from(a, b, 0)
}

/// The order of two names: that of their UTF-8 encodings.
pub open spec fn name_order(a: Seq<char>, b: Seq<char>) -> NameOrder {
    byte_order(encode_utf8(a), encode_utf8(b))
}

/// `a` does not come after `b`.
pub open spec fn name_le(a: Seq<char>, b: Seq<char>) -> bool {
    name_order(a, b) != NameOrder::Greater
}

/// `a` comes strictly before `b`.
pub open spec fn name_lt(a: Seq<char>, b: Seq<char>) -> bool {
    name_order(a, b) == NameOrder::Less
}

/// The outcome of the comparison with its two sides swapped.
pub open spec fn flipped(o: NameOrder) -> NameOrder {
    match o {
        NameOrder::Less => NameOrder::Greater,
        NameOrder::Equal => NameOrder::Equal,
        NameOrder::Greater => NameOrder::Less,
    }
}

proof fn lemma_order_from_equal(a: Seq<u8>, b: Seq<u8>, i: int)
    requires
        0 <= i,
    ensures
        order_from(a, b, i) == NameOrder::Equal <==> (a.len() <= i && b.len() <= i) || (a.len()
            == b.len() && forall|j: int| i <= j < a.len() ==> a[j] == b[j]),
    decreases a.len() - i,
{
    if i < a.len() && i < b.len() && a[i] == b[i] {
        lemma_order_from_equal(a, b, i + 1);
    }
}

proof fn lemma_order_from_flip(a: Seq<u8>, b: Seq<u8>, i: int)
    requires
        0 <= i,
    ensures
        order_from(b, a, i) == flipped(order_from(a, b, i)),
    decreases a.len() - i,
{
    if i < a.len() && i < b.len() && a[i] == b[i] {
        lemma_order_from_flip(a, b, i + 1);
    }
}

proof fn lemma_order_from_trans(a: Seq<u8>, b: Seq<u8>, c: Seq<u8>, i: int)
    requires
        0 <= i,
        order_from(a, b, i) != NameOrder::Greater,
        order_from(b, c, i) != NameOrder::Greater,
    ensures
        order_from(a, c, i) != NameOrder::Greater,
        order_from(a, b, i) == NameOrder::Less || order_from(b, c, i) == NameOrder::Less
            ==> order_from(a, c, i) == NameOrder::Less,
    decreases a.len() - i,
{
    if i < a.len() && i < b.len() && i < c.len() && a[i] == b[i] && b[i] == c[i] {
        lemma_order_from_trans(a, b, c, i + 1);
    }
}

/// Two byte strings compare equal exactly when they are the same string.
pub proof fn lemma_byte_order_equal(a: Seq<u8>, b: Seq<u8>)
    ensures
        byte_order(a, b) == NameOrder::Equal <==> a == b,
{
    lemma_order_from_equal(a, b, 0);
    if byte_order(a, b) == NameOrder::Equal {
        assert(a =~= b);
    }
}

/// Swapping the two sides of a comparison mirrors its outcome.
pub proof fn lemma_byte_order_flip(a: Seq<u8>, b: Seq<u8>)
    ensures
        byte_order(b, a) == flipped(byte_order(a, b)),
{
    lemma_order_from_flip(a, b, 0);
}

/// The byte-wise order is transitive, and strict as soon as one step is strict.
pub proof fn lemma_byte_order_trans(a: Seq<u8>, b: Seq<u8>, c: Seq<u8>)
    requires
        byte_order(a, b) != NameOrder::Greater,
        byte_order(b, c) != NameOrder::Greater,
    ensures
        byte_order(a, c) != NameOrder::Greater,
        byte_order(a, b) == NameOrder::Less || byte_order(b, c) == NameOrder::Less ==> byte_order(
            a,
            c,
        ) == NameOrder::Less,
{
    lemma_order_from_trans(a, b, c, 0);
}

/// Two names compare equal exactly when they are the same name.
pub proof fn lemma_name_order_equal(a: Seq<char>, b: Seq<char>)
    ensures
        name_order(a, b) == NameOrder::Equal <==> a == b,
{
    lemma_byte_order_equal(encode_utf8(a), encode_utf8(b));
    encode_utf8_decode_utf8(a);
    encode_utf8_decode_utf8(b);
}

/// Swapping the two names mirrors the outcome.
pub proof fn lemma_name_order_flip(a: Seq<char>, b: Seq<char>)
    ensures
        name_order(b, a) == flipped(name_order(a, b)),
{
    lemma_byte_order_flip(encode_utf8(a), encode_utf8(b));
}

/// The order on names is transitive, and strict as soon as one step is strict.
pub proof fn lemma_name_order_trans(a: Seq<char>, b: Seq<char>, c: Seq<char>)
    requires
        name_le(a, b),
        name_le(b, c),
    ensures
        name_le(a, c),
        name_lt(a, b) || name_lt(b, c) ==> name_lt(a, c),
{
    lemma_byte_order_trans(encode_utf8(a), encode_utf8(b), encode_utf8(c));
}

/// Compares two byte strings as `memcmp` followed by a length comparison would.
pub fn compare_bytes(a: &[u8], b: &[u8]) -> (r: NameOrder)
    ensures
        r == byte_order(a@, b@),
{
    let mut i: usize = 0;
    while i < a.len() && i < b.len()
        invariant
            i <= a.len(),
            i <= b.len(),
            byte_order(a@, b@) == order_from(a@, b@, i as int),
        decreases a.len() - i,
    {
        if a[i] < b[i] {
            return NameOrder::Less;
        } else if a[i] > b[i] {
            return NameOrder::Greater;
        }
        i += 1;
    }
    if i < b.len() {
        NameOrder::Less
    } else if i < a.len() {
        NameOrder::Greater
    } else {
        NameOrder::Equal
    }
}

/// Compares two names by the bytes of their UTF-8 encoding.
pub fn compare_names(a: &str, b: &str) -> (r: NameOrder)
    ensures
        r == name_order(a@, b@),
{
    compare_bytes(a.as_bytes(), b.as_bytes())
}

/// Whether two names are the same.
pub fn same_name(a: &str, b: &str) -> (r: bool)
    ensures
        r == (a@ == b@),
{
    proof {
        lemma_name_order_equal(a@, b@);
    }
    match compare_names(a, b) {
        NameOrder::Equal => true,
        _ => false,
    }
}

/// The path of `name` inside the directory `dir`: the two joined by `/`, or the
/// name alone in the root directory `""`.
pub open spec fn joined(dir: Seq<char>, name: Seq<char>) -> Seq<char> {
    if dir.len() == 0 {
        name
    } else {
        dir + seq!['/'] + name
    }
}

/// A directory's path as it is reported: with `/` behind it.
pub open spec fn with_slash(path: Seq<char>) -> Seq<char> {
    path + seq!['/']
}

/// Joins a directory's path and a name with `/`.
pub fn join_path(dir: &str, name: &str) -> (r: String)
    ensures
        r@ == joined(dir@, name@),
{
    if dir.is_empty() {
        return String::from_str(name);
    }
    proof {
        reveal_strlit("/");
        assert("/"@ =~= seq!['/']);
    }
    let mut path = String::from_str(dir);
    path.append("/");
    path.append(name);
    path
}

/// Puts `/` behind a directory's path.
pub fn append_slash(path: String) -> (r: String)
    ensures
        r@ == with_slash(path@),
{
    proof {
        reveal_strlit("/");
        assert("/"@ =~= seq!['/']);
    }
    let mut path = path;
    path.append("/");
    path
}

/// A path with every `\` turned into `/`.
pub open spec fn unix_separators(path: Seq<char>) -> Seq<char> {
    Seq::new(
        path.len(),
        |i: int|
            if path[i] == '\\' {
                '/'
            } else {
                path[i]
            },
    )
}

/// Turns every `\\` of a path into `/`.
pub fn to_unix_separators(path: &str) -> (r: String)
    ensures
        r@ == unix_separators(path@),
{
    let len = path.unicode_len();
    let mut out = String::new();
    let mut i: usize = 0;
    proof {
        reveal_strlit("/");
        assert("/"@ =~= seq!['/']);
    }
    while i < len
        invariant
            i <= len,
            len == path@.len(),
            "/"@ == seq!['/'],
            out@ == unix_separators(path@).take(i as int),
        decreases len - i,
    {
        if path.get_char(i) == '\\' {
            out.append("/");
        } else {
            out.append(path.substring_char(i, i + 1));
        }
        proof {
            assert(out@ =~= unix_separators(path@).take(i + 1));
        }
        i += 1;
    }
    proof {
        assert(unix_separators(path@).take(len as int) =~= unix_separators(path@));
    }
    out
}

/// The path that leads from the directory `base` to `path`, as the crate
/// `pathdiff` works it out from the components of the two; none where there is
/// no such path.
pub uninterp spec fn path_difference(path: Seq<char>, base: Seq<char>) -> Option<Seq<char>>;

/// Calls `pathdiff::diff_paths`, which compares the components of the two paths
/// and reads nothing from disk, and hands the result back as text. The result
/// is taken to depend on the two paths alone.
#[verifier::external_body]
fn diff_paths(path: &str, base: &str) -> (r: Option<String>)
    ensures
        match r {
            Some(relative) => path_difference(path@, base@) == Some(relative@),
            None => path_difference(path@, base@) is None,
        },
{
    match pathdiff::diff_paths(path, base) {
        Some(relative) => match relative.to_str() {
            Some(text) => Some(text.to_string()),
            None => None,
        },
        None => None,
    }
}

/// The path of a directory relative to a base directory, with `/` between its
/// components whatever the platform puts there; none where the one cannot be
/// reached from the other.
pub fn relative_path(path: &str, base: &str) -> (r: Option<String>)
    ensures
        match r {
            Some(relative) => path_difference(path@, base@) matches Some(difference)
                && relative@ == unix_separators(difference),
            None => path_difference(path@, base@) is None,
        },
        r matches Some(relative) ==> forall|i: int|
            0 <= i < relative@.len() ==> relative@[i] != '\\',
{
    match diff_paths(path, base) {
        Some(relative) => Some(to_unix_separators(relative.as_str())),
        None => None,
    }
}

} // verus!
