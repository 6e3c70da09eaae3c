//! Text utilities: binary detection, the UTF-8 gate, byte substring search,
//! snippet extraction over a file's lines, and path canonicalization.

use vstd::prelude::*;
use vstd::string::StringSliceAdditionalSpecFns;
use vstd::string::StringExecFns;
use crate::model::Snippet;
use crate::trigram::{collect_trigrams_bytes, is_substring_of, trigram_set, tris_as_set,
    tris_sorted};

verus! {

/// How many leading bytes are inspected for the binary test.
pub const BINARY_SNIFF_LEN: usize = 1024;

/// A content is treated as binary when a zero byte stands among its first
/// 1024 bytes.
pub open spec fn is_binary(b: Seq<u8>) -> bool {
    exists|i: int| 0 <= i < b.len() && i < 1024 && b[i] == 0u8
}

/// Decide whether `bytes` is binary: a zero byte in the first 1024 bytes.
/// Empty contents are text.
pub fn is_binary_prefix(bytes: &[u8]) -> (r: bool)
    ensures
        r == is_binary(bytes@),
{
    let mut i: usize = 0;
    let n = if bytes.len() < BINARY_SNIFF_LEN {
        bytes.len()
    } else {
        BINARY_SNIFF_LEN
    };
    while i < n
        invariant
            0 <= i <= n <= bytes@.len(),
            n == if bytes@.len() < 1024 {
                bytes@.len() as int
            } else {
                1024int
            },
            forall|j: int| 0 <= j < i ==> bytes@[j] != 0u8,
        decreases n - i,
    {
        if bytes[i] == 0 {
            return true;
        }
        i += 1;
    }
    false
}

/// Relies on core::str::from_utf8: it returns `Ok` exactly when the bytes
/// are valid UTF-8.
#[verifier::external_body]
fn utf8_valid(bytes: &[u8]) -> (r: bool)
    ensures
        r == vstd::utf8::valid_utf8(bytes@),
{
    core::str::from_utf8(bytes).is_ok()
}

/// A content is indexable when it is not binary and decodes as UTF-8.
pub open spec fn is_indexable(b: Seq<u8>) -> bool {
    !is_binary(b) && vstd::utf8::valid_utf8(b)
}

/// The trigrams to index for a file's raw bytes, or `None` when the file is
/// skipped: binary contents (a zero byte in the first 1024 bytes) and
/// contents that are not valid UTF-8 yield no content. Texts shorter than
/// 3 bytes yield the empty trigram set and are still indexed.
pub fn content_trigrams(bytes: &[u8]) -> (r: Option<Vec<[u8; 3]>>)
    ensures
        r is Some <==> is_indexable(bytes@),
        r is Some ==> tris_sorted(r.unwrap()@) && tris_as_set(r.unwrap()@) == trigram_set(bytes@),
        r is Some ==> r.unwrap()@.len() <= bytes@.len(),
        r is Some && bytes@.len() < 3 ==> r.unwrap()@.len() == 0,
{
    if is_binary_prefix(bytes) {
        return None;
    }
    if !utf8_valid(bytes) {
        return None;
    }
    Some(collect_trigrams_bytes(bytes))
}

/// Decide whether `needle` occurs as a contiguous subsequence of `hay`
/// starting at `at`.
fn matches_at(hay: &[u8], needle: &[u8], at: usize) -> (r: bool)
    requires
        at + needle@.len() <= hay@.len(),
    ensures
        r == (hay@.subrange(at as int, at + needle@.len()) =~= needle@),
{
    let hn = hay.len();
    let mut j: usize = 0;
    while j < needle.len()
        invariant
            0 <= j <= needle@.len(),
            at + needle@.len() <= hay@.len(),
            hn == hay@.len(),
            forall|k: int| 0 <= k < j ==> hay@[at + k] == needle@[k],
        decreases needle@.len() - j,
    {
        if hay[at + j] != needle[j] {
            proof {
                assert(hay@.subrange(at as int, at + needle@.len())[j as int] != needle@[j as int]);
            }
            return false;
        }
        j += 1;
    }
    proof {
        assert(hay@.subrange(at as int, at + needle@.len()) =~= needle@);
    }
    true
}

/// Decide whether `needle` occurs as a contiguous byte substring of `hay`.
/// The empty needle always occurs.
pub fn contains_bytes(hay: &[u8], needle: &[u8]) -> (r: bool)
    ensures
        r == is_substring_of(needle@, hay@),
{
    if needle.len() == 0 {
        proof {
            assert(hay@.subrange(0, 0 + needle@.len() as int) =~= needle@);
        }
        return true;
    }
    if needle.len() > hay.len() {
        proof {
            assert(!is_substring_of(needle@, hay@));
        }
        return false;
    }
    let mut i: usize = 0;
    let last = hay.len() - needle.len();
    while i <= last
        invariant
            0 <= i <= last + 1,
            1 <= needle@.len(),
            last < usize::MAX,
            last == hay@.len() - needle@.len(),
            forall|k: int|
                0 <= k < i ==> !(#[trigger] hay@.subrange(k, k + needle@.len()) =~= needle@),
        decreases last + 1 - i,
    {
        if matches_at(hay, needle, i) {
            proof {
                assert(hay@.subrange(i as int, i + needle@.len()) == needle@);
            }
            return true;
        }
        i += 1;
    }
    proof {
        assert forall|k: int|
            0 <= k && k + needle@.len() <= hay@.len() implies !(#[trigger] hay@.subrange(
            k,
            k + needle@.len(),
        ) == needle@) by {
            assert(!(hay@.subrange(k, k + needle@.len()) =~= needle@));
        }
    }
    false
}

/// Decide whether `needle` occurs as a contiguous byte substring of `hay`.
/// Both strings are compared by their UTF-8 bytes; for valid UTF-8 inputs
/// this agrees with character-level substring containment.
pub fn contains_str(hay: &str, needle: &str) -> (r: bool)
    ensures
        r == is_substring_of(needle.spec_bytes(), hay.spec_bytes()),
{
    contains_bytes(hay.as_bytes(), needle.as_bytes())
}

/// The byte sequence of a string value.
pub open spec fn str_bytes(s: Seq<char>) -> Seq<u8> {
    vstd::utf8::encode_utf8(s)
}

/// There is a line containing `q` among `lines`, all before `m` do not.
pub open spec fn first_match_is(lines: Seq<Seq<char>>, q: Seq<u8>, m: int) -> bool {
    &&& 0 <= m < lines.len()
    &&& is_substring_of(q, str_bytes(lines[m]))
    &&& forall|j: int| 0 <= j < m ==> !is_substring_of(q, str_bytes(#[trigger] lines[j]))
}

/// The start of the snippet window around a match at `m`: two lines of
/// context above, clipped at the top of the file.
pub open spec fn window_start(m: int) -> int {
    if m >= 2 {
        m - 2
    } else {
        0
    }
}

/// The end (exclusive) of the snippet window around a match at `m`: two
/// lines of context below, clipped at the end of the file.
pub open spec fn window_end(m: int, len: int) -> int {
    if m + 3 <= len {
        m + 3
    } else {
        len
    }
}

/// Extract the snippet for the first line of `lines` that contains `query`
/// as a byte substring: the up to two preceding lines, the matching line,
/// and the up to two following lines, each tagged with its 1-based line
/// number. Returns `None` when no line matches.
pub fn snippet_from_lines(path: &str, lines: &Vec<String>, query: &str) -> (r: Option<Snippet>)
    requires
        lines@.len() < usize::MAX - 3,
    ensures
        match r {
            Option::None => forall|j: int|
                0 <= j < lines@.len() ==> !is_substring_of(
                    query.spec_bytes(),
                    str_bytes(#[trigger] lines@[j]@),
                ),
            Option::Some(s) => {
                let m = s.line_number - 1;
                &&& s.path@ == path@
                &&& 1 <= s.line_number <= lines@.len()
                &&& first_match_is(lines@.map_values(|l: String| l@), query.spec_bytes(), m as int)
                &&& s.lines@.len() == window_end(m as int, lines@.len() as int) - window_start(
                    m as int,
                )
                &&& forall|k: int|
                    0 <= k < s.lines@.len() ==> {
                        let src = window_start(m as int) + k;
                        (#[trigger] s.lines@[k]).0 == src + 1 && s.lines@[k].1@ == lines@[src]@
                    }
            },
        },
{
    let n = lines.len();
    let mut m: usize = 0;
    let mut found = false;
    while m < n && !found
        invariant
            0 <= m <= n == lines@.len(),
            n < usize::MAX - 3,
            !found ==> forall|j: int|
                0 <= j < m ==> !is_substring_of(
                    query.spec_bytes(),
                    str_bytes(#[trigger] lines@[j]@),
                ),
            found ==> m < n && is_substring_of(query.spec_bytes(), str_bytes(lines@[m as int]@))
                && forall|j: int|
                0 <= j < m ==> !is_substring_of(
                    query.spec_bytes(),
                    str_bytes(#[trigger] lines@[j]@),
                ),
        decreases n - m, (if found { 0int } else { 1int }),
    {
        if contains_str(lines[m].as_str(), query) {
            found = true;
        } else {
            m += 1;
        }
    }
    if !found {
        return None;
    }
    let start: usize = if m >= 2 {
        m - 2
    } else {
        0
    };
    let end: usize = if m + 3 <= n {
        m + 3
    } else {
        n
    };
    let mut collected: Vec<(usize, String)> = Vec::new();
    let mut k: usize = start;
    while k < end
        invariant
            start <= k <= end <= n == lines@.len(),
            n < usize::MAX - 3,
            collected@.len() == k - start,
            forall|t: int|
                0 <= t < collected@.len() ==> (#[trigger] collected@[t]).0 == start + t + 1
                    && collected@[t].1@ == lines@[start + t]@,
        decreases end - k,
    {
        collected.push((k + 1, lines[k].clone()));
        k += 1;
    }
    proof {
        assert(first_match_is(lines@.map_values(|l: String| l@), query.spec_bytes(), m as int));
    }
    Some(
        Snippet {
            path: path.to_owned(),
            line_number: m + 1,
            lines: collected,
        },
    )
}

/// Relies on str's equality: two string slices are equal exactly when
/// their character sequences are.
#[verifier::external_body]
pub(crate) fn str_eq(a: &str, b: &str) -> (r: bool)
    ensures
        r == (a@ == b@),
{
    a == b
}

/// Relies on std::path::Path::canonicalize: resolves to an absolute path
/// with symlinks collapsed; fails when the target does not exist. An
/// absolute path is never empty.
#[verifier::external_body]
fn fs_canonicalize(path: &str) -> (r: Option<String>)
    ensures
        r is Some ==> r.unwrap()@.len() > 0,
{
    std::path::Path::new(path).canonicalize().ok().map(|p| p.to_string_lossy().into_owned())
}

/// Relies on String::from_utf8: succeeds exactly on valid UTF-8 and decodes
/// the bytes it was given.
#[verifier::external_body]
pub(crate) fn string_from_utf8(bytes: Vec<u8>) -> (r: Option<String>)
    ensures
        r is Some <==> vstd::utf8::valid_utf8(bytes@),
        r is Some ==> str_bytes(r.unwrap()@) == bytes@,
{
    String::from_utf8(bytes).ok()
}

/// The index of the last path separator in `b`, if any.
fn last_slash(b: &[u8]) -> (r: Option<usize>)
    ensures
        match r {
            Option::Some(i) => i < b@.len() && b@[i as int] == 47u8 && forall|j: int|
                i < j < b@.len() ==> b@[j] != 47u8,
            Option::None => forall|j: int| 0 <= j < b@.len() ==> b@[j] != 47u8,
        },
{
    let mut i = b.len();
    while i > 0
        invariant
            0 <= i <= b@.len(),
            forall|j: int| i <= j < b@.len() ==> b@[j] != 47u8,
        decreases i,
    {
        i -= 1;
        if b[i] == 47 {
            return Some(i);
        }
    }
    None
}

/// Copy `b[from..to]` into a fresh vector.
fn copy_range(b: &[u8], from: usize, to: usize) -> (r: Vec<u8>)
    requires
        from <= to <= b@.len(),
    ensures
        r@ == b@.subrange(from as int, to as int),
{
    let mut out: Vec<u8> = Vec::new();
    let mut k = from;
    while k < to
        invariant
            from <= k <= to <= b@.len(),
            out@.len() == k - from,
            forall|t: int| 0 <= t < out@.len() ==> out@[t] == b@[from + t],
        decreases to - k,
    {
        out.push(b[k]);
        k += 1;
    }
    proof {
        assert(out@ =~= b@.subrange(from as int, to as int));
    }
    out
}

/// There is a path separator somewhere in `p`.
pub open spec fn has_sep(p: Seq<u8>) -> bool {
    exists|i: int| 0 <= i < p.len() && p[i] == 47u8
}

/// The position of the last path separator of `p` (meaningful only when
/// one exists).
pub open spec fn last_sep(p: Seq<u8>) -> int {
    choose|i: int|
        0 <= i < p.len() && p[i] == 47u8 && (forall|j: int| i < j < p.len() ==> p[j] != 47u8)
}

/// A found last-separator position is the `last_sep` of the bytes.
proof fn lemma_last_sep_is(p: Seq<u8>, i: int)
    requires
        0 <= i < p.len(),
        p[i] == 47u8,
        forall|j: int| i < j < p.len() ==> p[j] != 47u8,
    ensures
        last_sep(p) == i,
        has_sep(p),
{
    let c = choose|c: int|
        0 <= c < p.len() && p[c] == 47u8 && (forall|j: int| c < j < p.len() ==> p[j] != 47u8);
    if c < i {
        assert(p[i] != 47u8);
    }
    if c > i {
        assert(p[c] != 47u8);
    }
}

/// The parent directory of a path, as the string handed to the
/// filesystem: the bytes before the last separator, or the root when the
/// separator comes first. A path without a separator has no parent here.
pub fn parent_of(path: &str) -> (r: Option<String>)
    ensures
        r is Some <==> has_sep(path.spec_bytes()),
        (r matches Option::Some(par) ==> ({
            let p = path.spec_bytes();
            if last_sep(p) == 0 {
                par@ == seq!['/']
            } else {
                str_bytes(par@) == p.subrange(0, last_sep(p))
            }
        })),
{
    let b = path.as_bytes();
    match last_slash(b) {
        Option::None => {
            proof {
                if has_sep(path.spec_bytes()) {
                    let i = choose|i: int|
                        0 <= i < b@.len() && b@[i] == 47u8;
                    assert(false);
                }
            }
            None
        },
        Option::Some(i) => {
            proof {
                lemma_last_sep_is(b@, i as int);
            }
            if i == 0 {
                let root = String::from_str("/");
                proof {
                    reveal_strlit("/");
                    assert(root@ =~= seq!['/']);
                }
                Some(root)
            } else {
                let parent = copy_range(b, 0, i);
                proof {
                    vstd::utf8::encode_utf8_valid_utf8(path@);
                    assert(!vstd::utf8::is_continuation_byte(b@[i as int]));
                    vstd::utf8::is_char_boundary_iff_not_is_continuation_byte(b@, i as int);
                    vstd::utf8::valid_utf8_split(b@, i as int);
                }
                match string_from_utf8(parent) {
                    Option::Some(ps) => Some(ps),
                    Option::None => {
                        proof {
                            assert(false);
                        }
                        None
                    },
                }
            }
        },
    }
}

/// The canonicalization decision, over the outside results: the target's
/// own canonical form when one came back; else, when the path has a
/// parent whose canonical form came back, that form with the original
/// file name appended; else the input as given.
pub fn resolve_path(path: &str, canon_self: Option<String>, canon_parent: Option<String>) -> (r:
    String)
    ensures
        (match canon_self {
            Option::Some(c) => r@ == c@,
            Option::None => (match canon_parent {
                Option::Some(cp) => if has_sep(path.spec_bytes()) {
                    str_bytes(r@) == str_bytes(cp@) + path.spec_bytes().skip(
                        last_sep(path.spec_bytes()),
                    )
                } else {
                    r@ == path@
                },
                Option::None => r@ == path@,
            }),
        }),
{
    match canon_self {
        Option::Some(c) => c,
        Option::None => match canon_parent {
            Option::Some(cp) => {
                let p = path.as_bytes();
                match last_slash(p) {
                    Option::None => {
                        proof {
                            if has_sep(path.spec_bytes()) {
                                let i = choose|i: int|
                                    0 <= i < p@.len() && p@[i] == 47u8;
                                assert(false);
                            }
                        }
                        path.to_owned()
                    },
                    Option::Some(i) => {
                        proof {
                            lemma_last_sep_is(p@, i as int);
                        }
                        let mut out = cp.as_str().as_bytes_vec();
                        let ghost cpb = str_bytes(cp@);
                        let pn = p.len();
                        let mut k: usize = i;
                        while k < pn
                            invariant
                                i <= k <= pn == p@.len(),
                                p@ == path.spec_bytes(),
                                out@ == cpb + p@.subrange(i as int, k as int),
                            decreases pn - k,
                        {
                            out.push(p[k]);
                            proof {
                                assert(out@ =~= cpb + p@.subrange(i as int, k + 1int));
                            }
                            k += 1;
                        }
                        proof {
                            assert(p@.subrange(i as int, pn as int) =~= p@.skip(i as int));
                            vstd::utf8::encode_utf8_valid_utf8(path@);
                            vstd::utf8::encode_utf8_valid_utf8(cp@);
                            assert(!vstd::utf8::is_continuation_byte(p@[i as int]));
                            vstd::utf8::is_char_boundary_iff_not_is_continuation_byte(
                                p@,
                                i as int,
                            );
                            vstd::utf8::valid_utf8_split(p@, i as int);
                            assert(vstd::utf8::valid_utf8(p@.skip(i as int))) by {
                                assert(p@.skip(i as int) =~= p@.subrange(
                                    i as int,
                                    p@.len() as int,
                                ));
                            }
                            vstd::utf8::valid_utf8_concat(cpb, p@.skip(i as int));
                            assert(vstd::utf8::valid_utf8(out@));
                        }
                        match string_from_utf8(out) {
                            Option::Some(joined) => joined,
                            Option::None => {
                                proof {
                                    assert(false);
                                }
                                path.to_owned()
                            },
                        }
                    },
                }
            },
            Option::None => path.to_owned(),
        },
    }
}

/// Canonicalize a path for use as the database key.
///
/// Resolve the path to an absolute, symlink-free form. When the target
/// does not exist (a deletion), canonicalize its parent directory and
/// append the original file name; when even the parent is absent, fall
/// back to the input as given, so an empty result can only be the empty
/// input echoed back. The decision over the two outside results is
/// `resolve_path`, whose contract pins it.
pub fn normalize_path(path: &str) -> (r: String)
    ensures
        r@.len() == 0 ==> r@ == path@,
{
    let canon_self = fs_canonicalize(path);
    let canon_parent = if canon_self.is_some() {
        None
    } else {
        match parent_of(path) {
            Option::Some(par) => fs_canonicalize(par.as_str()),
            Option::None => None,
        }
    };
    let r = resolve_path(path, canon_self, canon_parent);
    proof {
        if r@.len() == 0 {
            assert(str_bytes(r@) =~= Seq::<u8>::empty());
            if has_sep(path.spec_bytes()) {
                assert(path.spec_bytes().skip(last_sep(path.spec_bytes())).len() >= 1);
            }
        }
    }
    r
}

} // verus!
