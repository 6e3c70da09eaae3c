//! The read-only search path: query trigram extraction, posting
//! intersection, path resolution and the optional path-regex filter.

use vstd::prelude::*;
use vstd::string::StringSliceAdditionalSpecFns;
use crate::index::{content_inv, PersistentIndex};
use crate::model::{IndexError, SearchHit};
use crate::store::{Store, StoreModel};
use crate::trigram::{collect_trigrams_bytes, is_substring_of, lemma_substring_trigrams,
    trigram_set, tris_as_set};

verus! {

/// Declares the compiled regular expression type.
#[verifier::external_type_specification]
#[verifier::external_body]
pub struct ExRegex(regex::Regex);

/// What the regex engine decides for a pattern and a text: a function of
/// the two strings alone.
pub uninterp spec fn regex_match(pat: Seq<char>, text: Seq<char>) -> bool;

/// A compiled path filter, carrying the pattern it was compiled from.
pub struct PathFilter {
    pattern: String,
    re: regex::Regex,
}

impl PathFilter {
    /// The pattern this filter was compiled from.
    pub closed spec fn pattern(&self) -> Seq<char> {
        self.pattern@
    }

    /// Relies on regex::Regex::new: compiles the pattern, failing exactly
    /// on invalid patterns; the error text is handed back.
    #[verifier::external_body]
    pub fn new(pattern: &str) -> (r: Result<PathFilter, String>)
        ensures
            r is Ok ==> r.unwrap().pattern() == pattern@,
    {
        match regex::Regex::new(pattern) {
            Ok(re) => Ok(PathFilter { pattern: pattern.to_owned(), re }),
            Err(e) => Err(e.to_string()),
        }
    }

    /// Relies on regex::Regex::is_match: whether the pattern matches
    /// somewhere in the text, a function of pattern and text alone.
    #[verifier::external_body]
    pub fn is_match(&self, text: &str) -> (r: bool)
        ensures
            r == regex_match(self.pattern(), text@),
    {
        self.re.is_match(text)
    }
}

/// The ids whose files contain every trigram of the query, per the
/// inverted postings.
pub open spec fn query_ids(m: StoreModel, q: Seq<u8>) -> Set<u32> {
    Set::new(
        |id: u32|
            forall|t: Seq<u8>|
                #[trigger] trigram_set(q).contains(t) ==> m.postings.contains_key(t)
                    && m.postings[t].contains(id),
    )
}

/// What a content search returns: nothing for queries shorter than 3
/// bytes, else the ids holding every query trigram.
pub open spec fn search_ids(m: StoreModel, q: Seq<u8>) -> Set<u32> {
    if q.len() < 3 {
        Set::empty()
    } else {
        query_ids(m, q)
    }
}

/// Whether a hit list is exactly the search result for `q` on `m`,
/// optionally filtered by a path pattern: each hit carries an id from
/// `search_ids` and its stored path, every id of `search_ids` whose path
/// passes the filter appears exactly once, and dropped ids failed the
/// filter.
pub open spec fn hits_match(
    m: StoreModel,
    q: Seq<u8>,
    pat: Option<Seq<char>>,
    hits: Seq<SearchHit>,
) -> bool {
    &&& forall|k: int|
        0 <= k < hits.len() ==> {
            let h = #[trigger] hits[k];
            &&& search_ids(m, q).contains(h.file_id)
            &&& m.files.contains_key(h.file_id)
            &&& h.path@ == m.files[h.file_id].0
            &&& (pat matches Option::Some(p) ==> regex_match(p, h.path@))
        }
    &&& forall|id: u32|
        search_ids(m, q).contains(id) && (match pat {
            Option::Some(p) => m.files.contains_key(id) && regex_match(p, m.files[id].0),
            Option::None => true,
        }) ==> exists|k: int| 0 <= k < hits.len() && (#[trigger] hits[k]).file_id == id
    &&& forall|k1: int, k2: int|
        0 <= k1 < hits.len() && 0 <= k2 < hits.len() && (#[trigger] hits[k1]).file_id == (
        #[trigger] hits[k2]).file_id ==> k1 == k2
}

/// Is `x` among the ids of `v`?
fn contains_u32(v: &Vec<u32>, x: u32) -> (r: bool)
    ensures
        r == v@.to_set().contains(x),
{
    let mut i: usize = 0;
    while i < v.len()
        invariant
            0 <= i <= v@.len(),
            forall|j: int| 0 <= j < i ==> v@[j] != x,
        decreases v@.len() - i,
    {
        if v[i] == x {
            return true;
        }
        i += 1;
    }
    proof {
        if v@.to_set().contains(x) {
            let j = choose|j: int| 0 <= j < v@.len() && v@[j] == x;
            assert(false);
        }
    }
    false
}

/// The ids present in both vectors, keeping the order of the first.
fn intersect_ids(a: &Vec<u32>, b: &Vec<u32>) -> (r: Vec<u32>)
    requires
        forall|j: int, k: int| 0 <= j < k < a@.len() ==> a@[j] < a@[k],
    ensures
        r@.to_set() == a@.to_set().intersect(b@.to_set()),
        forall|j: int, k: int| 0 <= j < k < r@.len() ==> r@[j] < r@[k],
{
    let mut out: Vec<u32> = Vec::new();
    let mut i: usize = 0;
    while i < a.len()
        invariant
            0 <= i <= a@.len(),
            forall|j: int, k: int| 0 <= j < k < a@.len() ==> a@[j] < a@[k],
            forall|j: int, k: int| 0 <= j < k < out@.len() ==> out@[j] < out@[k],
            forall|j: int|
                0 <= j < out@.len() ==> exists|k: int| 0 <= k < i && a@[k] == (#[trigger] out@[j]),
            forall|j: int| 0 <= j < out@.len() ==> b@.to_set().contains(#[trigger] out@[j]),
            forall|k: int|
                0 <= k < i && b@.to_set().contains(#[trigger] a@[k]) ==> out@.to_set().contains(
                    a@[k],
                ),
        decreases a@.len() - i,
    {
        let x = a[i];
        if contains_u32(b, x) {
            let ghost pre = out@;
            proof {
                assert forall|j: int| 0 <= j < out@.len() implies (#[trigger] out@[j]) < x by {
                    let k = choose|k: int| 0 <= k < i && a@[k] == out@[j];
                    assert(a@[k] < a@[i as int]);
                }
            }
            out.push(x);
            proof {
                assert(out@[out@.len() - 1] == x);
                assert(forall|j: int| 0 <= j < pre.len() ==> out@[j] == pre[j]);
                assert(out@.to_set().contains(x));
                assert forall|y: u32| pre.to_set().contains(y) implies out@.to_set().contains(
                    y,
                ) by {
                    let jj = choose|jj: int| 0 <= jj < pre.len() && pre[jj] == y;
                    assert(out@[jj] == y);
                }
            }
        }
        i += 1;
    }
    proof {
        assert forall|x: u32| out@.to_set().contains(x) implies a@.to_set().intersect(
            b@.to_set(),
        ).contains(x) by {
            let j = choose|j: int| 0 <= j < out@.len() && out@[j] == x;
            let k = choose|k: int| 0 <= k < a@.len() && a@[k] == out@[j];
        }
        assert forall|x: u32| a@.to_set().intersect(b@.to_set()).contains(x) implies
            out@.to_set().contains(x) by {
            let k = choose|k: int| 0 <= k < a@.len() && a@[k] == x;
        }
        assert(out@.to_set() =~= a@.to_set().intersect(b@.to_set()));
    }
    out
}

/// The read pass over one snapshot: every query trigram's posting is
/// loaded (a missing posting row means no file can match), the postings
/// are intersected, the surviving ids are resolved to their stored paths,
/// and paths failing the filter are dropped. Hits come out in ascending
/// id order, one per id.
fn search_snapshot(store: &Store, query: &str, filter: Option<&PathFilter>) -> (r: Result<
    Vec<SearchHit>,
    IndexError,
>)
    ensures
        r is Ok ==> hits_match(
            store.model(),
            query.spec_bytes(),
            (match filter {
                Option::Some(f) => Option::Some(f.pattern()),
                Option::None => Option::None,
            }),
            r.unwrap()@,
        ),
        r is Ok && query.spec_bytes().len() < 3 ==> r.unwrap()@.len() == 0,
{
    let ghost m = store.model();
    let ghost q = query.spec_bytes();
    let qb = query.as_bytes();
    let hits: Vec<SearchHit> = Vec::new();
    if qb.len() < 3 {
        return Ok(hits);
    }
    let qtris = collect_trigrams_bytes(qb);
    let n = qtris.len();
    proof {
        assert(trigram_set(q).contains(q.subrange(0, 3))) by {
            assert(crate::trigram::window_at(q, 0) == q.subrange(0, 3));
        }
        assert(n > 0) by {
            if qtris@.len() == 0 {
                assert(!tris_as_set(qtris@).contains(q.subrange(0, 3)));
            }
        }
    }
    let mut postings: Vec<Vec<u32>> = Vec::new();
    let mut i: usize = 0;
    while i < n
        invariant
            0 <= i <= n == qtris@.len(),
            m == store.model(),
            q == query.spec_bytes(),
            tris_as_set(qtris@) == trigram_set(q),
            postings@.len() == i,
            forall|j: int| 0 <= j < i ==> m.postings.contains_key((#[trigger] qtris@[j])@),
            forall|j: int|
                0 <= j < i ==> (#[trigger] postings@[j])@.to_set() == m.postings[qtris@[j]@],
            forall|j: int, k1: int, k2: int|
                0 <= j < i && 0 <= k1 < k2 < postings@[j]@.len() ==> #[trigger] postings@[j]@[k1]
                    < #[trigger] postings@[j]@[k2],
        decreases n - i,
    {
        let t = qtris[i];
        match store.posting(&t)? {
            Option::None => {
                proof {
                    assert(tris_as_set(qtris@).contains(t@)) by {
                        assert(qtris@[i as int]@ == t@);
                    }
                    assert forall|id: u32| !query_ids(m, q).contains(id) by {
                        assert(trigram_set(q).contains(t@));
                        assert(!m.postings.contains_key(t@));
                        assert(!(m.postings.contains_key(t@) && (#[trigger] m.postings[t@]).contains(id)));
                    }
                    assert(search_ids(m, q) =~= Set::<u32>::empty());
                }
                let none_hits: Vec<SearchHit> = Vec::new();
                return Ok(none_hits);
            },
            Option::Some(v) => {
                postings.push(v);
                proof {
                    assert(qtris@[i as int] == t);
                    assert(m.postings.contains_key(qtris@[i as int]@));
                    assert(postings@[i as int]@.to_set() == m.postings[qtris@[i as int]@]);
                }
            },
        }
        i += 1;
    }
    let mut acc: Vec<u32> = Vec::new();
    let mut c: usize = 0;
    while c < postings[0].len()
        invariant
            0 <= c <= postings@[0]@.len(),
            acc@ == postings@[0]@.take(c as int),
            1 <= n == qtris@.len(),
            m == store.model(),
            q == query.spec_bytes(),
            postings@.len() == n,
            tris_as_set(qtris@) == trigram_set(q),
            forall|jj: int| 0 <= jj < n ==> m.postings.contains_key((#[trigger] qtris@[jj])@),
            forall|jj: int|
                0 <= jj < n ==> (#[trigger] postings@[jj])@.to_set() == m.postings[qtris@[jj]@],
            forall|j: int, k1: int, k2: int|
                0 <= j < n && 0 <= k1 < k2 < postings@[j]@.len() ==> #[trigger] postings@[j]@[k1]
                    < #[trigger] postings@[j]@[k2],
        decreases postings@[0]@.len() - c,
    {
        acc.push(postings[0][c]);
        proof {
            assert(acc@ =~= postings@[0]@.take(c + 1int));
        }
        c += 1;
    }
    proof {
        assert(acc@ =~= postings@[0]@);
        assert(acc@.to_set() == m.postings[qtris@[0]@]);
    }
    let mut j: usize = 1;
    while j < n
        invariant
            1 <= j <= n == qtris@.len(),
            m == store.model(),
            q == query.spec_bytes(),
            postings@.len() == n,
            tris_as_set(qtris@) == trigram_set(q),
            forall|jj: int| 0 <= jj < n ==> m.postings.contains_key((#[trigger] qtris@[jj])@),
            forall|jj: int|
                0 <= jj < n ==> (#[trigger] postings@[jj])@.to_set() == m.postings[qtris@[jj]@],
            forall|k1: int, k2: int| 0 <= k1 < k2 < acc@.len() ==> acc@[k1] < acc@[k2],
            forall|id: u32|
                acc@.to_set().contains(id) <==> (forall|jj: int|
                    0 <= jj < j ==> m.postings[(#[trigger] qtris@[jj])@].contains(id)),
        decreases n - j,
    {
        let ghost acc_pre = acc@;
        let nxt = intersect_ids(&acc, &postings[j]);
        acc = nxt;
        proof {
            assert forall|id: u32|
                acc@.to_set().contains(id) <==> (forall|jj: int|
                    0 <= jj < j + 1 ==> m.postings[(#[trigger] qtris@[jj])@].contains(id)) by {
                if acc@.to_set().contains(id) {
                    assert(acc_pre.to_set().contains(id));
                    assert(postings@[j as int]@.to_set().contains(id));
                }
                if forall|jj: int|
                    0 <= jj < j + 1 ==> m.postings[(#[trigger] qtris@[jj])@].contains(id) {
                    assert(acc_pre.to_set().contains(id));
                    assert(m.postings[qtris@[j as int]@].contains(id));
                    assert(postings@[j as int]@.to_set().contains(id));
                }
            }
        }
        j += 1;
    }
    proof {
        assert forall|id: u32| acc@.to_set().contains(id) <==> query_ids(m, q).contains(id) by {
            if acc@.to_set().contains(id) {
                assert forall|t: Seq<u8>| trigram_set(q).contains(t) implies m.postings.contains_key(
                    t,
                ) && (#[trigger] m.postings[t]).contains(id) by {
                    let jj = choose|jj: int| 0 <= jj < qtris@.len() && (#[trigger] qtris@[jj])@ == t;
                    assert(m.postings[qtris@[jj]@].contains(id));
                }
            }
            if query_ids(m, q).contains(id) {
                assert forall|jj: int|
                    0 <= jj < n implies m.postings[(#[trigger] qtris@[jj])@].contains(id) by {
                    assert(tris_as_set(qtris@).contains(qtris@[jj]@));
                    assert(trigram_set(q).contains(qtris@[jj]@));
                }
            }
        }
    }
    let mut out: Vec<SearchHit> = Vec::new();
    let mut k: usize = 0;
    let total = acc.len();
    while k < total
        invariant
            0 <= k <= total == acc@.len(),
            forall|k1: int, k2: int| 0 <= k1 < k2 < acc@.len() ==> acc@[k1] < acc@[k2],
            forall|id: u32| acc@.to_set().contains(id) <==> query_ids(m, q).contains(id),
            3 <= q.len(),
            q == query.spec_bytes(),
            store.model() == m,
            forall|jj: int|
                0 <= jj < out@.len() ==> {
                    let h = #[trigger] out@[jj];
                    &&& query_ids(m, q).contains(h.file_id)
                    &&& m.files.contains_key(h.file_id)
                    &&& h.path@ == m.files[h.file_id].0
                    &&& (match filter {
                        Option::Some(f) => regex_match(f.pattern(), h.path@),
                        Option::None => true,
                    })
                },
            forall|kk: int|
                0 <= kk < k ==> ((match filter {
                    Option::Some(f) => m.files.contains_key(#[trigger] acc@[kk]) && regex_match(
                        f.pattern(),
                        m.files[acc@[kk]].0,
                    ),
                    Option::None => true,
                }) ==> exists|jj: int|
                    0 <= jj < out@.len() && (#[trigger] out@[jj]).file_id == acc@[kk]),
            forall|jj1: int, jj2: int|
                0 <= jj1 < out@.len() && 0 <= jj2 < out@.len() && (#[trigger] out@[jj1]).file_id
                    == (#[trigger] out@[jj2]).file_id ==> jj1 == jj2,
            forall|jj: int|
                0 <= jj < out@.len() ==> exists|kk: int|
                    0 <= kk < k && acc@[kk] == (#[trigger] out@[jj]).file_id,
        decreases total - k,
    {
        let id = acc[k];
        match store.file_path(id)? {
            Option::None => {
                return Err(
                    IndexError::Db("file row missing for an id in the postings".to_owned()),
                );
            },
            Option::Some(p) => {
                let keep = match filter {
                    Option::Some(f) => f.is_match(p.as_str()),
                    Option::None => true,
                };
                if keep {
                    let ghost pre = out@;
                    proof {
                        assert(acc@.to_set().contains(acc@[k as int]));
                        assert forall|jj: int|
                            0 <= jj < out@.len() implies (#[trigger] out@[jj]).file_id != id by {
                            let kk = choose|kk: int|
                                0 <= kk < k && acc@[kk] == (#[trigger] out@[jj]).file_id;
                            assert(acc@[kk] < acc@[k as int]);
                        }
                    }
                    out.push(SearchHit { file_id: id, path: p });
                    proof {
                        assert(out@[out@.len() - 1].file_id == id);
                        assert(forall|jj: int| 0 <= jj < pre.len() ==> out@[jj] == pre[jj]);
                        assert forall|kk: int|
                            0 <= kk < k + 1 implies ((match filter {
                            Option::Some(f) => m.files.contains_key(#[trigger] acc@[kk])
                                && regex_match(f.pattern(), m.files[acc@[kk]].0),
                            Option::None => true,
                        }) ==> exists|jj: int|
                            0 <= jj < out@.len() && (#[trigger] out@[jj]).file_id == acc@[kk]) by {
                            if kk == k {
                                assert(out@[out@.len() - 1].file_id == acc@[kk]);
                            } else {
                                if exists|jj: int|
                                    0 <= jj < pre.len() && (#[trigger] pre[jj]).file_id == acc@[
                                kk] {
                                    let jj = choose|jj: int|
                                        0 <= jj < pre.len() && (#[trigger] pre[jj]).file_id
                                            == acc@[kk];
                                    assert(out@[jj].file_id == acc@[kk]);
                                }
                            }
                        }
                    }
                } else {
                    proof {
                        assert(p@ == m.files[id].0);
                        assert forall|kk: int|
                            0 <= kk < k + 1 implies ((match filter {
                            Option::Some(f) => m.files.contains_key(#[trigger] acc@[kk])
                                && regex_match(f.pattern(), m.files[acc@[kk]].0),
                            Option::None => true,
                        }) ==> exists|jj: int|
                            0 <= jj < out@.len() && (#[trigger] out@[jj]).file_id == acc@[kk]) by {
                        }
                    }
                }
            },
        }
        k += 1;
    }
    proof {
        assert forall|id: u32|
            search_ids(m, q).contains(id) && (match filter {
                Option::Some(f) => m.files.contains_key(id) && regex_match(
                    f.pattern(),
                    m.files[id].0,
                ),
                Option::None => true,
            }) implies exists|jj: int|
            0 <= jj < out@.len() && (#[trigger] out@[jj]).file_id == id by {
            assert(acc@.to_set().contains(id));
            let kk = choose|kk: int| 0 <= kk < acc@.len() && acc@[kk] == id;
        }
    }
    Ok(out)
}

/// Search the store for a query, optionally filtering the hit paths.
///
/// Queries shorter than 3 bytes return no hits at all, before the store
/// is touched. Longer queries read inside one transaction, so all reads
/// see a single snapshot even while another process's writer commits; the
/// transaction is closed again before returning.
pub fn search_store(store: &mut Store, query: &str, filter: Option<&PathFilter>) -> (r: Result<
    Vec<SearchHit>,
    IndexError,
>)
    requires
        !old(store).in_tx(),
    ensures
        !final(store).in_tx(),
        final(store).model() == old(store).model(),
        r is Ok ==> hits_match(
            old(store).model(),
            query.spec_bytes(),
            (match filter {
                Option::Some(f) => Option::Some(f.pattern()),
                Option::None => Option::None,
            }),
            r.unwrap()@,
        ),
        query.spec_bytes().len() < 3 ==> r is Ok && r.unwrap()@.len() == 0,
{
    let ghost m = store.model();
    let ghost q = query.spec_bytes();
    if query.as_bytes().len() < 3 {
        let hits: Vec<SearchHit> = Vec::new();
        proof {
            assert(search_ids(m, q) =~= Set::<u32>::empty());
        }
        return Ok(hits);
    }
    store.begin()?;
    let r = search_snapshot(&*store, query, filter);
    store.rollback();
    r
}

/// Open the database file read-only-style and search it.
///
/// The exact hit description is `search_store`'s; this wrapper adds the
/// fresh connection the command-line path uses.
pub fn search_database_file(db_path: &str, query: &str) -> (r: Result<Vec<SearchHit>, IndexError>)
    ensures
        r is Ok && query.spec_bytes().len() < 3 ==> r.unwrap()@.len() == 0,
{
    let mut store = Store::open(db_path)?;
    search_store(&mut store, query, None)
}

/// As `search_database_file`, with a path filter.
pub fn search_database_file_filtered(db_path: &str, query: &str, filter: Option<&PathFilter>) -> (r:
    Result<Vec<SearchHit>, IndexError>)
    ensures
        r is Ok && query.spec_bytes().len() < 3 ==> r.unwrap()@.len() == 0,
{
    let mut store = Store::open(db_path)?;
    search_store(&mut store, query, filter)
}

/// Lower-case of one byte: ASCII letters fold, other bytes unchanged.
pub open spec fn lower_byte(b: u8) -> u8 {
    if 65 <= b && b <= 90 {
        (b + 32) as u8
    } else {
        b
    }
}

/// The ASCII-lower-cased bytes of `s`.
pub open spec fn lower_bytes(s: Seq<u8>) -> Seq<u8> {
    s.map_values(|b: u8| lower_byte(b))
}

/// Lower-case the ASCII letters of `s`.
fn to_lower(s: &[u8]) -> (r: Vec<u8>)
    ensures
        r@ == lower_bytes(s@),
{
    let mut out: Vec<u8> = Vec::new();
    let mut i: usize = 0;
    while i < s.len()
        invariant
            0 <= i <= s@.len(),
            out@.len() == i,
            forall|j: int| 0 <= j < i ==> out@[j] == lower_byte(s@[j]),
        decreases s@.len() - i,
    {
        let b = s[i];
        if 65 <= b && b <= 90 {
            out.push(b + 32);
        } else {
            out.push(b);
        }
        i += 1;
    }
    proof {
        assert(out@ =~= lower_bytes(s@));
    }
    out
}

/// A stored path matches the file-path pattern: the lower-cased pattern
/// occurs in the lower-cased path; the empty pattern matches nothing.
pub open spec fn path_pattern_match(pattern: Seq<u8>, path: Seq<u8>) -> bool {
    pattern.len() > 0 && is_substring_of(lower_bytes(pattern), lower_bytes(path))
}

/// Byte-lexicographic order on paths.
pub open spec fn lex_le(a: Seq<u8>, b: Seq<u8>) -> bool
    decreases a.len(),
{
    if a.len() == 0 {
        true
    } else if b.len() == 0 {
        false
    } else if a[0] < b[0] {
        true
    } else if a[0] > b[0] {
        false
    } else {
        lex_le(a.drop_first(), b.drop_first())
    }
}

/// The order is total: one direction always holds.
proof fn lemma_lex_total(a: Seq<u8>, b: Seq<u8>)
    ensures
        lex_le(a, b) || lex_le(b, a),
    decreases a.len(),
{
    if a.len() > 0 && b.len() > 0 && a[0] == b[0] {
        lemma_lex_total(a.drop_first(), b.drop_first());
    }
}

/// The order is transitive.
proof fn lemma_lex_trans(a: Seq<u8>, b: Seq<u8>, c: Seq<u8>)
    requires
        lex_le(a, b),
        lex_le(b, c),
    ensures
        lex_le(a, c),
    decreases a.len(),
{
    if a.len() > 0 && b.len() > 0 && c.len() > 0 {
        if a[0] == b[0] && b[0] == c[0] {
            lemma_lex_trans(a.drop_first(), b.drop_first(), c.drop_first());
        }
    }
}

/// A shared prefix does not decide the order: it is decided past it.
proof fn lemma_lex_skip(a: Seq<u8>, b: Seq<u8>, i: int)
    requires
        0 <= i <= a.len(),
        i <= b.len(),
        forall|j: int| 0 <= j < i ==> a[j] == b[j],
    ensures
        lex_le(a, b) == lex_le(a.skip(i), b.skip(i)),
    decreases i,
{
    if i == 0 {
        assert(a.skip(0) =~= a);
        assert(b.skip(0) =~= b);
    } else {
        assert(a[0] == b[0]);
        let a1 = a.drop_first();
        let b1 = b.drop_first();
        assert(forall|j: int| 0 <= j < i - 1 ==> a1[j] == b1[j]);
        lemma_lex_skip(a1, b1, i - 1);
        assert(a1.skip(i - 1) =~= a.skip(i));
        assert(b1.skip(i - 1) =~= b.skip(i));
    }
}

/// Decide the byte-lexicographic order.
fn bytes_le(a: &[u8], b: &[u8]) -> (r: bool)
    ensures
        r == lex_le(a@, b@),
{
    let an = a.len();
    let bn = b.len();
    let n = if an < bn {
        an
    } else {
        bn
    };
    let mut i: usize = 0;
    while i < n
        invariant
            0 <= i <= n,
            n == if an < bn {
                an as int
            } else {
                bn as int
            },
            an == a@.len(),
            bn == b@.len(),
            forall|j: int| 0 <= j < i ==> a@[j] == b@[j],
        decreases n - i,
    {
        if a[i] < b[i] {
            proof {
                lemma_lex_skip(a@, b@, i as int);
                assert(a@.skip(i as int)[0] == a@[i as int]);
                assert(b@.skip(i as int)[0] == b@[i as int]);
            }
            return true;
        }
        if a[i] > b[i] {
            proof {
                lemma_lex_skip(a@, b@, i as int);
                assert(a@.skip(i as int)[0] == a@[i as int]);
                assert(b@.skip(i as int)[0] == b@[i as int]);
            }
            return false;
        }
        i += 1;
    }
    proof {
        lemma_lex_skip(a@, b@, n as int);
        if an <= bn {
            assert(a@.skip(n as int) =~= Seq::<u8>::empty());
        } else {
            assert(b@.skip(n as int) =~= Seq::<u8>::empty());
            assert(a@.skip(n as int).len() > 0);
        }
    }
    an <= bn
}

/// Whether a hit list is exactly the file-path search result for
/// `pattern` on `m`: each hit is a stored row whose lower-cased path
/// contains the lower-cased pattern, every matching row appears, no id
/// appears twice, and the hits come sorted by path ascending. The empty
/// pattern matches nothing.
pub open spec fn files_hits_match(m: StoreModel, pattern: Seq<u8>, hits: Seq<SearchHit>) -> bool {
    &&& forall|k: int|
        0 <= k < hits.len() ==> {
            let h = #[trigger] hits[k];
            &&& m.files.contains_key(h.file_id)
            &&& h.path@ == m.files[h.file_id].0
            &&& path_pattern_match(pattern, crate::text::str_bytes(h.path@))
        }
    &&& forall|id: u32|
        m.files.contains_key(id) && path_pattern_match(
            pattern,
            crate::text::str_bytes((#[trigger] m.files[id]).0),
        ) ==> exists|k: int| 0 <= k < hits.len() && (#[trigger] hits[k]).file_id == id
    &&& forall|k1: int, k2: int|
        0 <= k1 < hits.len() && 0 <= k2 < hits.len() && (#[trigger] hits[k1]).file_id == (
        #[trigger] hits[k2]).file_id ==> k1 == k2
    &&& hits_sorted(hits)
    &&& pattern.len() == 0 ==> hits.len() == 0
}

/// The hits are in ascending path order.
pub open spec fn hits_sorted(h: Seq<SearchHit>) -> bool {
    forall|k1: int, k2: int|
        0 <= k1 < k2 < h.len() ==> lex_le(
            crate::text::str_bytes((#[trigger] h[k1]).path@),
            crate::text::str_bytes((#[trigger] h[k2]).path@),
        )
}

/// Insert a hit into a path-sorted vector, keeping it sorted.
fn insert_hit(v: &mut Vec<SearchHit>, h: SearchHit)
    requires
        hits_sorted(old(v)@),
    ensures
        hits_sorted(final(v)@),
        exists|i: int| 0 <= i <= old(v)@.len() && final(v)@ == old(v)@.insert(i, h),
{
    let ghost old_seq = v@;
    let hb = h.path.as_str().as_bytes_vec();
    proof {
        assert(hb@ == crate::text::str_bytes(h.path@));
    }
    let mut i: usize = 0;
    while i < v.len()
        invariant
            0 <= i <= v@.len(),
            old_seq == old(v)@,
            v@ == old_seq,
            hb@ == crate::text::str_bytes(h.path@),
            hits_sorted(v@),
            forall|j: int|
                0 <= j < i ==> lex_le(crate::text::str_bytes((#[trigger] v@[j]).path@), hb@),
        decreases v@.len() - i,
    {
        let vb = v[i].path.as_str().as_bytes_vec();
        proof {
            assert(vb@ == crate::text::str_bytes(v@[i as int].path@));
        }
        if !bytes_le(vb.as_slice(), hb.as_slice()) {
            proof {
                lemma_lex_total(vb@, hb@);
            }
            v.insert(i, h);
            proof {
                assert(forall|j: int| 0 <= j < i ==> v@[j] == old_seq[j]);
                assert(v@[i as int] == h);
                assert(forall|j: int| i < j < v@.len() ==> v@[j] == old_seq[j - 1]);
                assert forall|k1: int, k2: int| 0 <= k1 < k2 < v@.len() implies lex_le(
                    crate::text::str_bytes((#[trigger] v@[k1]).path@),
                    crate::text::str_bytes((#[trigger] v@[k2]).path@),
                ) by {
                    if k1 < i && k2 == i {
                        assert(lex_le(crate::text::str_bytes(old_seq[k1].path@), hb@));
                    } else if k1 == i && k2 > i {
                        assert(lex_le(hb@, vb@));
                        if k2 - 1 == i {
                        } else {
                            assert(lex_le(
                                crate::text::str_bytes(old_seq[i as int].path@),
                                crate::text::str_bytes(old_seq[k2 - 1].path@),
                            ));
                            lemma_lex_trans(
                                hb@,
                                vb@,
                                crate::text::str_bytes(old_seq[k2 - 1].path@),
                            );
                        }
                    } else if k1 < i && k2 > i {
                        assert(lex_le(
                            crate::text::str_bytes(old_seq[k1].path@),
                            crate::text::str_bytes(old_seq[k2 - 1].path@),
                        ));
                    } else if k1 > i && k2 > i {
                        assert(lex_le(
                            crate::text::str_bytes(old_seq[k1 - 1].path@),
                            crate::text::str_bytes(old_seq[k2 - 1].path@),
                        ));
                    }
                }
                assert(v@ == old_seq.insert(i as int, h));
            }
            return ;
        }
        i += 1;
    }
    v.push(h);
    proof {
        assert(forall|j: int| 0 <= j < old_seq.len() ==> v@[j] == old_seq[j]);
        assert(v@[v@.len() - 1] == h);
        assert(v@ =~= old_seq.insert(old_seq.len() as int, h));
    }
}

/// Search the stored paths for a case-insensitive substring of the
/// pattern, returning the hits sorted by path ascending. The empty
/// pattern returns nothing.
fn search_files_snapshot(store: &Store, pattern: &str) -> (r: Result<Vec<SearchHit>, IndexError>)
    ensures
        r is Ok ==> files_hits_match(store.model(), pattern.spec_bytes(), r.unwrap()@),
{
    let ghost m = store.model();
    let rows = store.file_rows()?;
    let pat_lower = to_lower(pattern.as_bytes());
    let mut out: Vec<SearchHit> = Vec::new();
    let mut k: usize = 0;
    let n = rows.len();
    while k < n
        invariant
            0 <= k <= n == rows@.len(),
            m == store.model(),
            pat_lower@ == lower_bytes(pattern.spec_bytes()),
            forall|kk: int|
                0 <= kk < rows@.len() ==> m.files.contains_key((#[trigger] rows@[kk]).0)
                    && m.files[rows@[kk].0] == (rows@[kk].1@, rows@[kk].2),
            forall|k1: int, k2: int|
                0 <= k1 < rows@.len() && 0 <= k2 < rows@.len() && (#[trigger] rows@[k1]).0 == (
                #[trigger] rows@[k2]).0 ==> k1 == k2,
            hits_sorted(out@),
            forall|j: int|
                0 <= j < out@.len() ==> ({
                    let h = #[trigger] out@[j];
                    &&& m.files.contains_key(h.file_id)
                    &&& h.path@ == m.files[h.file_id].0
                    &&& path_pattern_match(
                        pattern.spec_bytes(),
                        crate::text::str_bytes(h.path@),
                    )
                }),
            forall|j: int|
                0 <= j < out@.len() ==> exists|kk: int|
                    0 <= kk < k && (#[trigger] out@[j]).file_id == rows@[kk].0,
            forall|j1: int, j2: int|
                0 <= j1 < out@.len() && 0 <= j2 < out@.len() && (#[trigger] out@[j1]).file_id == (
                #[trigger] out@[j2]).file_id ==> j1 == j2,
            forall|kk: int|
                0 <= kk < k && path_pattern_match(
                    pattern.spec_bytes(),
                    crate::text::str_bytes((#[trigger] rows@[kk]).1@),
                ) ==> exists|j: int|
                    0 <= j < out@.len() && (#[trigger] out@[j]).file_id == rows@[kk].0,
        decreases n - k,
    {
        let (id, path_s, _mt) = &rows[k];
        let path_lower = to_lower(path_s.as_str().as_bytes());
        let nonempty = pat_lower.len() > 0;
        let sub = crate::text::contains_bytes(path_lower.as_slice(), pat_lower.as_slice());
        let is_match = nonempty && sub;
        proof {
            assert(path_lower@ == lower_bytes(crate::text::str_bytes(path_s@)));
            assert(sub == is_substring_of(
                lower_bytes(pattern.spec_bytes()),
                lower_bytes(crate::text::str_bytes(path_s@)),
            ));
            assert(is_match == path_pattern_match(
                pattern.spec_bytes(),
                crate::text::str_bytes(path_s@),
            ));
        }
        if is_match {
            let ghost pre = out@;
            let hit = SearchHit { file_id: *id, path: path_s.clone() };
            let ghost hv = hit;
            insert_hit(&mut out, hit);
            proof {
                let ins = choose|ins: int| 0 <= ins <= pre.len() && out@ == pre.insert(ins, hv);
                pre.insert_ensures(ins, hv);
                assert(out@[ins] == hv);
                assert(forall|j: int| 0 <= j < ins ==> out@[j] == pre[j]);
                assert(forall|j: int| ins < j < out@.len() ==> out@[j] == pre[j - 1]);
                // every prior hit comes from an earlier, distinct row
                assert forall|j: int| 0 <= j < out@.len() implies exists|kk: int|
                    0 <= kk < k + 1 && (#[trigger] out@[j]).file_id == rows@[kk].0 by {
                    if j == ins {
                        assert(out@[j].file_id == rows@[k as int].0);
                    } else if j < ins {
                        assert(out@[j] == pre[j]);
                    } else {
                        assert(out@[j] == pre[j - 1]);
                    }
                }
                assert forall|j1: int, j2: int|
                    0 <= j1 < out@.len() && 0 <= j2 < out@.len() && (#[trigger] out@[j1]).file_id
                        == (#[trigger] out@[j2]).file_id implies j1 == j2 by {
                    if j1 != j2 {
                        let p1 = if j1 < ins {
                            j1
                        } else {
                            j1 - 1
                        };
                        let p2 = if j2 < ins {
                            j2
                        } else {
                            j2 - 1
                        };
                        if j1 == ins {
                            let kk = choose|kk: int|
                                0 <= kk < k && (#[trigger] pre[p2]).file_id == rows@[kk].0;
                            assert(rows@[kk].0 != rows@[k as int].0);
                            assert(false);
                        } else if j2 == ins {
                            let kk = choose|kk: int|
                                0 <= kk < k && (#[trigger] pre[p1]).file_id == rows@[kk].0;
                            assert(rows@[kk].0 != rows@[k as int].0);
                            assert(false);
                        } else {
                            assert(pre[p1].file_id == pre[p2].file_id);
                            assert(p1 == p2);
                            assert(false);
                        }
                    }
                }
                assert forall|kk: int|
                    0 <= kk < k + 1 && path_pattern_match(
                        pattern.spec_bytes(),
                        crate::text::str_bytes((#[trigger] rows@[kk]).1@),
                    ) implies exists|j: int|
                    0 <= j < out@.len() && (#[trigger] out@[j]).file_id == rows@[kk].0 by {
                    if kk == k {
                        assert(out@[ins].file_id == rows@[kk].0);
                    } else {
                        let j2 = choose|j2: int|
                            0 <= j2 < pre.len() && (#[trigger] pre[j2]).file_id == rows@[kk].0;
                        if j2 < ins {
                            assert(out@[j2].file_id == rows@[kk].0);
                        } else {
                            assert(out@[j2 + 1].file_id == rows@[kk].0);
                        }
                    }
                }
            }
        }
        k += 1;
    }
    proof {
        assert forall|id: u32|
            m.files.contains_key(id) && path_pattern_match(
                pattern.spec_bytes(),
                crate::text::str_bytes((#[trigger] m.files[id]).0),
            ) implies exists|j: int|
            0 <= j < out@.len() && (#[trigger] out@[j]).file_id == id by {
            let kk = choose|kk: int| 0 <= kk < rows@.len() && (#[trigger] rows@[kk]).0 == id;
            assert(rows@[kk].1@ == m.files[id].0);
        }
        if pattern.spec_bytes().len() == 0 {
            if out@.len() > 0 {
                assert(path_pattern_match(
                    pattern.spec_bytes(),
                    crate::text::str_bytes(out@[0].path@),
                ));
            }
        }
    }
    Ok(out)
}

/// Search the stored paths for a case-insensitive substring of the
/// pattern, returning the hits sorted by path ascending, one per file.
/// The empty pattern returns nothing. The reads run inside one
/// transaction, closed again before returning.
pub fn search_files_store(store: &mut Store, pattern: &str) -> (r: Result<
    Vec<SearchHit>,
    IndexError,
>)
    requires
        !old(store).in_tx(),
    ensures
        !final(store).in_tx(),
        final(store).model() == old(store).model(),
        r is Ok ==> files_hits_match(old(store).model(), pattern.spec_bytes(), r.unwrap()@),
{
    store.begin()?;
    let r = search_files_snapshot(&*store, pattern);
    store.rollback();
    r
}

/// Open the database file and search the stored paths.
pub fn search_files_in_database(db_path: &str, pattern: &str) -> (r: Result<
    Vec<SearchHit>,
    IndexError,
>)
    ensures
        r is Ok && pattern.spec_bytes().len() == 0 ==> r.unwrap()@.len() == 0,
        r is Ok ==> hits_sorted(r.unwrap()@),
        r is Ok ==> forall|k1: int, k2: int|
            0 <= k1 < r.unwrap()@.len() && 0 <= k2 < r.unwrap()@.len() && (
            #[trigger] r.unwrap()@[k1]).file_id == (#[trigger] r.unwrap()@[k2]).file_id ==> k1
                == k2,
{
    let mut store = Store::open(db_path)?;
    search_files_store(&mut store, pattern)
}

/// Law: any file whose stored trigram set is the trigram set of its text
/// is found by every contiguous byte substring of that text of length at
/// least 3, provided the index is consistent.
pub proof fn lemma_substring_found(m: StoreModel, id: u32, content: Seq<u8>, q: Seq<u8>)
    requires
        content_inv(m),
        m.tris.contains_key(id),
        crate::codec::blob_tris(m.tris[id]) == trigram_set(content),
        is_substring_of(q, content),
        3 <= q.len(),
    ensures
        search_ids(m, q).contains(id),
{
    lemma_substring_trigrams(q, content);
    assert forall|t: Seq<u8>| trigram_set(q).contains(t) implies m.postings.contains_key(t) && (
    #[trigger] m.postings[t]).contains(id) by {
        assert(trigram_set(content).contains(t));
        assert(crate::codec::blob_tris(m.tris[id]).contains(t));
    }
}

/// Law: what a search returns is a function of the store contents alone.
/// An index rebuilt from scratch through the same operations holds the
/// same contents, so it answers every query identically.
pub proof fn lemma_search_determined(m1: StoreModel, m2: StoreModel, q: Seq<u8>)
    requires
        m1.postings == m2.postings,
    ensures
        search_ids(m1, q) == search_ids(m2, q),
{
    if q.len() >= 3 {
        assert(query_ids(m1, q) =~= query_ids(m2, q));
    }
    assert(search_ids(m1, q) =~= search_ids(m2, q));
}

/// Law: upserting a file whose trigram vector was collected from its text
/// makes it findable by every contiguous byte substring of that text of
/// length at least 3, under its new path.
pub proof fn lemma_upserted_file_findable(
    m: StoreModel,
    id: u32,
    path: Seq<char>,
    ts: u64,
    content: Seq<u8>,
    v: Seq<[u8; 3]>,
    q: Seq<u8>,
)
    requires
        content_inv(m),
        tris_as_set(v) == trigram_set(content),
        is_substring_of(q, content),
        3 <= q.len(),
    ensures
        ({
            let m2 = crate::index::upsert_model(m, id, path, ts, crate::codec::blob_encode(v));
            &&& search_ids(m2, q).contains(id)
            &&& m2.files.contains_key(id) && m2.files[id].0 == path
        }),
{
    let m2 = crate::index::upsert_model(m, id, path, ts, crate::codec::blob_encode(v));
    crate::codec::lemma_blob_encode_tris(v);
    crate::index::lemma_upsert_preserves_inv(m, id, path, ts, crate::codec::blob_encode(v));
    lemma_substring_found(m2, id, content, q);
}

/// Law: a removed file is findable by no query at all; in particular a
/// rename's source path stops answering once its removal is applied.
pub proof fn lemma_removed_file_unfindable(m: StoreModel, id: u32, q: Seq<u8>)
    requires
        content_inv(m),
    ensures
        !crate::index::remove_model(m, id).files.contains_key(id),
        !search_ids(crate::index::remove_model(m, id), q).contains(id),
{
    let m2 = crate::index::remove_model(m, id);
    crate::index::lemma_remove_preserves_inv(m, id);
    if search_ids(m2, q).contains(id) {
        assert(3 <= q.len());
        let t = q.subrange(0, 3);
        assert(trigram_set(q).contains(t)) by {
            assert(crate::trigram::window_at(q, 0) == t);
        }
        assert(m2.postings.contains_key(t) && m2.postings[t].contains(id));
        assert(m2.tris.contains_key(id));
        assert(false);
    }
}

/// Law: a rename applied as its two halves — the removal of the source
/// file and the upsert of the same content under the destination path —
/// leaves the content findable exactly under the destination: every
/// substring query of length at least 3 finds the destination id with its
/// new path, and the source id answers no query and holds no file row.
pub proof fn lemma_rename_findable_only_at_destination(
    m: StoreModel,
    src_id: u32,
    dst_id: u32,
    dst_path: Seq<char>,
    ts: u64,
    content: Seq<u8>,
    v: Seq<[u8; 3]>,
    q: Seq<u8>,
)
    requires
        content_inv(m),
        src_id != dst_id,
        tris_as_set(v) == trigram_set(content),
        is_substring_of(q, content),
        3 <= q.len(),
    ensures
        ({
            let m2 = crate::index::upsert_model(
                crate::index::remove_model(m, src_id),
                dst_id,
                dst_path,
                ts,
                crate::codec::blob_encode(v),
            );
            &&& search_ids(m2, q).contains(dst_id)
            &&& m2.files.contains_key(dst_id) && m2.files[dst_id].0 == dst_path
            &&& !m2.files.contains_key(src_id)
            &&& !search_ids(m2, q).contains(src_id)
        }),
{
    let m1 = crate::index::remove_model(m, src_id);
    let nb = crate::codec::blob_encode(v);
    let m2 = crate::index::upsert_model(m1, dst_id, dst_path, ts, nb);
    crate::index::lemma_remove_preserves_inv(m, src_id);
    lemma_upserted_file_findable(m1, dst_id, dst_path, ts, content, v, q);
    if search_ids(m2, q).contains(src_id) {
        let t = q.subrange(0, 3);
        assert(trigram_set(q).contains(t)) by {
            assert(crate::trigram::window_at(q, 0) == t);
        }
        assert(m2.postings.contains_key(t) && m2.postings[t].contains(src_id));
        let old_ts = crate::index::stored_tris(m1, dst_id);
        let p1 = crate::index::posting_rm_all(m1.postings, dst_id, old_ts);
        let new_ts = crate::codec::blob_seq(nb);
        crate::index::lemma_rm_all(m1.postings, dst_id, old_ts);
        crate::index::lemma_ins_all(p1, dst_id, new_ts);
        // trace the membership back through both phases: only the
        // destination id was ever added or removed
        assert(m1.postings.contains_key(t) && m1.postings[t].contains(src_id));
        // but the removal left the source id in no per-file row, which the
        // preserved invariant makes a contradiction
        assert(m1.tris.contains_key(src_id));
        assert(false);
    }
}

/// Law: queries shorter than 3 bytes match nothing.
pub proof fn lemma_short_query_empty(m: StoreModel, q: Seq<u8>)
    requires
        q.len() < 3,
    ensures
        search_ids(m, q) == Set::<u32>::empty(),
{
}

} // verus!
