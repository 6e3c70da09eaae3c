//! Trigram extraction over raw bytes.
//!
//! A trigram is a 3-byte window over the raw bytes of a text. Extraction
//! takes every overlapping window, deduplicates, and sorts lexicographically,
//! so the resulting vector is a canonical encoding of the trigram set.

use vstd::prelude::*;
use vstd::string::StringSliceAdditionalSpecFns;

verus! {

/// The 3-byte window of `b` starting at `i`.
pub open spec fn window_at(b: Seq<u8>, i: int) -> Seq<u8> {
    b.subrange(i, i + 3)
}

/// `t` occurs as a 3-byte window somewhere in `b`.
pub open spec fn has_window(b: Seq<u8>, t: Seq<u8>) -> bool {
    exists|i: int| 0 <= i && i + 3 <= b.len() && window_at(b, i) == t
}

/// The set of all trigrams of `b`.
pub open spec fn trigram_set(b: Seq<u8>) -> Set<Seq<u8>> {
    Set::new(|t: Seq<u8>| has_window(b, t))
}

/// The set of trigrams held by a vector of 3-byte arrays.
pub open spec fn tris_as_set(r: Seq<[u8; 3]>) -> Set<Seq<u8>> {
    Set::new(|t: Seq<u8>| exists|j: int| 0 <= j < r.len() && r[j]@ == t)
}

/// Strict lexicographic order on two 3-byte windows.
pub open spec fn tri_lt(a: Seq<u8>, b: Seq<u8>) -> bool {
    ||| a[0] < b[0]
    ||| (a[0] == b[0] && a[1] < b[1])
    ||| (a[0] == b[0] && a[1] == b[1] && a[2] < b[2])
}

/// The vector is strictly sorted, hence duplicate-free.
pub open spec fn tris_sorted(r: Seq<[u8; 3]>) -> bool {
    forall|j: int, k: int| 0 <= j < k < r.len() ==> tri_lt(r[j]@, r[k]@)
}

/// Two length-3 byte sequences that are not ordered either way are equal.
proof fn lemma_tri_order_total(a: Seq<u8>, b: Seq<u8>)
    requires
        a.len() == 3,
        b.len() == 3,
        !tri_lt(a, b),
        !tri_lt(b, a),
    ensures
        a == b,
{
    assert(a =~= b);
}

/// Compare two trigrams: 0 means equal, 1 means `a` before `b`, 2 means after.
fn tri_cmp(a: &[u8; 3], b: &[u8; 3]) -> (r: u8)
    ensures
        r == 0 ==> a@ == b@,
        r == 1 ==> tri_lt(a@, b@),
        r == 2 ==> tri_lt(b@, a@),
        r == 0 || r == 1 || r == 2,
{
    if a[0] < b[0] {
        1
    } else if a[0] > b[0] {
        2
    } else if a[1] < b[1] {
        1
    } else if a[1] > b[1] {
        2
    } else if a[2] < b[2] {
        1
    } else if a[2] > b[2] {
        2
    } else {
        proof {
            lemma_tri_order_total(a@, b@);
        }
        0
    }
}

/// Insert `t` into the strictly sorted vector `v`, keeping it sorted and
/// duplicate-free; a `t` already present is dropped.
fn insert_sorted(v: &mut Vec<[u8; 3]>, t: [u8; 3])
    requires
        tris_sorted(old(v)@),
    ensures
        tris_sorted(final(v)@),
        tris_as_set(final(v)@) == tris_as_set(old(v)@).insert(t@),
        final(v)@.len() <= old(v)@.len() + 1,
{
    let ghost old_seq = v@;
    let mut i: usize = 0;
    while i < v.len()
        invariant
            0 <= i <= v.len(),
            old_seq == old(v)@,
            v@ == old_seq,
            tris_sorted(v@),
            forall|j: int| 0 <= j < i ==> tri_lt(v@[j]@, t@),
        decreases v.len() - i,
    {
        let c = tri_cmp(&v[i], &t);
        if c == 0 {
            proof {
                assert(v@[i as int]@ == t@);
                assert(tris_as_set(v@).contains(t@));
                assert forall|u: Seq<u8>| tris_as_set(old_seq).insert(t@).contains(u) implies
                    tris_as_set(v@).contains(u) by {}
                assert(tris_as_set(v@) =~= tris_as_set(old_seq).insert(t@));
            }
            return ;
        } else if c == 2 {
            // t sorts before v[i]: insert here.
            let ghost vi = v@[i as int];
            v.insert(i, t);
            proof {
                assert(forall|j: int| 0 <= j < v@.len() && j < i ==> v@[j] == old_seq[j]);
                assert(v@[i as int]@ == t@);
                assert(forall|j: int| i < j < v@.len() ==> v@[j] == old_seq[j - 1]);
                assert forall|j: int, k: int| 0 <= j < k < v@.len() implies tri_lt(
                    v@[j]@,
                    v@[k]@,
                ) by {
                    if j < i && k == i {
                        assert(tri_lt(old_seq[j]@, t@));
                    } else if j == i && k > i {
                        assert(tri_lt(t@, vi@));
                        if k - 1 > i {
                            assert(tri_lt(old_seq[i as int]@, old_seq[k - 1]@));
                        }
                    } else if j < i && k > i {
                        assert(tri_lt(old_seq[j]@, old_seq[k - 1]@));
                    } else if j > i && k > i {
                        assert(tri_lt(old_seq[j - 1]@, old_seq[k - 1]@));
                    }
                }
                assert forall|u: Seq<u8>| tris_as_set(v@).contains(u) implies tris_as_set(
                    old_seq,
                ).insert(t@).contains(u) by {
                    let j = choose|j: int| 0 <= j < v@.len() && v@[j]@ == u;
                    if j < i {
                        assert(old_seq[j]@ == u);
                    } else if j > i {
                        assert(old_seq[j - 1]@ == u);
                    }
                }
                assert forall|u: Seq<u8>| tris_as_set(old_seq).insert(t@).contains(u) implies
                    tris_as_set(v@).contains(u) by {
                    if u == t@ {
                        assert(v@[i as int]@ == u);
                    } else {
                        let j = choose|j: int| 0 <= j < old_seq.len() && old_seq[j]@ == u;
                        if j < i {
                            assert(v@[j]@ == u);
                        } else {
                            assert(v@[j + 1]@ == u);
                        }
                    }
                }
                assert(tris_as_set(v@) =~= tris_as_set(old_seq).insert(t@));
            }
            return ;
        }
        i += 1;
    }
    v.push(t);
    proof {
        assert(forall|j: int| 0 <= j < old_seq.len() ==> v@[j] == old_seq[j]);
        assert(v@[v@.len() - 1]@ == t@);
        assert forall|u: Seq<u8>| tris_as_set(v@).contains(u) implies tris_as_set(old_seq).insert(
            t@,
        ).contains(u) by {
            let j = choose|j: int| 0 <= j < v@.len() && v@[j]@ == u;
            if j < old_seq.len() {
                assert(old_seq[j]@ == u);
            }
        }
        assert forall|u: Seq<u8>| tris_as_set(old_seq).insert(t@).contains(u) implies tris_as_set(
            v@,
        ).contains(u) by {
            if u == t@ {
                assert(v@[v@.len() - 1]@ == u);
            } else {
                let j = choose|j: int| 0 <= j < old_seq.len() && old_seq[j]@ == u;
                assert(v@[j]@ == u);
            }
        }
        assert(tris_as_set(v@) =~= tris_as_set(old_seq).insert(t@));
    }
}

/// Collect the distinct trigrams of `bytes`, sorted lexicographically.
///
/// Inputs shorter than 3 bytes yield the empty set. A trigram stands in the
/// result exactly when it occurs as an overlapping 3-byte window of the input.
pub fn collect_trigrams_bytes(bytes: &[u8]) -> (r: Vec<[u8; 3]>)
    ensures
        tris_sorted(r@),
        tris_as_set(r@) == trigram_set(bytes@),
        r@.len() <= bytes@.len(),
        bytes@.len() < 3 ==> r@.len() == 0,
{
    let mut out: Vec<[u8; 3]> = Vec::new();
    if bytes.len() < 3 {
        proof {
            assert(tris_as_set(out@) =~= trigram_set(bytes@));
        }
        return out;
    }
    let n = bytes.len();
    let mut i: usize = 0;
    while i <= n - 3
        invariant
            3 <= n == bytes@.len(),
            0 <= i <= n - 2,
            tris_sorted(out@),
            out@.len() <= i,
            tris_as_set(out@) == Set::new(
                |t: Seq<u8>|
                    exists|k: int| 0 <= k < i && k + 3 <= bytes@.len() && window_at(bytes@, k) == t,
            ),
        decreases n - i,
    {
        let t: [u8; 3] = [bytes[i], bytes[i + 1], bytes[i + 2]];
        proof {
            assert(t@ =~= window_at(bytes@, i as int));
        }
        let ghost before = tris_as_set(out@);
        insert_sorted(&mut out, t);
        proof {
            assert(tris_as_set(out@) =~= Set::new(
                |u: Seq<u8>|
                    exists|k: int|
                        0 <= k < i + 1 && k + 3 <= bytes@.len() && window_at(bytes@, k) == u,
            ));
        }
        i += 1;
    }
    proof {
        assert(tris_as_set(out@) =~= trigram_set(bytes@));
    }
    out
}

/// Collect the distinct trigrams of a text's raw UTF-8 bytes, sorted
/// lexicographically. Multi-byte characters contribute windows that cross
/// codepoint boundaries, since extraction sees only bytes.
pub fn collect_trigrams(text: &str) -> (r: Vec<[u8; 3]>)
    ensures
        tris_sorted(r@),
        tris_as_set(r@) == trigram_set(text.spec_bytes()),
        r@.len() <= text.spec_bytes().len(),
        text.spec_bytes().len() < 3 ==> r@.len() == 0,
{
    collect_trigrams_bytes(text.as_bytes())
}

/// `q` occurs as a contiguous byte substring of `c`.
pub open spec fn is_substring_of(q: Seq<u8>, c: Seq<u8>) -> bool {
    exists|i: int| 0 <= i && i + q.len() <= c.len() && #[trigger] c.subrange(i, i + q.len()) == q
}

/// Every trigram of a contiguous substring is a trigram of the whole text.
pub proof fn lemma_substring_trigrams(q: Seq<u8>, c: Seq<u8>)
    requires
        is_substring_of(q, c),
    ensures
        trigram_set(q).subset_of(trigram_set(c)),
{
    let i = choose|i: int|
        0 <= i && i + q.len() <= c.len() && #[trigger] c.subrange(i, i + q.len()) == q;
    assert forall|t: Seq<u8>| trigram_set(q).contains(t) implies trigram_set(c).contains(t) by {
        let j = choose|j: int| 0 <= j && j + 3 <= q.len() && window_at(q, j) == t;
        assert(window_at(c, i + j) =~= window_at(q, j));
    }
}

} // verus!
