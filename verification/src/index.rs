//! The writer side of the index: file-id allocation, transactional upsert
//! and remove over the store, and the batch processor.
//!
//! The abstract effect of every operation is given by the spec functions
//! below over `StoreModel`; the mutual consistency of the inverted
//! postings and the per-file trigram sets is the invariant `content_inv`,
//! preserved by every operation.

use vstd::prelude::*;
use vstd::string::StringExecFns;
use vstd::string::StringSliceAdditionalSpecFns;
use crate::codec::{blob_ok, blob_seq, blob_tris, blob_encode, decode_tris, encode_tris,
    lemma_blob_encode_groups, lemma_blob_encode_tris};
use crate::model::IndexError;
use crate::store::{Store, StoreModel, MAX_STORE_TS};
use crate::text::str_eq;

verus! {

// ---------------------------------------------------------------------------
// Abstract effects on the store model
// ---------------------------------------------------------------------------
/// Remove `id` from the posting of `t`, deleting the row when it empties.
pub open spec fn posting_rm(p: Map<Seq<u8>, Set<u32>>, id: u32, t: Seq<u8>) -> Map<
    Seq<u8>,
    Set<u32>,
> {
    if p.contains_key(t) {
        if p[t].remove(id) == Set::<u32>::empty() {
            p.remove(t)
        } else {
            p.insert(t, p[t].remove(id))
        }
    } else {
        p
    }
}

/// Remove `id` from the postings of every trigram in `ts`, in order.
pub open spec fn posting_rm_all(p: Map<Seq<u8>, Set<u32>>, id: u32, ts: Seq<Seq<u8>>) -> Map<
    Seq<u8>,
    Set<u32>,
>
    decreases ts.len(),
{
    if ts.len() == 0 {
        p
    } else {
        posting_rm_all(posting_rm(p, id, ts[0]), id, ts.drop_first())
    }
}

/// Add `id` to the posting of `t`, creating the row if absent.
pub open spec fn posting_ins(p: Map<Seq<u8>, Set<u32>>, id: u32, t: Seq<u8>) -> Map<
    Seq<u8>,
    Set<u32>,
> {
    if p.contains_key(t) {
        p.insert(t, p[t].insert(id))
    } else {
        p.insert(t, Set::empty().insert(id))
    }
}

/// Add `id` to the postings of every trigram in `ts`, in order.
pub open spec fn posting_ins_all(p: Map<Seq<u8>, Set<u32>>, id: u32, ts: Seq<Seq<u8>>) -> Map<
    Seq<u8>,
    Set<u32>,
>
    decreases ts.len(),
{
    if ts.len() == 0 {
        p
    } else {
        posting_ins_all(posting_ins(p, id, ts[0]), id, ts.drop_first())
    }
}

/// The stored per-file trigram list of `id`, empty when none is stored.
pub open spec fn stored_tris(m: StoreModel, id: u32) -> Seq<Seq<u8>> {
    if m.tris.contains_key(id) {
        blob_seq(m.tris[id])
    } else {
        Seq::empty()
    }
}

/// An upsert of `id` is stale when a row exists whose mtime is newer or
/// equal: the upsert is then a no-op.
pub open spec fn stale(m: StoreModel, id: u32, ts: u64) -> bool {
    m.files.contains_key(id) && m.files[id].1 >= ts
}

/// The effect of a non-stale upsert: the `files` row is written, the
/// per-file blob is replaced, the file id leaves the postings of its old
/// trigrams and enters those of the new ones.
pub open spec fn upsert_model(
    m: StoreModel,
    id: u32,
    path: Seq<char>,
    ts: u64,
    new_blob: Seq<u8>,
) -> StoreModel {
    StoreModel {
        files: m.files.insert(id, (path, ts)),
        tris: m.tris.insert(id, new_blob),
        postings: posting_ins_all(
            posting_rm_all(m.postings, id, stored_tris(m, id)),
            id,
            blob_seq(new_blob),
        ),
        ..m
    }
}

/// The effect of removing file `id`: its rows disappear and it leaves
/// every posting it stood in.
pub open spec fn remove_model(m: StoreModel, id: u32) -> StoreModel {
    StoreModel {
        files: m.files.remove(id),
        tris: m.tris.remove(id),
        postings: posting_rm_all(m.postings, id, stored_tris(m, id)),
        ..m
    }
}

// ---------------------------------------------------------------------------
// The consistency invariant
// ---------------------------------------------------------------------------
/// The mutual consistency of the three content tables: every stored blob
/// is well-formed, posting membership and per-file set membership agree,
/// no empty posting row is persisted, and every per-file row has a file
/// row.
pub open spec fn content_inv(m: StoreModel) -> bool {
    &&& forall|id: u32| m.tris.contains_key(id) ==> blob_ok(#[trigger] m.tris[id])
    &&& forall|id: u32| m.tris.contains_key(id) ==> m.files.contains_key(id)
    &&& forall|t: Seq<u8>, id: u32|
        m.postings.contains_key(t) && #[trigger] m.postings[t].contains(id) ==> m.tris.contains_key(
            id,
        ) && blob_tris(m.tris[id]).contains(t)
    &&& forall|t: Seq<u8>, id: u32|
        m.tris.contains_key(id) && #[trigger] blob_tris(m.tris[id]).contains(t)
            ==> m.postings.contains_key(t) && m.postings[t].contains(id)
    &&& forall|t: Seq<u8>|
        m.postings.contains_key(t) ==> #[trigger] m.postings[t] != Set::<u32>::empty()
}

/// Law: the empty state — a freshly created database before any upsert —
/// is consistent; every batch from there stays so.
pub proof fn lemma_empty_model_consistent()
    ensures
        content_inv(
            StoreModel {
                files: Map::empty(),
                tris: Map::empty(),
                postings: Map::empty(),
                meta: Map::empty(),
            },
        ),
{
}

/// Membership in the result of `posting_rm_all`: the removed id is gone
/// from the listed trigrams, everything else is untouched, and no empty
/// posting survives where one was emptied.
pub proof fn lemma_rm_all(p: Map<Seq<u8>, Set<u32>>, id: u32, ts: Seq<Seq<u8>>)
    ensures
        forall|t: Seq<u8>|
            #[trigger] posting_rm_all(p, id, ts).contains_key(t) <==> (p.contains_key(t) && !(
            ts.to_set().contains(t) && p[t].remove(id) == Set::<u32>::empty())),
        forall|t: Seq<u8>|
            posting_rm_all(p, id, ts).contains_key(t) ==> #[trigger] posting_rm_all(p, id, ts)[t]
                == (if ts.to_set().contains(t) {
                p[t].remove(id)
            } else {
                p[t]
            }),
    decreases ts.len(),
{
    if ts.len() == 0 {
        assert(ts.to_set() =~= Set::<Seq<u8>>::empty());
    } else {
        let h = ts[0];
        let rest = ts.drop_first();
        let p1 = posting_rm(p, id, h);
        lemma_rm_all(p1, id, rest);
        assert forall|t: Seq<u8>| ts.to_set().contains(t) implies t == h || rest.to_set().contains(
            t,
        ) by {
            let k = choose|k: int| 0 <= k < ts.len() && ts[k] == t;
            if k > 0 {
                assert(rest[k - 1] == t);
            }
        }
        assert forall|t: Seq<u8>| rest.to_set().contains(t) implies ts.to_set().contains(t) by {
            let k = choose|k: int| 0 <= k < rest.len() && rest[k] == t;
            assert(ts[k + 1] == t);
        }
        assert(ts.to_set().contains(h)) by {
            assert(ts[0] == h);
        }
        let q = posting_rm_all(p, id, ts);
        assert(q == posting_rm_all(p1, id, rest));
        assert forall|t: Seq<u8>| #[trigger] q.contains_key(t) <==> (p.contains_key(t) && !(
        ts.to_set().contains(t) && p[t].remove(id) == Set::<u32>::empty())) by {
            if t == h {
                if p.contains_key(h) {
                    if p[h].remove(id) == Set::<u32>::empty() {
                        assert(!p1.contains_key(h));
                    } else {
                        assert(p1.contains_key(h) && p1[h] == p[h].remove(id));
                        assert(p1[h].remove(id) =~= p[h].remove(id));
                    }
                } else {
                    assert(p1 == p);
                }
            } else {
                if p.contains_key(t) {
                    assert(p1.contains_key(t) && p1[t] == p[t]);
                } else {
                    assert(!p1.contains_key(t));
                }
            }
        }
        assert forall|t: Seq<u8>| q.contains_key(t) implies #[trigger] q[t] == (
        if ts.to_set().contains(t) {
            p[t].remove(id)
        } else {
            p[t]
        }) by {
            if t == h {
                assert(p.contains_key(h) && p[h].remove(id) != Set::<u32>::empty());
                assert(p1.contains_key(h) && p1[h] == p[h].remove(id));
                if rest.to_set().contains(h) {
                    assert(q[h] == p1[h].remove(id));
                    assert(p1[h].remove(id) =~= p[h].remove(id));
                } else {
                    assert(q[h] == p1[h]);
                }
            } else {
                if p.contains_key(t) {
                    assert(p1.contains_key(t) && p1[t] == p[t]);
                } else {
                    assert(!p1.contains_key(t));
                }
            }
        }
    }
}

/// Membership in the result of `posting_ins_all`: the id is present for
/// every listed trigram, everything else is untouched.
pub proof fn lemma_ins_all(p: Map<Seq<u8>, Set<u32>>, id: u32, ts: Seq<Seq<u8>>)
    ensures
        forall|t: Seq<u8>|
            #[trigger] posting_ins_all(p, id, ts).contains_key(t) <==> (p.contains_key(t)
                || ts.to_set().contains(t)),
        forall|t: Seq<u8>|
            posting_ins_all(p, id, ts).contains_key(t) ==> #[trigger] posting_ins_all(p, id, ts)[t]
                == (if ts.to_set().contains(t) {
                (if p.contains_key(t) {
                    p[t]
                } else {
                    Set::<u32>::empty()
                }).insert(id)
            } else {
                p[t]
            }),
    decreases ts.len(),
{
    if ts.len() == 0 {
        assert(ts.to_set() =~= Set::<Seq<u8>>::empty());
    } else {
        let h = ts[0];
        let rest = ts.drop_first();
        let p1 = posting_ins(p, id, h);
        lemma_ins_all(p1, id, rest);
        assert forall|t: Seq<u8>| ts.to_set().contains(t) implies t == h || rest.to_set().contains(
            t,
        ) by {
            let k = choose|k: int| 0 <= k < ts.len() && ts[k] == t;
            if k > 0 {
                assert(rest[k - 1] == t);
            }
        }
        assert forall|t: Seq<u8>| rest.to_set().contains(t) implies ts.to_set().contains(t) by {
            let k = choose|k: int| 0 <= k < rest.len() && rest[k] == t;
            assert(ts[k + 1] == t);
        }
        assert(ts.to_set().contains(h)) by {
            assert(ts[0] == h);
        }
        let q = posting_ins_all(p, id, ts);
        assert(q == posting_ins_all(p1, id, rest));
        let base_h = if p.contains_key(h) {
            p[h]
        } else {
            Set::<u32>::empty()
        };
        assert(p1.contains_key(h) && p1[h] == base_h.insert(id));
        assert forall|t: Seq<u8>| #[trigger] q.contains_key(t) <==> (p.contains_key(t)
            || ts.to_set().contains(t)) by {
            if t != h {
                if p.contains_key(t) {
                    assert(p1.contains_key(t) && p1[t] == p[t]);
                } else {
                    assert(!p1.contains_key(t));
                }
            }
        }
        assert forall|t: Seq<u8>| q.contains_key(t) implies #[trigger] q[t] == (
        if ts.to_set().contains(t) {
            (if p.contains_key(t) {
                p[t]
            } else {
                Set::<u32>::empty()
            }).insert(id)
        } else {
            p[t]
        }) by {
            if t == h {
                if rest.to_set().contains(h) {
                    assert(q[h] == p1[h].insert(id));
                    assert(p1[h].insert(id) =~= base_h.insert(id));
                } else {
                    assert(q[h] == p1[h]);
                }
            } else {
                if p.contains_key(t) {
                    assert(p1.contains_key(t) && p1[t] == p[t]);
                } else {
                    assert(!p1.contains_key(t));
                }
            }
        }
    }
}

/// A well-formed blob holds exactly the trigrams of its decoded list.
pub proof fn lemma_blob_seq_set(b: Seq<u8>)
    requires
        blob_ok(b),
    ensures
        blob_seq(b).to_set() == blob_tris(b),
{
    assert forall|t: Seq<u8>| blob_seq(b).to_set().contains(t) implies blob_tris(b).contains(
        t,
    ) by {
        let k = choose|k: int| 0 <= k < blob_seq(b).len() && blob_seq(b)[k] == t;
        assert(3 * k + 3 <= b.len()) by (nonlinear_arith)
            requires
                0 <= k < b.len() / 3,
                b.len() % 3 == 0,
        ;
        assert(b.subrange(3 * k, 3 * k + 3) == t);
    }
    assert forall|t: Seq<u8>| blob_tris(b).contains(t) implies blob_seq(b).to_set().contains(
        t,
    ) by {
        let k = choose|k: int| 0 <= k && 3 * k + 3 <= b.len() && #[trigger] b.subrange(
            3 * k,
            3 * k + 3,
        ) == t;
        assert(k < b.len() / 3) by (nonlinear_arith)
            requires
                0 <= k,
                3 * k + 3 <= b.len(),
                b.len() % 3 == 0,
        ;
        assert(blob_seq(b)[k] == t);
    }
    assert(blob_seq(b).to_set() =~= blob_tris(b));
}

/// The consistency invariant is preserved by a (non-stale) upsert.
pub proof fn lemma_upsert_preserves_inv(
    m: StoreModel,
    id: u32,
    path: Seq<char>,
    ts: u64,
    new_blob: Seq<u8>,
)
    requires
        content_inv(m),
        blob_ok(new_blob),
    ensures
        content_inv(upsert_model(m, id, path, ts, new_blob)),
{
    let old_ts = stored_tris(m, id);
    let p1 = posting_rm_all(m.postings, id, old_ts);
    let new_ts = blob_seq(new_blob);
    let m2 = upsert_model(m, id, path, ts, new_blob);
    lemma_rm_all(m.postings, id, old_ts);
    lemma_ins_all(p1, id, new_ts);
    lemma_blob_seq_set(new_blob);
    if m.tris.contains_key(id) {
        lemma_blob_seq_set(m.tris[id]);
    } else {
        assert(old_ts.to_set() =~= Set::<Seq<u8>>::empty());
    }
    assert forall|t: Seq<u8>, id2: u32|
        m2.postings.contains_key(t) && #[trigger] m2.postings[t].contains(id2) implies
        m2.tris.contains_key(id2) && blob_tris(m2.tris[id2]).contains(t) by {
        if id2 == id {
            if !new_ts.to_set().contains(t) {
                assert(p1.contains_key(t) && p1[t].contains(id));
                assert(m.postings[t].contains(id));
                assert(blob_tris(m.tris[id]).contains(t));
                assert(old_ts.to_set().contains(t));
                assert(false);
            }
            assert(blob_tris(new_blob).contains(t));
        } else {
            assert(m.postings.contains_key(t) && m.postings[t].contains(id2));
            assert(m2.tris[id2] == m.tris[id2]);
        }
    }
    assert forall|t: Seq<u8>, id2: u32|
        m2.tris.contains_key(id2) && #[trigger] blob_tris(m2.tris[id2]).contains(t) implies
        m2.postings.contains_key(t) && m2.postings[t].contains(id2) by {
        if id2 == id {
            assert(new_ts.to_set().contains(t));
        } else {
            assert(m.postings.contains_key(t) && m.postings[t].contains(id2));
            if new_ts.to_set().contains(t) {
            } else {
                assert(m.postings[t].remove(id).contains(id2));
            }
        }
    }
    assert forall|t: Seq<u8>| m2.postings.contains_key(t) implies #[trigger] m2.postings[t]
        != Set::<u32>::empty() by {
        if new_ts.to_set().contains(t) {
            assert(m2.postings[t].contains(id));
        } else {
            assert(p1.contains_key(t) && m2.postings[t] == p1[t]);
            if old_ts.to_set().contains(t) {
                assert(p1[t] == m.postings[t].remove(id));
                assert(p1[t] != Set::<u32>::empty());
            } else {
                assert(p1[t] == m.postings[t]);
            }
        }
    }
}

// ---------------------------------------------------------------------------
// Small executable helpers on posting vectors
// ---------------------------------------------------------------------------
/// One step of `take` extends the element set by the taken element.
proof fn lemma_take_to_set_step(v: Seq<u32>, i: int)
    requires
        0 <= i < v.len(),
    ensures
        v.take(i + 1).to_set() == v.take(i).to_set().insert(v[i]),
{
    assert forall|x: u32| v.take(i + 1).to_set().contains(x) implies v.take(i).to_set().insert(
        v[i],
    ).contains(x) by {
        let k = choose|k: int| 0 <= k < v.take(i + 1).len() && #[trigger] v.take(i + 1)[k] == x;
        if k < i {
            assert(v.take(i)[k] == x);
        }
    }
    assert forall|x: u32| v.take(i).to_set().insert(v[i]).contains(x) implies v.take(
        i + 1,
    ).to_set().contains(x) by {
        if x == v[i] {
            assert(v.take(i + 1)[i] == x);
        } else {
            let k = choose|k: int| 0 <= k < v.take(i).len() && v.take(i)[k] == x;
            assert(v.take(i + 1)[k] == x);
        }
    }
    assert(v.take(i + 1).to_set() =~= v.take(i).to_set().insert(v[i]));
}

/// The ids of `v` without `x`.
fn remove_id(v: &Vec<u32>, x: u32) -> (r: Vec<u32>)
    ensures
        r@.to_set() == v@.to_set().remove(x),
        r@.len() == 0 <==> v@.to_set().remove(x) == Set::<u32>::empty(),
{
    let mut out: Vec<u32> = Vec::new();
    let mut i: usize = 0;
    while i < v.len()
        invariant
            0 <= i <= v@.len(),
            out@.to_set() == v@.take(i as int).to_set().remove(x),
            forall|k: int| 0 <= k < out@.len() ==> out@[k] != x,
        decreases v@.len() - i,
    {
        proof {
            lemma_take_to_set_step(v@, i as int);
        }
        let e = v[i];
        if e != x {
            let ghost pre = out@;
            out.push(e);
            proof {
                assert forall|y: u32| out@.to_set().contains(y) implies pre.to_set().insert(
                    e,
                ).contains(y) by {
                    let k = choose|k: int| 0 <= k < out@.len() && out@[k] == y;
                    if k < pre.len() {
                        assert(pre[k] == y);
                    }
                }
                assert forall|y: u32| pre.to_set().insert(e).contains(y) implies
                    out@.to_set().contains(y) by {
                    if y == e {
                        assert(out@[out@.len() - 1] == y);
                    } else {
                        let k = choose|k: int| 0 <= k < pre.len() && pre[k] == y;
                        assert(out@[k] == y);
                    }
                }
                assert(out@.to_set() =~= pre.to_set().insert(e));
                assert(out@.to_set() =~= v@.take(i + 1).to_set().remove(x));
            }
        } else {
            proof {
                assert(out@.to_set() =~= v@.take(i + 1).to_set().remove(x));
            }
        }
        i += 1;
    }
    proof {
        assert(v@.take(v@.len() as int) =~= v@);
        if out@.len() == 0 {
            assert(out@.to_set() =~= Set::<u32>::empty());
        } else {
            assert(out@.to_set().contains(out@[0]));
        }
    }
    out
}

/// The ids of `v` with `x` added.
fn insert_id(v: Vec<u32>, x: u32) -> (r: Vec<u32>)
    ensures
        r@.to_set() == v@.to_set().insert(x),
{
    let ghost orig = v@;
    let mut out = v;
    let mut i: usize = 0;
    let mut found = false;
    while i < out.len()
        invariant
            0 <= i <= out@.len(),
            out@ == orig,
            found ==> orig.to_set().contains(x),
            !found ==> forall|k: int| 0 <= k < i ==> orig[k] != x,
        decreases out@.len() - i,
    {
        if out[i] == x {
            found = true;
            proof {
                assert(orig.to_set().contains(x));
            }
        }
        i += 1;
    }
    if found {
        proof {
            assert(out@.to_set() =~= orig.to_set().insert(x));
        }
        out
    } else {
        out.push(x);
        proof {
            assert forall|y: u32| out@.to_set().contains(y) implies orig.to_set().insert(
                x,
            ).contains(y) by {
                let k = choose|k: int| 0 <= k < out@.len() && out@[k] == y;
                if k < orig.len() {
                    assert(orig[k] == y);
                }
            }
            assert forall|y: u32| orig.to_set().insert(x).contains(y) implies
                out@.to_set().contains(y) by {
                if y == x {
                    assert(out@[out@.len() - 1] == y);
                } else {
                    let k = choose|k: int| 0 <= k < orig.len() && orig[k] == y;
                    assert(out@[k] == y);
                }
            }
            assert(out@.to_set() =~= orig.to_set().insert(x));
        }
        out
    }
}

// ---------------------------------------------------------------------------
// File id allocation
// ---------------------------------------------------------------------------
/// The path-to-id map an association list holds.
spec fn pairs_map(s: Seq<(String, u32)>) -> Map<Seq<char>, u32> {
    Map::new(
        |p: Seq<char>| exists|k: int| 0 <= k < s.len() && (#[trigger] s[k]).0@ == p,
        |p: Seq<char>|
            s[choose|k: int| 0 <= k < s.len() && (#[trigger] s[k]).0@ == p].1,
    )
}

/// The association list binds each path at most once.
spec fn pairs_distinct(s: Seq<(String, u32)>) -> bool {
    forall|k1: int, k2: int|
        0 <= k1 < k2 < s.len() ==> (#[trigger] s[k1]).0@ != (#[trigger] s[k2]).0@
}

/// A bound entry determines the map's value at its path.
proof fn lemma_pairs_map_at(s: Seq<(String, u32)>, k: int)
    requires
        pairs_distinct(s),
        0 <= k < s.len(),
    ensures
        pairs_map(s).contains_key(s[k].0@),
        pairs_map(s)[s[k].0@] == s[k].1,
{
    let p = s[k].0@;
    let k2 = choose|k2: int| 0 <= k2 < s.len() && (#[trigger] s[k2]).0@ == p;
    if k2 != k {
        assert(false);
    }
}

/// Appending a fresh binding inserts it into the map.
proof fn lemma_pairs_map_push(s: Seq<(String, u32)>, path: String, id: u32)
    requires
        pairs_distinct(s),
        !pairs_map(s).contains_key(path@),
    ensures
        pairs_distinct(s.push((path, id))),
        pairs_map(s.push((path, id))) == pairs_map(s).insert(path@, id),
{
    let s2 = s.push((path, id));
    assert forall|k1: int, k2: int|
        0 <= k1 < k2 < s2.len() implies (#[trigger] s2[k1]).0@ != (#[trigger] s2[k2]).0@ by {
        if k2 == s.len() {
            assert(s2[k1] == s[k1]);
            if s[k1].0@ == path@ {
                assert(pairs_map(s).contains_key(path@));
            }
        } else {
            assert(s2[k1] == s[k1] && s2[k2] == s[k2]);
        }
    }
    assert forall|p: Seq<char>|
        #[trigger] pairs_map(s2).contains_key(p) <==> pairs_map(s).insert(
            path@,
            id,
        ).contains_key(p) by {
        if p == path@ {
            assert((s2[s.len() as int]).0@ == p);
        } else {
            if pairs_map(s2).contains_key(p) {
                let k = choose|k: int| 0 <= k < s2.len() && (#[trigger] s2[k]).0@ == p;
                assert(k < s.len());
                assert(s[k].0@ == p);
            }
            if pairs_map(s).contains_key(p) {
                let k = choose|k: int| 0 <= k < s.len() && (#[trigger] s[k]).0@ == p;
                assert(s2[k].0@ == p);
            }
        }
    }
    assert forall|p: Seq<char>| pairs_map(s2).contains_key(p) implies #[trigger] pairs_map(s2)[p]
        == pairs_map(s).insert(path@, id)[p] by {
        if p == path@ {
            lemma_pairs_map_at(s2, s.len() as int);
        } else {
            let k = choose|k: int| 0 <= k < s2.len() && (#[trigger] s2[k]).0@ == p;
            assert(k < s.len());
            lemma_pairs_map_at(s2, k);
            lemma_pairs_map_at(s, k);
        }
    }
    assert(pairs_map(s2) =~= pairs_map(s).insert(path@, id));
}

/// Removing a binding removes its path from the map.
proof fn lemma_pairs_map_remove(s: Seq<(String, u32)>, k: int)
    requires
        pairs_distinct(s),
        0 <= k < s.len(),
    ensures
        pairs_distinct(s.remove(k)),
        pairs_map(s.remove(k)) == pairs_map(s).remove(s[k].0@),
{
    let s2 = s.remove(k);
    let p0 = s[k].0@;
    assert forall|k1: int, k2: int|
        0 <= k1 < k2 < s2.len() implies (#[trigger] s2[k1]).0@ != (#[trigger] s2[k2]).0@ by {
        let j1 = if k1 < k {
            k1
        } else {
            k1 + 1
        };
        let j2 = if k2 < k {
            k2
        } else {
            k2 + 1
        };
        assert(s2[k1] == s[j1] && s2[k2] == s[j2]);
    }
    assert forall|p: Seq<char>|
        #[trigger] pairs_map(s2).contains_key(p) <==> pairs_map(s).remove(p0).contains_key(p) by {
        if pairs_map(s2).contains_key(p) {
            let j = choose|j: int| 0 <= j < s2.len() && (#[trigger] s2[j]).0@ == p;
            let j2 = if j < k {
                j
            } else {
                j + 1
            };
            assert(s[j2].0@ == p);
            if p == p0 {
                assert(false);
            }
        }
        if pairs_map(s).remove(p0).contains_key(p) {
            let j = choose|j: int| 0 <= j < s.len() && (#[trigger] s[j]).0@ == p;
            assert(j != k);
            let j2 = if j < k {
                j
            } else {
                j - 1
            };
            assert(s2[j2].0@ == p);
        }
    }
    assert forall|p: Seq<char>| pairs_map(s2).contains_key(p) implies #[trigger] pairs_map(s2)[p]
        == pairs_map(s).remove(p0)[p] by {
        let j = choose|j: int| 0 <= j < s2.len() && (#[trigger] s2[j]).0@ == p;
        let j2 = if j < k {
            j
        } else {
            j + 1
        };
        assert(s[j2].0@ == p);
        lemma_pairs_map_at(s2, j);
        lemma_pairs_map_at(s, j2);
    }
    assert(pairs_map(s2) =~= pairs_map(s).remove(p0));
}

/// Every value of the map is the id of one of the bound pairs.
proof fn lemma_pairs_map_values(s: Seq<(String, u32)>)
    requires
        pairs_distinct(s),
    ensures
        forall|p: Seq<char>|
            #[trigger] pairs_map(s).contains_key(p) ==> exists|k: int|
                0 <= k < s.len() && (#[trigger] s[k]).0@ == p && s[k].1 == pairs_map(s)[p],
{
    assert forall|p: Seq<char>| #[trigger] pairs_map(s).contains_key(p) implies exists|k: int|
        0 <= k < s.len() && (#[trigger] s[k]).0@ == p && s[k].1 == pairs_map(s)[p] by {
        let k = choose|k: int| 0 <= k < s.len() && (#[trigger] s[k]).0@ == p;
        lemma_pairs_map_at(s, k);
    }
}

/// The result of allocating an id for `p`: the id, the new map, the new
/// next counter. A known path keeps its id; a fresh path takes the next
/// counter value, which then advances, saturating.
pub open spec fn alloc_spec(m: Map<Seq<char>, u32>, nx: u32, p: Seq<char>) -> (
    u32,
    Map<Seq<char>, u32>,
    u32,
) {
    if m.contains_key(p) {
        (m[p], m, nx)
    } else {
        (nx, m.insert(p, nx), if nx == u32::MAX {
            nx
        } else {
            (nx + 1) as u32
        })
    }
}

/// The writer's private path-to-id map and the id counter.
pub struct FileIdState {
    pairs: Vec<(String, u32)>,
    next_file_id: u32,
}

impl FileIdState {
    /// The map this state holds.
    pub closed spec fn map(&self) -> Map<Seq<char>, u32> {
        pairs_map(self.pairs@)
    }

    /// The next id to allocate.
    pub closed spec fn next(&self) -> u32 {
        self.next_file_id
    }

    /// Each path is bound at most once, and — until the counter
    /// saturates — every bound id lies below it, so a fresh id never
    /// re-binds an id another path holds.
    pub closed spec fn wf(&self) -> bool {
        &&& pairs_distinct(self.pairs@)
        &&& forall|k: int|
            0 <= k < self.pairs@.len() ==> ((#[trigger] self.pairs@[k]).1 < self.next_file_id
                || self.next_file_id == u32::MAX)
    }

    /// An empty state; ids start at 1.
    pub fn new() -> (r: FileIdState)
        ensures
            r.wf(),
            r.map() == Map::<Seq<char>, u32>::empty(),
            r.next() == 1u32,
    {
        let r = FileIdState { pairs: Vec::new(), next_file_id: 1 };
        proof {
            assert(r.map() =~= Map::<Seq<char>, u32>::empty());
        }
        r
    }

    /// The position of `path` in the list, if bound.
    fn find(&self, path: &str) -> (r: Option<usize>)
        requires
            self.wf(),
        ensures
            match r {
                Option::Some(k) => k < self.pairs@.len() && self.pairs@[k as int].0@ == path@
                    && self.map().contains_key(path@) && self.map()[path@] == self.pairs@[
                    k as int].1,
                Option::None => !self.map().contains_key(path@),
            },
    {
        let mut k: usize = 0;
        while k < self.pairs.len()
            invariant
                0 <= k <= self.pairs@.len(),
                self.wf(),
                forall|j: int| 0 <= j < k ==> (#[trigger] self.pairs@[j]).0@ != path@,
            decreases self.pairs@.len() - k,
        {
            if str_eq(self.pairs[k].0.as_str(), path) {
                proof {
                    lemma_pairs_map_at(self.pairs@, k as int);
                }
                return Some(k);
            }
            k += 1;
        }
        None
    }

    /// Register a binding loaded from the store; advances the counter past
    /// the given id.
    pub fn add_known(&mut self, path: String, id: u32)
        requires
            old(self).wf(),
            !old(self).map().contains_key(path@),
        ensures
            final(self).wf(),
            final(self).map() == old(self).map().insert(path@, id),
            final(self).next() == if id >= old(self).next() {
                (if id == u32::MAX {
                    u32::MAX
                } else {
                    (id + 1) as u32
                })
            } else {
                old(self).next()
            },
    {
        proof {
            lemma_pairs_map_push(self.pairs@, path, id);
        }
        if id >= self.next_file_id {
            self.next_file_id = if id == u32::MAX {
                u32::MAX
            } else {
                id + 1
            };
        }
        self.pairs.push((path, id));
    }

    /// The id bound to `path`, allocating a fresh one when none is. A
    /// fresh id differs from every id already bound to another path, so
    /// an issued id never re-binds, as long as the counter has not
    /// saturated.
    pub fn get_or_create_file_id(&mut self, path: &str) -> (id: u32)
        requires
            old(self).wf(),
        ensures
            final(self).wf(),
            (id, final(self).map(), final(self).next()) == alloc_spec(
                old(self).map(),
                old(self).next(),
                path@,
            ),
            !old(self).map().contains_key(path@) && old(self).next() < u32::MAX ==> forall|
                p: Seq<char>,
            | #[trigger] old(self).map().contains_key(p) ==> old(self).map()[p] != id,
    {
        proof {
            lemma_pairs_map_values(self.pairs@);
        }
        match self.find(path) {
            Option::Some(k) => self.pairs[k].1,
            Option::None => {
                let id = self.next_file_id;
                let owned = path.to_owned();
                proof {
                    lemma_pairs_map_push(self.pairs@, owned, id);
                }
                self.pairs.push((owned, id));
                if self.next_file_id != u32::MAX {
                    self.next_file_id += 1;
                }
                id
            },
        }
    }

    /// A copy of this state, for restoring after an abandoned batch.
    pub fn snapshot(&self) -> (r: FileIdState)
        ensures
            r.map() == self.map(),
            r.next() == self.next(),
            r.wf() == self.wf(),
    {
        let mut pairs: Vec<(String, u32)> = Vec::new();
        let mut k: usize = 0;
        while k < self.pairs.len()
            invariant
                0 <= k <= self.pairs@.len(),
                pairs@.len() == k,
                forall|j: int| 0 <= j < k ==> pairs@[j] == self.pairs@[j],
            decreases self.pairs@.len() - k,
        {
            let (p, id) = &self.pairs[k];
            pairs.push((p.clone(), *id));
            k += 1;
        }
        proof {
            assert(pairs@ =~= self.pairs@);
        }
        FileIdState { pairs, next_file_id: self.next_file_id }
    }

    /// Drop the binding of `path`, handing back its id.
    pub fn remove_file_id(&mut self, path: &str) -> (r: Option<u32>)
        requires
            old(self).wf(),
        ensures
            final(self).wf(),
            final(self).next() == old(self).next(),
            final(self).map() == old(self).map().remove(path@),
            r == if old(self).map().contains_key(path@) {
                Option::Some(old(self).map()[path@])
            } else {
                Option::None::<u32>
            },
            r is None ==> final(self).map() == old(self).map(),
    {
        match self.find(path) {
            Option::Some(k) => {
                proof {
                    lemma_pairs_map_remove(self.pairs@, k as int);
                }
                let (_, id) = self.pairs.remove(k);
                Some(id)
            },
            Option::None => {
                proof {
                    assert(self.map().remove(path@) =~= self.map());
                }
                None
            },
        }
    }
}

/// The consistency invariant is preserved by a remove.
pub proof fn lemma_remove_preserves_inv(m: StoreModel, id: u32)
    requires
        content_inv(m),
    ensures
        content_inv(remove_model(m, id)),
{
    let old_ts = stored_tris(m, id);
    let m2 = remove_model(m, id);
    lemma_rm_all(m.postings, id, old_ts);
    if m.tris.contains_key(id) {
        lemma_blob_seq_set(m.tris[id]);
    } else {
        assert(old_ts.to_set() =~= Set::<Seq<u8>>::empty());
    }
    assert forall|t: Seq<u8>, id2: u32|
        m2.postings.contains_key(t) && #[trigger] m2.postings[t].contains(id2) implies
        m2.tris.contains_key(id2) && blob_tris(m2.tris[id2]).contains(t) by {
        assert(m.postings.contains_key(t) && m.postings[t].contains(id2));
        if id2 == id {
            assert(blob_tris(m.tris[id]).contains(t));
            assert(old_ts.to_set().contains(t));
            if old_ts.to_set().contains(t) {
                assert(!m2.postings[t].contains(id));
            }
            assert(false);
        }
    }
    assert forall|t: Seq<u8>, id2: u32|
        m2.tris.contains_key(id2) && #[trigger] blob_tris(m2.tris[id2]).contains(t) implies
        m2.postings.contains_key(t) && m2.postings[t].contains(id2) by {
        assert(id2 != id);
        assert(m.postings.contains_key(t) && m.postings[t].contains(id2));
        if old_ts.to_set().contains(t) {
            assert(m.postings[t].remove(id).contains(id2));
        }
    }
    assert forall|t: Seq<u8>| m2.postings.contains_key(t) implies #[trigger] m2.postings[t]
        != Set::<u32>::empty() by {
        if old_ts.to_set().contains(t) {
            assert(m2.postings[t] == m.postings[t].remove(id));
        } else {
            assert(m2.postings[t] == m.postings[t]);
        }
    }
}

// ---------------------------------------------------------------------------
// The transactional writer operations
// ---------------------------------------------------------------------------
/// Remove `id` from the posting of every listed trigram, deleting each
/// posting row that empties; the cleanup step shared by upsert and
/// remove.
fn clear_postings(store: &mut Store, id: u32, tris: &Vec<[u8; 3]>) -> (r: Result<(), IndexError>)
    ensures
        final(store).saved_state@ == old(store).saved_state@,
        r is Ok ==> ({
            let pre = old(store).model();
            let post = final(store).model();
            &&& final(store).tx_open@ == old(store).tx_open@
            &&& post.files == pre.files
            &&& post.tris == pre.tris
            &&& post.meta == pre.meta
            &&& post.postings == posting_rm_all(
                pre.postings,
                id,
                tris@.map_values(|a: [u8; 3]| a@),
            )
        }),
        r is Err ==> Store::write_err_frame(*old(store), *final(store)),
{
    let ghost m0 = store.model();
    let ghost old_list = tris@.map_values(|a: [u8; 3]| a@);
    proof {
        assert(old_list.skip(0) =~= old_list);
    }
    let mut i: usize = 0;
    while i < tris.len()
        invariant
            0 <= i <= tris@.len(),
            old_list == tris@.map_values(|a: [u8; 3]| a@),
            m0 == old(store).model(),
            store.model().files == m0.files,
            store.model().tris == m0.tris,
            store.model().meta == m0.meta,
            store.saved_state@ == old(store).saved_state@,
            store.tx_open@ == old(store).tx_open@,
            posting_rm_all(store.model().postings, id, old_list.skip(i as int))
                == posting_rm_all(m0.postings, id, old_list),
        decreases tris@.len() - i,
    {
        let t = tris[i];
        let ghost p_now = store.model().postings;
        proof {
            assert(old_list.skip(i as int)[0] == old_list[i as int]);
            assert(old_list.skip(i as int).drop_first() =~= old_list.skip(i as int + 1));
            assert(old_list[i as int] == t@);
        }
        match store.posting(&t)? {
            Option::None => {
                proof {
                    assert(posting_rm(p_now, id, t@) == p_now);
                }
            },
            Option::Some(v) => {
                let v2 = remove_id(&v, id);
                if v2.len() == 0 {
                    store.delete_posting(&t)?;
                    proof {
                        assert(p_now[t@].remove(id) == Set::<u32>::empty());
                        assert(store.model().postings == posting_rm(p_now, id, t@));
                    }
                } else {
                    store.put_posting(&t, &v2)?;
                    proof {
                        assert(v2@.to_set() == p_now[t@].remove(id));
                        assert(store.model().postings == posting_rm(p_now, id, t@));
                    }
                }
            },
        }
        i += 1;
    }
    proof {
        assert(old_list.skip(old_list.len() as int) =~= Seq::<Seq<u8>>::empty());
    }
    Ok(())
}

/// Upsert one file: allocate or look up its id, skip the write when the
/// stored mtime is not older (the staleness guard), then replace the
/// `files` row, the per-file blob, and the id's posting memberships.
pub fn upsert_file(
    ids: &mut FileIdState,
    store: &mut Store,
    path: &str,
    modified_ts: u64,
    trigrams: &Vec<[u8; 3]>,
) -> (r: Result<(), IndexError>)
    requires
        old(ids).wf(),
        modified_ts <= MAX_STORE_TS,
        trigrams@.len() * 3 <= usize::MAX,
    ensures
        final(ids).wf(),
        final(ids).map() == alloc_spec(old(ids).map(), old(ids).next(), path@).1,
        final(ids).next() == alloc_spec(old(ids).map(), old(ids).next(), path@).2,
        r is Err ==> Store::write_err_frame(*old(store), *final(store)),
        r is Ok ==> Store::same_tx(*old(store), *final(store)) && final(store).model().meta == old(
            store,
        ).model().meta,
        r is Ok ==> ({
            let id = alloc_spec(old(ids).map(), old(ids).next(), path@).0;
            if stale(old(store).model(), id, modified_ts) {
                final(store).model() == old(store).model()
            } else {
                final(store).model() == upsert_model(
                    old(store).model(),
                    id,
                    path@,
                    modified_ts,
                    blob_encode(trigrams@),
                )
            }
        }),
{
    let ghost m0 = store.model();
    let ghost sv0 = store.saved_state@;
    let ghost tx0 = store.tx_open@;
    let id = ids.get_or_create_file_id(path);
    let existing = store.file_mtime(id)?;
    if let Some(last) = existing {
        if last >= modified_ts {
            return Ok(());
        }
    }
    store.upsert_file_row(id, path, modified_ts)?;
    let ghost m1 = store.model();
    let old_blob_opt = store.file_tris_blob(id)?;
    let ghost old_list = stored_tris(m0, id);
    match old_blob_opt {
        Option::None => {
            proof {
                assert(old_list =~= Seq::<Seq<u8>>::empty());
            }
        },
        Option::Some(blob) => {
            let old_tris = match decode_tris(&blob) {
                Option::Some(v) => v,
                Option::None => {
                    return Err(IndexError::Encode("corrupt per-file trigram blob".to_owned()));
                },
            };
            proof {
                assert(blob@ == m0.tris[id]);
                assert(old_tris@.map_values(|a: [u8; 3]| a@) =~= old_list);
            }
            match clear_postings(store, id, &old_tris) {
                Result::Ok(()) => {},
                Result::Err(e) => {
                    return Err(e);
                },
            }
        },
    }
    proof {
        assert(posting_rm_all(store.model().postings, id, Seq::<Seq<u8>>::empty())
            == store.model().postings);
    }
    let new_blob = encode_tris(trigrams);
    store.put_file_tris_blob(id, &new_blob)?;
    let ghost m2 = store.model();
    let ghost new_list = blob_seq(blob_encode(trigrams@));
    proof {
        lemma_blob_encode_groups(trigrams@);
        assert(new_list.len() == trigrams@.len());
        assert(forall|k: int|
            0 <= k < trigrams@.len() ==> new_list[k] == (#[trigger] trigrams@[k])@);
        assert(new_list.skip(0) =~= new_list);
    }
    let mut i: usize = 0;
    while i < trigrams.len()
        invariant
            0 <= i <= trigrams@.len(),
            new_list.len() == trigrams@.len(),
            forall|k: int| 0 <= k < trigrams@.len() ==> new_list[k] == (#[trigger] trigrams@[k])@,
            store.model().files == m2.files,
            store.model().tris == m2.tris,
            store.model().meta == m2.meta,

            store.saved_state@ == sv0,
            store.tx_open@ == tx0,
            Store::same_tx(*old(store), *store),
            store.model().meta == old(store).model().meta,

            ids.wf(),
            ids.map() == alloc_spec(old(ids).map(), old(ids).next(), path@).1,
            ids.next() == alloc_spec(old(ids).map(), old(ids).next(), path@).2,
            posting_ins_all(store.model().postings, id, new_list.skip(i as int))
                == posting_ins_all(m2.postings, id, new_list),
        decreases trigrams@.len() - i,
    {
        let t = trigrams[i];
        let ghost p_now = store.model().postings;
        proof {
            assert(new_list.skip(i as int)[0] == new_list[i as int]);
            assert(new_list.skip(i as int).drop_first() =~= new_list.skip(i as int + 1));
        }
        let v2 = match store.posting(&t)? {
            Option::None => {
                let mut w: Vec<u32> = Vec::new();
                w.push(id);
                proof {
                    assert forall|y: u32| w@.to_set().contains(y) implies Set::<
                        u32,
                    >::empty().insert(id).contains(y) by {
                        let k = choose|k: int| 0 <= k < w@.len() && w@[k] == y;
                    }
                    assert(w@.to_set().contains(id)) by {
                        assert(w@[0] == id);
                    }
                    assert(w@.to_set() =~= Set::<u32>::empty().insert(id));
                }
                w
            },
            Option::Some(v) => insert_id(v, id),
        };
        store.put_posting(&t, &v2)?;
        proof {
            assert(store.model().postings == posting_ins(p_now, id, t@));
        }
        i += 1;
    }
    proof {
        assert(new_list.skip(new_list.len() as int) =~= Seq::<Seq<u8>>::empty());
        assert(store.model() =~= upsert_model(m0, id, path@, modified_ts, blob_encode(trigrams@)));
    }
    Ok(())
}

/// Remove one file by path: a path the writer does not know is a no-op;
/// otherwise the id leaves every posting it stood in and both its rows are
/// deleted.
pub fn remove_file(ids: &mut FileIdState, store: &mut Store, path: &str) -> (r: Result<
    (),
    IndexError,
>)
    requires
        old(ids).wf(),
    ensures
        final(ids).wf(),
        final(ids).map() == old(ids).map().remove(path@),
        final(ids).next() == old(ids).next(),
        r is Err ==> Store::write_err_frame(*old(store), *final(store)),
        r is Ok ==> Store::same_tx(*old(store), *final(store)) && final(store).model().meta == old(
            store,
        ).model().meta,
        r is Ok ==> (if old(ids).map().contains_key(path@) {
            final(store).model() == remove_model(old(store).model(), old(ids).map()[path@])
        } else {
            final(store).model() == old(store).model()
        }),
        !old(ids).map().contains_key(path@) ==> r is Ok && final(store).model() == old(
            store,
        ).model() && Store::same_tx(*old(store), *final(store)),
{
    let ghost m0 = store.model();
    let id = match ids.remove_file_id(path) {
        Option::Some(id) => id,
        Option::None => {
            return Ok(());
        },
    };
    let old_blob_opt = store.file_tris_blob(id)?;
    let ghost old_list = stored_tris(m0, id);
    match old_blob_opt {
        Option::None => {
            proof {
                assert(old_list =~= Seq::<Seq<u8>>::empty());
            }
        },
        Option::Some(blob) => {
            let old_tris = match decode_tris(&blob) {
                Option::Some(v) => v,
                Option::None => {
                    return Err(IndexError::Encode("corrupt per-file trigram blob".to_owned()));
                },
            };
            proof {
                assert(blob@ == m0.tris[id]);
                assert(old_tris@.map_values(|a: [u8; 3]| a@) =~= old_list);
            }
            match clear_postings(store, id, &old_tris) {
                Result::Ok(()) => {},
                Result::Err(e) => {
                    return Err(e);
                },
            }
        },
    }
    proof {
        assert(posting_rm_all(store.model().postings, id, Seq::<Seq<u8>>::empty())
            == store.model().postings);
    }
    store.delete_file_tris(id)?;
    store.delete_file_row(id)?;
    proof {
        assert(store.model() =~= remove_model(m0, id));
    }
    Ok(())
}

// ---------------------------------------------------------------------------
// Jobs and batches
// ---------------------------------------------------------------------------
/// One job for the writer.
pub enum IndexPayload {
    /// Write or refresh one file's rows and postings.
    UpsertFile { path: String, modified_ts: u64, trigrams: Vec<[u8; 3]> },
    /// Drop one file's rows and postings.
    RemoveFile { path: String },
    /// Commit the batch; carries no change of its own.
    Flush,
}

/// The bounds a job must respect so the store can hold it.
pub open spec fn job_ok(p: IndexPayload) -> bool {
    match p {
        IndexPayload::UpsertFile { path, modified_ts, trigrams } => modified_ts <= MAX_STORE_TS
            && trigrams@.len() * 3 <= usize::MAX,
        IndexPayload::RemoveFile { path } => true,
        IndexPayload::Flush => true,
    }
}

/// The writer's whole abstract state: the store contents, the private
/// path-to-id map and the id counter.
#[verifier::ext_equal]
pub struct WriterState {
    pub m: StoreModel,
    pub ids: Map<Seq<char>, u32>,
    pub next: u32,
}

/// The effect of one job on the writer state.
pub open spec fn step(s: WriterState, op: IndexPayload) -> WriterState {
    match op {
        IndexPayload::UpsertFile { path, modified_ts, trigrams } => {
            let a = alloc_spec(s.ids, s.next, path@);
            WriterState {
                m: if stale(s.m, a.0, modified_ts) {
                    s.m
                } else {
                    upsert_model(s.m, a.0, path@, modified_ts, blob_encode(trigrams@))
                },
                ids: a.1,
                next: a.2,
            }
        },
        IndexPayload::RemoveFile { path } => WriterState {
            m: if s.ids.contains_key(path@) {
                remove_model(s.m, s.ids[path@])
            } else {
                s.m
            },
            ids: s.ids.remove(path@),
            next: s.next,
        },
        IndexPayload::Flush => s,
    }
}

/// The effect of a whole batch, applied in arrival order.
pub open spec fn run_ops(s: WriterState, ops: Seq<IndexPayload>) -> WriterState
    decreases ops.len(),
{
    if ops.len() == 0 {
        s
    } else {
        run_ops(step(s, ops[0]), ops.drop_first())
    }
}

/// Every batch keeps the postings and the per-file sets mutually
/// consistent: the invariant holds after any sequence of jobs applied to a
/// consistent state.
pub proof fn lemma_batch_preserves_inv(s: WriterState, ops: Seq<IndexPayload>)
    requires
        content_inv(s.m),
    ensures
        content_inv(run_ops(s, ops).m),
    decreases ops.len(),
{
    if ops.len() > 0 {
        let s2 = step(s, ops[0]);
        match ops[0] {
            IndexPayload::UpsertFile { path, modified_ts, trigrams } => {
                let a = alloc_spec(s.ids, s.next, path@);
                if !stale(s.m, a.0, modified_ts) {
                    lemma_blob_encode_tris(trigrams@);
                    lemma_upsert_preserves_inv(
                        s.m,
                        a.0,
                        path@,
                        modified_ts,
                        blob_encode(trigrams@),
                    );
                }
            },
            IndexPayload::RemoveFile { path } => {
                if s.ids.contains_key(path@) {
                    lemma_remove_preserves_inv(s.m, s.ids[path@]);
                }
            },
            IndexPayload::Flush => {},
        }
        lemma_batch_preserves_inv(s2, ops.drop_first());
    }
}

/// Law: re-indexing a file whose stored mtime is not older than the
/// offered one leaves the store contents unchanged.
pub proof fn lemma_stale_upsert_noop(s: WriterState, path: String, ts: u64, trigrams: Vec<[u8; 3]>)
    requires
        stale(s.m, alloc_spec(s.ids, s.next, path@).0, ts),
    ensures
        step(s, IndexPayload::UpsertFile { path, modified_ts: ts, trigrams }).m == s.m,
{
}

// ---------------------------------------------------------------------------
// The persistent index
// ---------------------------------------------------------------------------
/// The writable index: the store handle, the writer's private path-to-id
/// state, and the jobs accepted since the last flush.
pub struct PersistentIndex {
    store: Store,
    ids: FileIdState,
    pending: Vec<IndexPayload>,
}

impl PersistentIndex {
    /// The store contents.
    pub closed spec fn model(&self) -> StoreModel {
        self.store.model()
    }

    /// The writer's path-to-id map.
    pub closed spec fn id_map(&self) -> Map<Seq<char>, u32> {
        self.ids.map()
    }

    /// The next file id to allocate.
    pub closed spec fn next_id(&self) -> u32 {
        self.ids.next()
    }

    /// The jobs accepted and not yet applied.
    pub closed spec fn pending_ops(&self) -> Seq<IndexPayload> {
        self.pending@
    }

    /// The whole abstract writer state.
    pub closed spec fn wstate(&self) -> WriterState {
        WriterState { m: self.store.model(), ids: self.ids.map(), next: self.ids.next() }
    }

    /// Well-formed: distinct path bindings, no transaction left open, and
    /// every pending job within the store's bounds.
    pub closed spec fn wf(&self) -> bool {
        &&& self.ids.wf()
        &&& !self.store.in_tx()
        &&& forall|k: int| 0 <= k < self.pending@.len() ==> job_ok(#[trigger] self.pending@[k])
    }

    /// Open or create the index database at `path` and load the id map
    /// from the `files` table; ids continue after the largest stored one.
    pub fn open_or_create(path: &str) -> (r: Result<PersistentIndex, IndexError>)
        ensures
            r is Ok ==> ({
                let s = r.unwrap();
                &&& s.wf()
                &&& s.pending_ops().len() == 0
                &&& forall|id: u32|
                    s.model().files.contains_key(id) ==> s.id_map().contains_key(
                        (#[trigger] s.model().files[id]).0,
                    ) && s.id_map()[s.model().files[id].0] == id
                &&& forall|id: u32|
                    #[trigger] s.model().files.contains_key(id) ==> id < s.next_id()
                        || s.next_id() == u32::MAX
            }),
    {
        let store = Store::open(path)?;
        let rows = store.file_rows()?;
        let mut ids = FileIdState::new();
        let mut k: usize = 0;
        while k < rows.len()
            invariant
                0 <= k <= rows@.len(),
                ids.wf(),
                forall|k1: int, k2: int|
                    0 <= k1 < rows@.len() && 0 <= k2 < rows@.len() && (#[trigger] rows@[k1]).1@ == (
                    #[trigger] rows@[k2]).1@ ==> k1 == k2,
                forall|p: Seq<char>|
                    #[trigger] ids.map().contains_key(p) <==> exists|j: int|
                        0 <= j < k && (#[trigger] rows@[j]).1@ == p,
                forall|j: int|
                    0 <= j < k ==> ids.map().contains_key((#[trigger] rows@[j]).1@) && ids.map()[
                        rows@[j].1@] == rows@[j].0,
            decreases rows@.len() - k,
        {
            let (id, path_s, _mt) = &rows[k];
            proof {
                if ids.map().contains_key(path_s@) {
                    let j = choose|j: int| 0 <= j < k && (#[trigger] rows@[j]).1@ == path_s@;
                    assert(false);
                }
            }
            ids.add_known(path_s.clone(), *id);
            k += 1;
        }
        proof {
            assert forall|id: u32| store.model().files.contains_key(id) implies
                ids.map().contains_key((#[trigger] store.model().files[id]).0) && ids.map()[
                store.model().files[id].0] == id by {
                let j = choose|j: int| 0 <= j < rows@.len() && (#[trigger] rows@[j]).0 == id;
                assert(rows@[j].1@ == store.model().files[id].0);
            }
            lemma_pairs_map_values(ids.pairs@);
            assert forall|id: u32| #[trigger] store.model().files.contains_key(id) implies id
                < ids.next() || ids.next() == u32::MAX by {
                let p = store.model().files[id].0;
                assert(ids.map().contains_key(p) && ids.map()[p] == id);
                let k = choose|k: int|
                    0 <= k < ids.pairs@.len() && (#[trigger] ids.pairs@[k]).0@ == p
                        && ids.pairs@[k].1 == pairs_map(ids.pairs@)[p];
            }
        }
        Ok(PersistentIndex { store, ids, pending: Vec::new() })
    }

    /// Queue one file for indexing under an already-canonical key: skip
    /// binary or non-UTF-8 content, else queue an upsert of exactly this
    /// path with the content's trigram set. Indexable content shorter
    /// than 3 bytes queues an empty set.
    pub fn index_normalized(&mut self, normalized: String, mtime: u64, content: &[u8]) -> (r:
        Result<(), IndexError>)
        requires
            old(self).wf(),
            mtime <= MAX_STORE_TS,
            content@.len() * 3 <= usize::MAX,
        ensures
            final(self).wf(),
            r is Ok,
            final(self).wstate() == old(self).wstate(),
            crate::text::is_indexable(content@) ==> ({
                &&& final(self).pending_ops().len() == old(self).pending_ops().len() + 1
                &&& final(self).pending_ops().take(old(self).pending_ops().len() as int) == old(
                    self,
                ).pending_ops()
                &&& (final(self).pending_ops().last() matches IndexPayload::UpsertFile {
                    path: p,
                    modified_ts,
                    trigrams,
                } && p@ == normalized@ && modified_ts == mtime && crate::trigram::tris_as_set(
                    trigrams@,
                ) == crate::trigram::trigram_set(content@) && crate::trigram::tris_sorted(
                    trigrams@,
                ))
            }),
            !crate::text::is_indexable(content@) ==> final(self).pending_ops() == old(
                self,
            ).pending_ops(),
    {
        match crate::text::content_trigrams(content) {
            Option::None => Ok(()),
            Option::Some(trigrams) => {
                let ghost pre = self.pending@;
                self.pending.push(
                    IndexPayload::UpsertFile { path: normalized, modified_ts: mtime, trigrams },
                );
                proof {
                    assert(self.pending@.take(pre.len() as int) =~= pre);
                }
                Ok(())
            },
        }
    }

    /// Accept one file for indexing: canonicalize the path, then queue it
    /// under the canonical key with `index_normalized`, whose contract
    /// pins the queued path, mtime and trigram set.
    pub fn index_path(&mut self, path: &str, mtime: u64, content: &[u8]) -> (r: Result<
        (),
        IndexError,
    >)
        requires
            old(self).wf(),
            mtime <= MAX_STORE_TS,
            content@.len() * 3 <= usize::MAX,
        ensures
            final(self).wf(),
            r is Ok,
            final(self).wstate() == old(self).wstate(),
            crate::text::is_indexable(content@) ==> ({
                &&& final(self).pending_ops().len() == old(self).pending_ops().len() + 1
                &&& final(self).pending_ops().take(old(self).pending_ops().len() as int) == old(
                    self,
                ).pending_ops()
                &&& (final(self).pending_ops().last() matches IndexPayload::UpsertFile {
                    path: p,
                    modified_ts,
                    trigrams,
                } && modified_ts == mtime && crate::trigram::tris_as_set(trigrams@)
                    == crate::trigram::trigram_set(content@) && crate::trigram::tris_sorted(
                    trigrams@,
                ))
            }),
            !crate::text::is_indexable(content@) ==> final(self).pending_ops() == old(
                self,
            ).pending_ops(),
    {
        let normalized = crate::text::normalize_path(path);
        self.index_normalized(normalized, mtime, content)
    }

    /// Queue one removal under an already-canonical key: exactly this
    /// path leaves the index when the batch is applied.
    pub fn remove_normalized(&mut self, normalized: String) -> (r: Result<(), IndexError>)
        requires
            old(self).wf(),
        ensures
            final(self).wf(),
            r is Ok,
            final(self).wstate() == old(self).wstate(),
            final(self).pending_ops().len() == old(self).pending_ops().len() + 1,
            final(self).pending_ops().take(old(self).pending_ops().len() as int) == old(
                self,
            ).pending_ops(),
            (final(self).pending_ops().last() matches IndexPayload::RemoveFile { path: p } && p@
                == normalized@),
    {
        let ghost pre = self.pending@;
        self.pending.push(IndexPayload::RemoveFile { path: normalized });
        proof {
            assert(self.pending@.take(pre.len() as int) =~= pre);
        }
        Ok(())
    }

    /// Accept one file for removal: canonicalize the path, then queue the
    /// removal under the canonical key with `remove_normalized`.
    pub fn remove_path(&mut self, path: &str) -> (r: Result<(), IndexError>)
        requires
            old(self).wf(),
        ensures
            final(self).wf(),
            r is Ok,
            final(self).wstate() == old(self).wstate(),
            final(self).pending_ops().len() == old(self).pending_ops().len() + 1,
            final(self).pending_ops().take(old(self).pending_ops().len() as int) == old(
                self,
            ).pending_ops(),
            final(self).pending_ops().last() is RemoveFile,
    {
        let normalized = crate::text::normalize_path(path);
        self.remove_normalized(normalized)
    }

    /// Apply one batch of jobs inside a single transaction, in arrival
    /// order. When writes are disabled every job is acknowledged without
    /// being applied. On the first failure the transaction is abandoned,
    /// the state reverts to the batch start, and every job in the batch
    /// receives the same batch-failure error.
    pub fn process_batch(&mut self, jobs: &Vec<IndexPayload>, write_enabled: bool) -> (r: Vec<
        Result<(), IndexError>,
    >)
        requires
            old(self).wf(),
            forall|k: int| 0 <= k < jobs@.len() ==> job_ok(#[trigger] jobs@[k]),
        ensures
            final(self).wf(),
            final(self).pending_ops() == old(self).pending_ops(),
            r@.len() == jobs@.len(),
            !write_enabled ==> final(self).wstate() == old(self).wstate() && (forall|k: int|
                0 <= k < r@.len() ==> (#[trigger] r@[k]) is Ok),
            write_enabled && (forall|k: int| 0 <= k < r@.len() ==> (#[trigger] r@[k]) is Ok)
                ==> final(self).wstate() == run_ops(old(self).wstate(), jobs@),
            write_enabled && (exists|k: int| 0 <= k < r@.len() && !((#[trigger] r@[k]) is Ok))
                ==> ((forall|k: int| 0 <= k < r@.len() ==> !((#[trigger] r@[k]) is Ok)) && final(
            self).wstate() == old(self).wstate()),
            forall|k1: int, k2: int|
                0 <= k1 < r@.len() && 0 <= k2 < r@.len() ==> (#[trigger] r@[k1]) == (
                #[trigger] r@[k2]),
    {
        let n = jobs.len();
        if !write_enabled {
            return ok_replies(n);
        }
        let backup = self.ids.snapshot();
        let ghost w0 = self.wstate();
        let mut err_found: Option<IndexError> = None;
        match self.store.begin() {
            Result::Err(e) => {
                err_found = Some(e);
            },
            Result::Ok(()) => {
                proof {
                    assert(jobs@.skip(0) =~= jobs@);
                }
                let mut i: usize = 0;
                while i < n && err_found.is_none()
                    invariant
                        0 <= i <= n == jobs@.len(),
                        forall|k: int| 0 <= k < jobs@.len() ==> job_ok(#[trigger] jobs@[k]),
                        self.ids.wf(),
                        self.store.saved() == w0.m,
                        err_found is None ==> self.store.in_tx() && run_ops(
                            self.wstate(),
                            jobs@.skip(i as int),
                        ) == run_ops(w0, jobs@),
                        err_found is Some ==> (self.store.in_tx() || self.store.model() == w0.m),
                        self.pending@ == old(self).pending@,
                    decreases n - i,
                {
                    let ghost w_pre = self.wstate();
                    proof {
                        assert(jobs@.skip(i as int)[0] == jobs@[i as int]);
                        assert(jobs@.skip(i as int).drop_first() =~= jobs@.skip(i as int + 1));
                    }
                    let res = match &jobs[i] {
                        IndexPayload::UpsertFile { path, modified_ts, trigrams } => upsert_file(
                            &mut self.ids,
                            &mut self.store,
                            path.as_str(),
                            *modified_ts,
                            trigrams,
                        ),
                        IndexPayload::RemoveFile { path } => remove_file(
                            &mut self.ids,
                            &mut self.store,
                            path.as_str(),
                        ),
                        IndexPayload::Flush => Ok(()),
                    };
                    match res {
                        Result::Ok(()) => {
                            proof {
                                assert(self.wstate() =~= step(w_pre, jobs@[i as int]));
                            }
                        },
                        Result::Err(e) => {
                            err_found = Some(e);
                        },
                    }
                    i += 1;
                }
                if err_found.is_none() {
                    proof {
                        assert(jobs@.skip(n as int) =~= Seq::<IndexPayload>::empty());
                        assert(self.wstate() == run_ops(w0, jobs@));
                    }
                    match self.store.commit() {
                        Result::Ok(()) => {},
                        Result::Err(e) => {
                            proof {
                                assert(self.store.in_tx() || self.store.model() == w0.m);
                            }
                            err_found = Some(e);
                        },
                    }
                    proof {
                        if err_found is None {
                            assert(self.wstate() =~= run_ops(w0, jobs@));
                        }
                    }
                }
                if err_found.is_some() {
                    self.store.rollback();
                }
            },
        }
        match err_found {
            Option::None => {
                proof {
                    assert(w0 == old(self).wstate());
                    assert(self.wstate() == run_ops(w0, jobs@));
                }
                ok_replies(n)
            },
            Option::Some(e) => {
                self.ids = backup;
                proof {
                    assert(self.wstate() =~= w0);
                }
                let mut text = String::from_str("batch failed: ");
                text.append(e.message().as_str());
                let msg = text;
                let mut r: Vec<Result<(), IndexError>> = Vec::new();
                let mut k: usize = 0;
                while k < n
                    invariant
                        0 <= k <= n,
                        r@.len() == k,
                        forall|j: int|
                            0 <= j < k ==> (#[trigger] r@[j]) == Err::<(), IndexError>(
                                IndexError::Encode(msg),
                            ),
                    decreases n - k,
                {
                    r.push(Err(IndexError::Encode(msg.clone())));
                    k += 1;
                }
                proof {
                    assert(forall|j: int| 0 <= j < r@.len() ==> !((#[trigger] r@[j]) is Ok));
                }
                proof {
                    assert(w0 == old(self).wstate());
                    assert(self.wstate() =~= w0);
                    if n > 0 {
                        assert(!(r@[0] is Ok));
                    } else {
                        assert(jobs@ =~= Seq::<IndexPayload>::empty());
                        assert(run_ops(old(self).wstate(), jobs@) == old(self).wstate());
                    }
                }
                r
            },
        }
    }

    /// Apply every pending job in one transaction — or, with writes
    /// disabled, acknowledge and drop them — and answer the flush with
    /// the error of the failed batch, if any.
    pub fn flush(&mut self, write_enabled: bool) -> (r: Result<(), IndexError>)
        requires
            old(self).wf(),
        ensures
            final(self).wf(),
            final(self).pending_ops().len() == 0,
            !write_enabled ==> r is Ok && final(self).wstate() == old(self).wstate(),
            write_enabled && r is Ok ==> final(self).wstate() == run_ops(
                old(self).wstate(),
                old(self).pending_ops(),
            ),
            r is Err ==> final(self).wstate() == old(self).wstate(),
    {
        let mut jobs: Vec<IndexPayload> = Vec::new();
        core::mem::swap(&mut jobs, &mut self.pending);
        let replies = self.process_batch(&jobs, write_enabled);
        let mut k: usize = 0;
        let n = replies.len();
        while k < n
            invariant
                0 <= k <= n == replies@.len(),
                forall|j: int| 0 <= j < k ==> (#[trigger] replies@[j]) is Ok,
                self.wf(),
                self.pending@.len() == 0,
                (exists|j: int| 0 <= j < replies@.len() && !((#[trigger] replies@[j]) is Ok))
                    ==> self.wstate() == old(self).wstate(),
                !write_enabled ==> self.wstate() == old(self).wstate() && (forall|j: int|
                    0 <= j < replies@.len() ==> (#[trigger] replies@[j]) is Ok),
                write_enabled && (forall|j: int|
                    0 <= j < replies@.len() ==> (#[trigger] replies@[j]) is Ok)
                    ==> self.wstate() == run_ops(old(self).wstate(), old(self).pending_ops()),
            decreases n - k,
        {
            match &replies[k] {
                Result::Ok(()) => {},
                Result::Err(e) => {
                    return Err(e.clone());
                },
            }
            k += 1;
        }
        Ok(())
    }

    /// Read a value from the meta table, if present.
    pub fn get_meta(&self, key: &str) -> (r: Result<Option<String>, IndexError>)
        ensures
            r is Ok ==> (match r.unwrap() {
                Option::Some(v) => self.model().meta.contains_key(key@) && v@ == self.model().meta[
                    key@],
                Option::None => !self.model().meta.contains_key(key@),
            }),
    {
        self.store.meta_get(key)
    }

    /// Set a value in the meta table, last write wins. Used for
    /// checkpoints such as the indexed revision head.
    pub fn set_meta(&mut self, key: &str, value: &str) -> (r: Result<(), IndexError>)
        requires
            old(self).wf(),
        ensures
            final(self).wf(),
            final(self).pending_ops() == old(self).pending_ops(),
            final(self).id_map() == old(self).id_map(),
            final(self).next_id() == old(self).next_id(),
            r is Ok ==> final(self).model() == (StoreModel {
                meta: old(self).model().meta.insert(key@, value@),
                ..old(self).model()
            }),
            r is Err ==> final(self).model() == old(self).model(),
    {
        self.store.meta_set(key, value)
    }

    /// The store handle, for read paths.
    pub fn store(&self) -> (r: &Store)
        ensures
            r.model() == self.model(),
    {
        &self.store
    }

    /// Search this index's own store. Queries shorter than 3 bytes return
    /// no hits without touching the store; the reads of longer queries
    /// run inside one transaction, so they see a single snapshot.
    pub fn search(&mut self, query: &str) -> (r: Result<Vec<crate::model::SearchHit>, IndexError>)
        requires
            old(self).wf(),
        ensures
            final(self).wf(),
            final(self).model() == old(self).model(),
            final(self).id_map() == old(self).id_map(),
            final(self).next_id() == old(self).next_id(),
            final(self).pending_ops() == old(self).pending_ops(),
            r is Ok ==> crate::search::hits_match(
                old(self).model(),
                query.spec_bytes(),
                Option::None,
                r.unwrap()@,
            ),
            query.spec_bytes().len() < 3 ==> r is Ok && r.unwrap()@.len() == 0,
    {
        crate::search::search_store(&mut self.store, query, None)
    }

    /// Search this index's own store, filtering hit paths by the pattern.
    pub fn search_filtered(
        &mut self,
        query: &str,
        filter: Option<&crate::search::PathFilter>,
    ) -> (r: Result<Vec<crate::model::SearchHit>, IndexError>)
        requires
            old(self).wf(),
        ensures
            final(self).wf(),
            final(self).model() == old(self).model(),
            final(self).id_map() == old(self).id_map(),
            final(self).next_id() == old(self).next_id(),
            final(self).pending_ops() == old(self).pending_ops(),
            r is Ok ==> crate::search::hits_match(
                old(self).model(),
                query.spec_bytes(),
                (match filter {
                    Option::Some(f) => Option::Some(f.pattern()),
                    Option::None => Option::None,
                }),
                r.unwrap()@,
            ),
            query.spec_bytes().len() < 3 ==> r is Ok && r.unwrap()@.len() == 0,
    {
        crate::search::search_store(&mut self.store, query, filter)
    }

    /// Search this index's stored paths for a case-insensitive substring.
    pub fn search_files(&mut self, pattern: &str) -> (r: Result<
        Vec<crate::model::SearchHit>,
        IndexError,
    >)
        requires
            old(self).wf(),
        ensures
            final(self).wf(),
            final(self).model() == old(self).model(),
            final(self).id_map() == old(self).id_map(),
            final(self).next_id() == old(self).next_id(),
            final(self).pending_ops() == old(self).pending_ops(),
            r is Ok ==> crate::search::files_hits_match(
                old(self).model(),
                pattern.spec_bytes(),
                r.unwrap()@,
            ),
    {
        crate::search::search_files_store(&mut self.store, pattern)
    }

    /// Try to take the writer lease under this process's identity: the
    /// store applies the pure `lease_acquirable` decision to the shared
    /// row at that instant and reports the outcome. The content tables
    /// and this writer's state are untouched either way; the caller's
    /// role machine consumes the returned decision.
    pub fn try_acquire_writer_lease(&mut self, holder: &str, now_ms: u64, ttl_ms: u64) -> (r:
        Result<bool, IndexError>)
        requires
            old(self).wf(),
            now_ms + ttl_ms <= MAX_STORE_TS,
        ensures
            final(self).wf(),
            final(self).pending_ops() == old(self).pending_ops(),
            final(self).id_map() == old(self).id_map(),
            final(self).next_id() == old(self).next_id(),
            final(self).model() == old(self).model(),
    {
        self.store.lease_try_acquire("writer", holder, now_ms, ttl_ms)
    }

    /// Renew the writer lease: the store applies the pure
    /// `lease_renewable` decision to the shared row at that instant and
    /// reports the outcome. The content tables and this writer's state
    /// are untouched either way.
    pub fn renew_writer_lease(&mut self, holder: &str, now_ms: u64, ttl_ms: u64) -> (r: Result<
        bool,
        IndexError,
    >)
        requires
            old(self).wf(),
            now_ms + ttl_ms <= MAX_STORE_TS,
        ensures
            final(self).wf(),
            final(self).pending_ops() == old(self).pending_ops(),
            final(self).id_map() == old(self).id_map(),
            final(self).next_id() == old(self).next_id(),
            final(self).model() == old(self).model(),
    {
        self.store.lease_renew("writer", holder, now_ms, ttl_ms)
    }
}

/// Rewrite every stored path for the worktree bootstrap, inside one
/// transaction: a path under `old_root` moves under `new_root` with its
/// suffix kept, any other stays. File ids and mtimes are kept and all
/// other tables are untouched; on any failure the transaction is
/// abandoned and nothing changes.
pub fn rewrite_store_roots(store: &mut Store, old_root: &str, new_root: &str) -> (r: Result<
    (),
    IndexError,
>)
    requires
        !old(store).in_tx(),
    ensures
        !final(store).in_tx(),
        final(store).model().postings == old(store).model().postings,
        final(store).model().tris == old(store).model().tris,
        final(store).model().meta == old(store).model().meta,
        r is Err ==> final(store).model() == old(store).model(),
        r is Ok ==> ({
            &&& final(store).model().files.dom() == old(store).model().files.dom()
            &&& forall|id: u32|
                old(store).model().files.contains_key(id) ==> ({
                    let pre = #[trigger] old(store).model().files[id];
                    let post = final(store).model().files[id];
                    &&& post.1 == pre.1
                    &&& crate::text::str_bytes(post.0) == crate::scan::rewritten(
                        crate::text::str_bytes(pre.0),
                        old_root.spec_bytes(),
                        new_root.spec_bytes(),
                    )
                })
        }),
{
    store.begin()?;
    let ghost m0 = store.model();
    let ghost files0 = m0.files;
    let rows = match store.file_rows() {
        Result::Ok(v) => v,
        Result::Err(e) => {
            store.rollback();
            return Err(e);
        },
    };
    let mut k: usize = 0;
    let n = rows.len();
    while k < n
        invariant
            0 <= k <= n == rows@.len(),
            store.in_tx(),
            store.saved() == old(store).model(),
            m0 == old(store).model(),
            files0 == m0.files,
            store.model().postings == m0.postings,
            store.model().tris == m0.tris,
            store.model().meta == m0.meta,
            store.model().files.dom() == files0.dom(),
            forall|k1: int, k2: int|
                0 <= k1 < rows@.len() && 0 <= k2 < rows@.len() && (#[trigger] rows@[k1]).0 == (
                #[trigger] rows@[k2]).0 ==> k1 == k2,
            forall|kk: int|
                0 <= kk < rows@.len() ==> files0.contains_key((#[trigger] rows@[kk]).0) && files0[
                    rows@[kk].0] == (rows@[kk].1@, rows@[kk].2) && rows@[kk].2 <= MAX_STORE_TS,
            forall|kk: int|
                0 <= kk < k ==> ({
                    let entry = store.model().files[(#[trigger] rows@[kk]).0];
                    &&& entry.1 == rows@[kk].2
                    &&& crate::text::str_bytes(entry.0) == crate::scan::rewritten(
                        crate::text::str_bytes(rows@[kk].1@),
                        old_root.spec_bytes(),
                        new_root.spec_bytes(),
                    )
                }),
            forall|id: u32|
                files0.contains_key(id) && !(exists|kk: int|
                    0 <= kk < k && (#[trigger] rows@[kk]).0 == id) ==> (
                #[trigger] store.model().files[id]) == files0[id],
        decreases n - k,
    {
        let (id, path_s, mt) = &rows[k];
        let new_path = crate::scan::rewrite_path_prefix(path_s.as_str(), old_root, new_root);
        let ghost fpre = store.model().files;
        match store.upsert_file_row(*id, new_path.as_str(), *mt) {
            Result::Ok(()) => {},
            Result::Err(e) => {
                store.rollback();
                return Err(e);
            },
        }
        proof {
            assert(store.model().files.dom() =~= fpre.dom());
            assert forall|kk: int| 0 <= kk < k + 1 implies ({
                let entry = store.model().files[(#[trigger] rows@[kk]).0];
                &&& entry.1 == rows@[kk].2
                &&& crate::text::str_bytes(entry.0) == crate::scan::rewritten(
                    crate::text::str_bytes(rows@[kk].1@),
                    old_root.spec_bytes(),
                    new_root.spec_bytes(),
                )
            }) by {
                if kk == k {
                    assert(store.model().files[rows@[kk].0] == (new_path@, *mt));
                } else {
                    assert(rows@[kk].0 != rows@[k as int].0);
                    assert(store.model().files[rows@[kk].0] == fpre[rows@[kk].0]);
                }
            }
            assert forall|id: u32|
                files0.contains_key(id) && !(exists|kk: int|
                    0 <= kk < k + 1 && (#[trigger] rows@[kk]).0 == id) implies (
            #[trigger] store.model().files[id]) == files0[id] by {
                assert(id != rows@[k as int].0);
            }
        }
        k += 1;
    }
    match store.commit() {
        Result::Ok(()) => {},
        Result::Err(e) => {
            store.rollback();
            return Err(e);
        },
    }
    proof {
        assert forall|id: u32| old(store).model().files.contains_key(id) implies ({
            let pre = #[trigger] old(store).model().files[id];
            let post = store.model().files[id];
            &&& post.1 == pre.1
            &&& crate::text::str_bytes(post.0) == crate::scan::rewritten(
                crate::text::str_bytes(pre.0),
                old_root.spec_bytes(),
                new_root.spec_bytes(),
            )
        }) by {
            let kk = choose|kk: int| 0 <= kk < rows@.len() && (#[trigger] rows@[kk]).0 == id;
            assert(files0[id] == (rows@[kk].1@, rows@[kk].2));
        }
    }
    Ok(())
}

/// A vector of `n` success replies.
fn ok_replies(n: usize) -> (r: Vec<Result<(), IndexError>>)
    ensures
        r@.len() == n,
        forall|k: int| 0 <= k < r@.len() ==> (#[trigger] r@[k]) == Ok::<(), IndexError>(()),
{
    let mut r: Vec<Result<(), IndexError>> = Vec::new();
    let mut k: usize = 0;
    while k < n
        invariant
            0 <= k <= n,
            r@.len() == k,
            forall|j: int| 0 <= j < k ==> (#[trigger] r@[j]) == Ok::<(), IndexError>(()),
        decreases n - k,
    {
        r.push(Ok(()));
        k += 1;
    }
    r
}

} // verus!
