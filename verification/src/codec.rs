//! The per-file trigram blob: the sorted trigram vector stored as its
//! 3-byte groups concatenated. The encoding is self-describing: a blob is
//! well-formed exactly when its length is a multiple of 3, and decoding
//! chunks it back into the original vector.

use vstd::prelude::*;

verus! {

/// A well-formed per-file trigram blob.
pub open spec fn blob_ok(b: Seq<u8>) -> bool {
    b.len() % 3 == 0
}

/// The encoding of a trigram vector: its 3-byte groups concatenated.
pub open spec fn blob_encode(v: Seq<[u8; 3]>) -> Seq<u8>
    decreases v.len(),
{
    if v.len() == 0 {
        Seq::empty()
    } else {
        blob_encode(v.drop_last()) + v.last()@
    }
}

/// The trigram sequence a blob decodes to (whole 3-byte groups).
pub open spec fn blob_seq(b: Seq<u8>) -> Seq<Seq<u8>> {
    Seq::new(b.len() / 3, |k: int| b.subrange(3 * k, 3 * k + 3))
}

/// The trigram set a blob holds.
pub open spec fn blob_tris(b: Seq<u8>) -> Set<Seq<u8>> {
    Set::new(
        |t: Seq<u8>| exists|k: int| 0 <= k && 3 * k + 3 <= b.len() && #[trigger] b.subrange(
            3 * k,
            3 * k + 3,
        ) == t,
    )
}

/// The encoding is three bytes per trigram, and group `k` of the encoding
/// is element `k` of the vector.
pub proof fn lemma_blob_encode_groups(v: Seq<[u8; 3]>)
    ensures
        blob_encode(v).len() == 3 * v.len(),
        forall|k: int|
            0 <= k < v.len() ==> #[trigger] blob_encode(v).subrange(3 * k, 3 * k + 3) == v[k]@,
    decreases v.len(),
{
    if v.len() == 0 {
    } else {
        lemma_blob_encode_groups(v.drop_last());
        let pre = blob_encode(v.drop_last());
        assert(v.last()@.len() == 3);
        assert forall|k: int| 0 <= k < v.len() implies #[trigger] blob_encode(v).subrange(
            3 * k,
            3 * k + 3,
        ) == v[k]@ by {
            if k < v.len() - 1 {
                assert(blob_encode(v).subrange(3 * k, 3 * k + 3) =~= pre.subrange(
                    3 * k,
                    3 * k + 3,
                ));
                assert(v.drop_last()[k] == v[k]);
            } else {
                assert(blob_encode(v).subrange(3 * k, 3 * k + 3) =~= v.last()@);
            }
        }
    }
}

/// Encoding then reading the held trigram set gives the vector's own set.
pub proof fn lemma_blob_encode_tris(v: Seq<[u8; 3]>)
    ensures
        blob_tris(blob_encode(v)) == crate::trigram::tris_as_set(v),
        blob_ok(blob_encode(v)),
{
    lemma_blob_encode_groups(v);
    let b = blob_encode(v);
    assert forall|t: Seq<u8>| blob_tris(b).contains(t) implies crate::trigram::tris_as_set(
        v,
    ).contains(t) by {
        let k = choose|k: int| 0 <= k && 3 * k + 3 <= b.len() && #[trigger] b.subrange(
            3 * k,
            3 * k + 3,
        ) == t;
        assert(v[k]@ == t);
    }
    assert forall|t: Seq<u8>| crate::trigram::tris_as_set(v).contains(t) implies blob_tris(
        b,
    ).contains(t) by {
        let k = choose|k: int| 0 <= k < v.len() && v[k]@ == t;
        assert(b.subrange(3 * k, 3 * k + 3) == t);
    }
    assert(blob_tris(b) =~= crate::trigram::tris_as_set(v));
}

/// Encode a trigram vector into its blob.
pub fn encode_tris(v: &Vec<[u8; 3]>) -> (r: Vec<u8>)
    requires
        v@.len() * 3 <= usize::MAX,
    ensures
        r@ == blob_encode(v@),
{
    let mut out: Vec<u8> = Vec::new();
    let mut i: usize = 0;
    proof {
        lemma_blob_encode_groups(v@);
    }
    while i < v.len()
        invariant
            0 <= i <= v@.len(),
            v@.len() * 3 <= usize::MAX,
            out@ == blob_encode(v@.take(i as int)),
            out@.len() == 3 * i,
        decreases v@.len() - i,
    {
        let t = v[i];
        out.push(t[0]);
        out.push(t[1]);
        out.push(t[2]);
        proof {
            let taken = v@.take(i + 1int);
            assert(taken.drop_last() =~= v@.take(i as int));
            assert(taken.last() == v@[i as int]);
            assert(out@ =~= blob_encode(v@.take(i as int)) + v@[i as int]@);
        }
        i += 1;
    }
    proof {
        assert(v@.take(v@.len() as int) =~= v@);
    }
    out
}

/// Decode a blob back into a trigram vector. Fails exactly on blobs whose
/// length is not a multiple of 3, which indicates corruption.
pub fn decode_tris(b: &Vec<u8>) -> (r: Option<Vec<[u8; 3]>>)
    ensures
        r is Some <==> blob_ok(b@),
        r is Some ==> {
            let v = r.unwrap()@;
            &&& v.len() == b@.len() / 3
            &&& forall|k: int| 0 <= k < v.len() ==> (#[trigger] v[k])@ == b@.subrange(
                3 * k,
                3 * k + 3,
            )
            &&& crate::trigram::tris_as_set(v) == blob_tris(b@)
        },
{
    if b.len() % 3 != 0 {
        return None;
    }
    let mut out: Vec<[u8; 3]> = Vec::new();
    let mut i: usize = 0;
    let bn = b.len();
    while i < bn
        invariant
            0 <= i <= b@.len(),
            bn == b@.len(),
            i == 3 * out@.len(),
            i % 3 == 0,
            b@.len() % 3 == 0,
            forall|k: int|
                0 <= k < out@.len() ==> (#[trigger] out@[k])@ == b@.subrange(3 * k, 3 * k + 3),
        decreases b@.len() - i,
    {
        proof {
            assert(i + 3 <= bn);
        }
        let t: [u8; 3] = [b[i], b[i + 1], b[i + 2]];
        proof {
            assert(t@ =~= b@.subrange(3 * (out@.len() as int), 3 * (out@.len() as int) + 3));
        }
        out.push(t);
        i += 3;
    }
    proof {
        assert(3 * out@.len() + 3 > b@.len() && 3 * out@.len() <= b@.len());
        assert(out@.len() == b@.len() / 3) by (nonlinear_arith)
            requires
                3 * out@.len() + 3 > b@.len(),
                3 * out@.len() <= b@.len(),
                b@.len() % 3 == 0,
        ;
        assert forall|t: Seq<u8>| crate::trigram::tris_as_set(out@).contains(t) implies blob_tris(
            b@,
        ).contains(t) by {
            let k = choose|k: int| 0 <= k < out@.len() && out@[k]@ == t;
            assert(b@.subrange(3 * k, 3 * k + 3) == t);
        }
        assert forall|t: Seq<u8>| blob_tris(b@).contains(t) implies crate::trigram::tris_as_set(
            out@,
        ).contains(t) by {
            let k = choose|k: int| 0 <= k && 3 * k + 3 <= b@.len() && #[trigger] b@.subrange(
                3 * k,
                3 * k + 3,
            ) == t;
            assert(k < out@.len()) by (nonlinear_arith)
                requires
                    3 * k + 3 <= b@.len(),
                    3 * out@.len() + 3 > b@.len(),
                    0 <= k,
            ;
            assert(out@[k]@ == t);
        }
        assert(crate::trigram::tris_as_set(out@) =~= blob_tris(b@));
    }
    Some(out)
}

} // verus!
