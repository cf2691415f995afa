//! Pairing segments, vectors and identifiers into the points of one upload.

use crate::error::IngestError;
use crate::ids::IdPool;
use vstd::prelude::*;

verus! {

/// One entry of the vector store: an identifier, the vector of a segment and
/// the text of that segment as its payload. The library never looks into a
/// vector, so its type is the caller's.
#[derive(Debug)]
pub struct VectorPoint<V> {
    /// The identifier under which the store keeps the point.
    pub id: u64,
    /// What the embedding client returned for the segment.
    pub vector: V,
    /// The text of the segment, as the segmenter gave it.
    pub text: String,
}

/// Whether `p` pairs the identifier `id` and the vector `vector` with the
/// text of `segment`.
pub open spec fn pairs<V>(p: VectorPoint<V>, id: u64, vector: V, segment: Seq<char>) -> bool {
    &&& p.id == id
    &&& p.vector == vector
    &&& p.text@ == segment
}

/// The points of one upload. The segment at a position gets the vector at
/// that position and the identifier that the pool hands out at that turn:
/// the first segment the first one handed out, and so on. Refused, with the
/// pool untouched, where the vectors are not as many as the segments or the
/// pool holds fewer identifiers than there are segments.
pub fn assemble_points<V>(segments: &Vec<String>, embeddings: Vec<V>, pool: &mut IdPool) -> (r:
    Result<Vec<VectorPoint<V>>, IngestError>)
    requires
        old(pool).wf(),
    ensures
        final(pool).wf(),
        final(pool).seen() == old(pool).seen(),
        final(pool).keeps_handed_out(old(pool)),
        r matches Ok(points) ==> forall|i: int|
            0 <= i < points@.len() ==> final(pool).handed_out((#[trigger] points@[i]).id),
        r is Ok <==> embeddings@.len() == segments@.len() && segments@.len() <= old(
            pool,
        ).available().len(),
        r matches Err(e) ==> e == IngestError::InvalidArgument && final(pool).available() == old(
            pool,
        ).available(),
        r matches Ok(points) ==> {
            let n = segments@.len() as int;
            let before = old(pool).available();
            &&& points@.len() == n
            &&& final(pool).available() == before.take(before.len() - n)
            &&& forall|i: int|
                0 <= i < n ==> pairs(
                    #[trigger] points@[i],
                    before[before.len() - 1 - i],
                    embeddings@[i],
                    segments@[i]@,
                )
        },
{
    let n: usize = segments.len();
    if embeddings.len() != n || pool.len() < n {
        return Err(IngestError::InvalidArgument);
    }
    let ghost before = pool.available();
    let mut points: Vec<VectorPoint<V>> = Vec::new();
    let mut i: usize = 0;
    proof {
        assert(before.take(before.len() as int) =~= before);
    }
    for vector in it: embeddings
        invariant
            i == it.index(),
            it.seq() == embeddings@,
            n == segments@.len(),
            n == embeddings@.len(),
            n <= before.len(),
            before == old(pool).available(),
            pool.wf(),
            pool.seen() == old(pool).seen(),
            pool.available() == before.take(before.len() - i),
            pool.keeps_handed_out(old(pool)),
            forall|k: int| 0 <= k < i ==> pool.handed_out((#[trigger] points@[k]).id),
            points@.len() == i,
            forall|k: int|
                0 <= k < i ==> pairs(
                    #[trigger] points@[k],
                    before[before.len() - 1 - k],
                    embeddings@[k],
                    segments@[k]@,
                ),
    {
        let id: u64 = pool.pop().unwrap();
        proof {
            assert(before.take(before.len() - i).drop_last() =~= before.take(
                before.len() - i - 1,
            ));
        }
        let text = segments[i].clone();
        points.push(VectorPoint { id, vector, text });
        i = i + 1;
    }
    Ok(points)
}

} // verus!
