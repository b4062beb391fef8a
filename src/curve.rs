use vstd::prelude::*;
use crate::morton::{encode_morton_64bit, morton_key};
use crate::treemap::ParticleTreemap;

verus! {

/// The space-filling curve that turns a quantized point into one key.
#[derive(Clone, Copy, Debug, PartialEq, Eq, Structural)]
pub enum SpaceFillingCurve {
    /// Bit interleaving (Z-order).
    Morton,
    /// Rank along a Hilbert curve.
    Hilbert,
}

/// The rank of a point along the Hilbert curve of the given depth.
pub uninterp spec fn hilbert_rank_of(coords: Seq<u32>, bits: usize) -> u64;

/// Relies on hilbert::transform::fast_hilbert::hilbert_index for the curve rank of the
/// coordinates at depth `bits`, and on num-bigint's `u64::try_from` to take it out of the big
/// integer. The rank is built from exactly `dimensions * bits` bits, so it fits in 64 bits under
/// the budget; the crate computes `1 << (bits - 1)` on `u32`, hence the bounds on `bits`.
#[verifier::external_body]
fn hilbert_rank(coords: &Vec<u32>, bits: usize) -> (r: u64)
    requires
        1 <= coords.len(),
        1 <= bits <= 32,
        coords.len() * bits <= 64,
    ensures
        r == hilbert_rank_of(coords@, bits),
{
    let rank = hilbert::transform::fast_hilbert::hilbert_index(coords.as_slice(), bits, None);
    u64::try_from(&rank).unwrap()
}

/// The key of a quantized point, or `None` when the point does not fit the 64-bit budget
/// (more than 64 dimensions, or `dimensions * bits > 64`), or, for the Hilbert curve, when the
/// point is empty or `bits` is not in `1..=32`.
pub open spec fn encoded_key(point: Seq<u32>, bits: usize, curve: SpaceFillingCurve) -> Option<u64> {
    if point.len() > 64 || point.len() * bits > 64 {
        None
    } else {
        match curve {
            SpaceFillingCurve::Morton => Some(morton_key(point)),
            SpaceFillingCurve::Hilbert => {
                if point.len() == 0 || bits == 0 || bits > 32 {
                    None
                } else {
                    Some(hilbert_rank_of(point, bits))
                }
            },
        }
    }
}

/// The keys of the points that encode, in any order.
pub open spec fn encoded_keys(points: Seq<Vec<u32>>, bits: usize, curve: SpaceFillingCurve) -> Set<
    u64,
>
    decreases points.len(),
{
    if points.len() == 0 {
        Set::empty()
    } else {
        let rest = encoded_keys(points.drop_last(), bits, curve);
        match encoded_key(points.last()@, bits, curve) {
            Some(k) => rest.insert(k),
            None => rest,
        }
    }
}

/// Encodes one quantized point with the chosen curve.
pub fn encode_point(point: &Vec<u32>, bits: usize, curve: SpaceFillingCurve) -> (r: Option<u64>)
    ensures
        r == encoded_key(point@, bits, curve),
{
    let dims = point.len();
    if dims > 64 || (dims > 0 && bits > 64) {
        proof {
            if dims <= 64 {
                assert(dims * bits > 64) by (nonlinear_arith)
                    requires dims >= 1, bits > 64;
            }
        }
        return None;
    }
    proof {
        if dims > 0 {
            assert(dims * bits <= 64 * 64) by (nonlinear_arith)
                requires dims <= 64, bits <= 64;
        }
    }
    if dims * bits > 64 {
        return None;
    }
    match curve {
        SpaceFillingCurve::Morton => {
            let copy = point.clone();
            assert(copy@ =~= point@);
            Some(encode_morton_64bit(copy))
        },
        SpaceFillingCurve::Hilbert => {
            if point.len() == 0 || bits == 0 || bits > 32 {
                None
            } else {
                Some(hilbert_rank(point, bits))
            }
        },
    }
}

impl ParticleTreemap {
    /// Encodes each quantized point with the chosen curve and inserts its key; points that do
    /// not encode are skipped.
    pub fn insert_points(&mut self, points: &Vec<Vec<u32>>, bits: usize, curve: SpaceFillingCurve)
        requires
            old(self).wf(),
        ensures
            final(self).wf(),
            final(self)@ == old(self)@ + encoded_keys(points@, bits, curve),
    {
        let ghost before = self@;
        let mut i: usize = 0;
        while i < points.len()
            invariant
                i <= points.len(),
                self.wf(),
                self@ == before + encoded_keys(points@.take(i as int), bits, curve),
            decreases points.len() - i,
        {
            let key = encode_point(&points[i], bits, curve);
            proof {
                assert(points@.take(i + 1).drop_last() =~= points@.take(i as int));
                assert(points@.take(i + 1).last() == points@[i as int]);
            }
            match key {
                Some(k) => {
                    self.insert(k);
                    assert(self@ =~= before + encoded_keys(points@.take(i + 1), bits, curve));
                },
                None => {},
            }
            i = i + 1;
        }
        proof {
            assert(points@.take(points.len() as int) =~= points@);
        }
    }
}

/// Points that are all the same quantized point, within the bit budget, give exactly one key
/// under either curve.
pub proof fn lemma_identical_points_one_key(
    points: Seq<Vec<u32>>,
    p: Seq<u32>,
    bits: usize,
    curve: SpaceFillingCurve,
)
    requires
        points.len() >= 1,
        forall|i: int| 0 <= i < points.len() ==> #[trigger] points[i]@ == p,
        1 <= p.len(),
        1 <= bits <= 32,
        p.len() * bits <= 64,
    ensures
        encoded_key(p, bits, curve).is_some(),
        encoded_keys(points, bits, curve) == set![encoded_key(p, bits, curve).unwrap()],
    decreases points.len(),
{
    assert(p.len() <= 64) by (nonlinear_arith)
        requires p.len() * bits <= 64, bits >= 1;
    let k = encoded_key(p, bits, curve).unwrap();
    assert(points.last()@ == p);
    assert(encoded_key(points.last()@, bits, curve) == Some(k));
    if points.len() == 1 {
        assert(points.drop_last().len() == 0);
        assert(encoded_keys(points.drop_last(), bits, curve) == Set::<u64>::empty());
        assert(encoded_keys(points, bits, curve) =~= set![k]);
    } else {
        let rest = points.drop_last();
        assert forall|i: int| 0 <= i < rest.len() implies #[trigger] rest[i]@ == p by {
            assert(rest[i] == points[i]);
        }
        lemma_identical_points_one_key(rest, p, bits, curve);
        assert(encoded_keys(points, bits, curve) =~= set![k]);
    }
}

} // verus!
