use vstd::prelude::*;

verus! {

/// Bit `j` of `x` moved to bit `3 * j`, for each of the low 21 bits of `x`; every other bit is zero.
pub open spec fn spread_by2(x: u64) -> u64 {
    ((x & 0x1) << 0u64) | ((x & 0x2) << 2u64) | ((x & 0x4) << 4u64) | ((x & 0x8) << 6u64)
        | ((x & 0x10) << 8u64) | ((x & 0x20) << 10u64) | ((x & 0x40) << 12u64)
        | ((x & 0x80) << 14u64) | ((x & 0x100) << 16u64) | ((x & 0x200) << 18u64)
        | ((x & 0x400) << 20u64) | ((x & 0x800) << 22u64) | ((x & 0x1000) << 24u64)
        | ((x & 0x2000) << 26u64) | ((x & 0x4000) << 28u64) | ((x & 0x8000) << 30u64)
        | ((x & 0x10000) << 32u64) | ((x & 0x20000) << 34u64) | ((x & 0x40000) << 36u64)
        | ((x & 0x80000) << 38u64) | ((x & 0x100000) << 40u64)
}

/// Spreads the low 21 bits of `x` so that two zero bits separate consecutive bits.
pub fn spread_64bits_by2(x: u64) -> (r: u64)
    ensures
        r == spread_by2(x),
{
    let mut y: u64 = x;
    y = y & 0x00000000001FFFFFu64;
    y = (y | (y << 20u64)) & 0x000001FFC00003FFu64;
    y = (y | (y << 10u64)) & 0x0007E007C00F801Fu64;
    y = (y | (y << 4u64)) & 0x00786070C0E181C3u64;
    y = (y | (y << 2u64)) & 0x0199219243248649u64;
    y = (y | (y << 2u64)) & 0x0649249249249249u64;
    y = (y | (y << 2u64)) & 0x1249249249249249u64;
    proof {
        lemma_spread_steps(x);
    }
    y
}

proof fn lemma_spread_steps(x: u64)
    by (bit_vector)
    ensures
        ({
            let y0 = x & 0x00000000001FFFFFu64;
            let y1 = (y0 | (y0 << 20u64)) & 0x000001FFC00003FFu64;
            let y2 = (y1 | (y1 << 10u64)) & 0x0007E007C00F801Fu64;
            let y3 = (y2 | (y2 << 4u64)) & 0x00786070C0E181C3u64;
            let y4 = (y3 | (y3 << 2u64)) & 0x0199219243248649u64;
            let y5 = (y4 | (y4 << 2u64)) & 0x0649249249249249u64;
            (y5 | (y5 << 2u64)) & 0x1249249249249249u64
        }) == spread_by2(x),
{
}

/// The number of bits each coordinate keeps in a key of `d` coordinates: `floor(64 / d)`, and
/// no more than the 32 bits a coordinate has.
pub open spec fn coord_budget(d: int) -> int {
    if d <= 0 {
        0
    } else if 64int / d > 32 {
        32
    } else {
        64int / d
    }
}

/// Bit `j` of the Morton key of `ind`: with `D` coordinates, bit `j / D` of coordinate `j % D`,
/// so that `D - 1` bits of other coordinates separate consecutive bits of one coordinate.
pub open spec fn key_bit(ind: Seq<u32>, j: int) -> bool {
    let d = ind.len() as int;
    d > 0 && 0 <= j < 64 && j / d < coord_budget(d) && (ind[j % d] >> ((j / d) as u32)) & 1 == 1
}

/// The low `n` bits of the Morton key of `ind`.
pub open spec fn morton_prefix(ind: Seq<u32>, n: nat) -> u64
    decreases n,
{
    if n == 0 {
        0
    } else {
        morton_prefix(ind, (n - 1) as nat) | (if key_bit(ind, n - 1) {
            1u64 << ((n - 1) as u64)
        } else {
            0u64
        })
    }
}

/// The Morton key of a quantized point: bit `k` of coordinate `i` lands at bit `D * k + i`.
pub open spec fn morton_key(ind: Seq<u32>) -> u64 {
    morton_prefix(ind, 64)
}

/// The low `n` bits of coordinate `i` read back from a key of `d` coordinates: bit `k` of the
/// coordinate is bit `d * k + i` of the key.
pub open spec fn coord_prefix(key: u64, d: int, i: int, n: nat) -> u64
    decreases n,
{
    if n == 0 {
        0
    } else {
        coord_prefix(key, d, i, (n - 1) as nat) | (if (key >> ((d * (n - 1) + i) as u64)) & 1 == 1 {
            1u64 << ((n - 1) as u64)
        } else {
            0u64
        })
    }
}

/// Coordinate `i` of a key of `d` coordinates.
pub open spec fn morton_coord(key: u64, d: int, i: int) -> u32 {
    coord_prefix(key, d, i, coord_budget(d) as nat) as u32
}

fn budget_of(d: usize) -> (r: usize)
    ensures
        r as int == coord_budget(d as int),
        r <= 32,
{
    if d == 0 {
        0
    } else if 64 / d > 32 {
        32
    } else {
        64 / d
    }
}

/// Interleaves the bits of the coordinates into one Morton key: with `D` coordinates, bit `k`
/// of coordinate `i` goes to bit `D * k + i`, for the `floor(64 / D)` low bits of each.
pub fn encode_morton_64bit(ind: Vec<u32>) -> (r: u64)
    ensures
        r == morton_key(ind@),
{
    let d = ind.len();
    let budget = budget_of(d);
    let mut key: u64 = 0;
    let mut j: usize = 0;
    while j < 64
        invariant
            j <= 64,
            d == ind.len(),
            budget as int == coord_budget(d as int),
            budget <= 32,
            key == morton_prefix(ind@, j as nat),
        decreases 64 - j,
    {
        let ghost before = key;
        if d > 0 && j / d < budget {
            let bit = (ind[j % d] >> ((j / d) as u32)) & 1;
            if bit == 1 {
                key = key | (1u64 << (j as u64));
            }
        }
        proof {
            lemma_or_zero(before);
            assert(key == morton_prefix(ind@, (j + 1) as nat));
        }
        j = j + 1;
    }
    key
}

/// Reads the `dims` coordinates back out of a Morton key: the inverse of
/// `encode_morton_64bit` on coordinates within the bit budget.
pub fn decode_morton_64bit(key: u64, dims: usize) -> (r: Vec<u32>)
    ensures
        r@.len() == dims,
        forall|i: int| 0 <= i < dims ==> r@[i] == morton_coord(key, dims as int, i),
{
    let budget = budget_of(dims);
    let mut r: Vec<u32> = Vec::new();
    let mut i: usize = 0;
    while i < dims
        invariant
            i <= dims,
            budget as int == coord_budget(dims as int),
            budget <= 32,
            r@.len() == i,
            forall|c: int| 0 <= c < i ==> r@[c] == morton_coord(key, dims as int, c),
        decreases dims - i,
    {
        let mut value: u64 = 0;
        let mut k: usize = 0;
        while k < budget
            invariant
                i < dims,
                k <= budget,
                budget as int == coord_budget(dims as int),
                budget <= 32,
                value == coord_prefix(key, dims as int, i as int, k as nat),
            decreases budget - k,
        {
            proof {
                assert(dims * k + i < 64) by (nonlinear_arith)
                    requires
                        k < budget,
                        budget <= 64int / (dims as int),
                        i < dims,
                        dims > 0,
                ;
            }
            let pos = dims * k + i;
            proof {
                lemma_or_zero(value);
            }
            if (key >> (pos as u64)) & 1 == 1 {
                value = value | (1u64 << (k as u64));
            }
            k = k + 1;
        }
        r.push(value as u32);
        i = i + 1;
    }
    r
}

proof fn lemma_set_bit(x: u64, m: u64, j: u64)
    by (bit_vector)
    requires
        m < 64,
        j < 64,
    ensures
        ((x | (1u64 << m)) >> j) & 1 == (if j == m {
            1u64
        } else {
            (x >> j) & 1
        }),
        x | 0u64 == x,
        (0u64 >> j) & 1 == 0,
{
}

/// Bit `j` of the key's low `n` bits is `key_bit(ind, j)` below `n`, and 0 from `n` on.
proof fn lemma_prefix_bit(ind: Seq<u32>, n: nat, j: u64)
    requires
        n <= 64,
        j < 64,
    ensures
        ((morton_prefix(ind, n) >> j) & 1 == 1) == (j < n && key_bit(ind, j as int)),
    decreases n,
{
    if n == 0 {
        lemma_set_bit(0, 0, j);
    } else {
        let m = (n - 1) as u64;
        let p = morton_prefix(ind, (n - 1) as nat);
        lemma_prefix_bit(ind, (n - 1) as nat, j);
        lemma_set_bit(p, m, j);
    }
}

proof fn lemma_add_bit(x: u64, c: u64, n: u64)
    by (bit_vector)
    requires
        n < 32,
        c == x & (((1u64 << n) - 1) as u64),
    ensures
        (c | (if (x >> n) & 1 == 1 {
            1u64 << n
        } else {
            0u64
        })) == x & (((1u64 << (n + 1)) - 1) as u64),
{
}

proof fn lemma_or_zero(x: u64)
    by (bit_vector)
    ensures
        x | 0u64 == x,
        x & (((1u64 << 0u64) - 1) as u64) == 0,
{
}

/// Reading back the low `n` bits of a coordinate gives those bits of `x`, when the key holds
/// the bits of `x` at the coordinate's places.
proof fn lemma_coord_prefix(key: u64, d: int, i: int, n: nat, x: u64)
    requires
        d >= 1,
        0 <= i < d,
        n <= 32,
        forall|k: int|
            0 <= k < n ==> (#[trigger] ((key >> ((d * k + i) as u64)) & 1) == 1) == ((x >> (k as u64)) & 1
                == 1),
    ensures
        coord_prefix(key, d, i, n) == x & (((1u64 << (n as u64)) - 1) as u64),
    decreases n,
{
    if n == 0 {
        lemma_or_zero(x);
    } else {
        let m = (n - 1) as int;
        lemma_coord_prefix(key, d, i, (n - 1) as nat, x);
        assert(((key >> ((d * m + i) as u64)) & 1 == 1) == ((x >> (m as u64)) & 1 == 1));
        lemma_add_bit(x, coord_prefix(key, d, i, (n - 1) as nat), m as u64);
    }
}

proof fn lemma_widen_bit(x: u32, k: u32)
    by (bit_vector)
    requires
        k < 32,
    ensures
        (((x as u64) >> (k as u64)) & 1 == 1) == ((x >> k) & 1 == 1),
{
}

proof fn lemma_fits(x: u64, b: u64)
    by (bit_vector)
    requires
        b <= 32,
        x < (1u64 << b),
    ensures
        x & (((1u64 << b) - 1) as u64) == x,
{
}

/// Morton keys are reversible within the bit budget: with `D` coordinates, a coordinate that
/// uses at most `floor(64 / D)` bits is read back exactly from the key.
pub proof fn lemma_morton_round_trip(ind: Seq<u32>, i: int)
    requires
        0 <= i < ind.len(),
        (ind[i] as u64) < (1u64 << (coord_budget(ind.len() as int) as u64)),
    ensures
        morton_coord(morton_key(ind), ind.len() as int, i) == ind[i],
{
    let d = ind.len() as int;
    let b = coord_budget(d);
    let key = morton_key(ind);
    let x = ind[i] as u64;
    assert forall|k: int| 0 <= k < b implies (#[trigger] ((key >> ((d * k + i) as u64)) & 1) == 1)
        == ((x >> (k as u64)) & 1 == 1) by {
        assert(d * k + i < 64 && (d * k + i) / d == k && (d * k + i) % d == i) by (nonlinear_arith)
            requires
                0 <= k < b,
                b <= 64int / d,
                0 <= i < d,
        ;
        lemma_prefix_bit(ind, 64, (d * k + i) as u64);
        lemma_widen_bit(ind[i], k as u32);
    }
    lemma_coord_prefix(key, d, i, b as nat, x);
    lemma_fits(x, b as u64);
}

proof fn lemma_bit_bounds(p: u64, m: u64)
    by (bit_vector)
    requires
        m < 63,
        p < (1u64 << m),
    ensures
        (p | (1u64 << m)) < (1u64 << (m + 1)),
        p < (1u64 << (m + 1)),
{
}

proof fn lemma_high_bit_clear(x: u64, b: u64, k: u64)
    by (bit_vector)
    requires
        b <= k,
        k < 64,
        x < (1u64 << b),
    ensures
        (x >> k) & 1 == 0,
{
}

/// The low `n` bits of a key are below `2^n`.
proof fn lemma_prefix_below(ind: Seq<u32>, n: nat)
    requires
        n < 64,
    ensures
        morton_prefix(ind, n) < (1u64 << (n as u64)),
    decreases n,
{
    if n == 0 {
        assert(0u64 < (1u64 << 0u64)) by (bit_vector);
    } else {
        let p = morton_prefix(ind, (n - 1) as nat);
        lemma_prefix_below(ind, (n - 1) as nat);
        lemma_bit_bounds(p, (n - 1) as u64);
        lemma_or_zero(p);
    }
}

/// Past the last bit that is set, the key's prefix no longer changes.
proof fn lemma_prefix_stops(ind: Seq<u32>, m: nat, n: nat)
    requires
        m <= n <= 64,
        forall|j: int| m <= j < n ==> !key_bit(ind, j),
    ensures
        morton_prefix(ind, n) == morton_prefix(ind, m),
    decreases n,
{
    if n > m {
        lemma_prefix_stops(ind, m, (n - 1) as nat);
        lemma_or_zero(morton_prefix(ind, (n - 1) as nat));
    }
}

/// A Morton key of `D` coordinates that each fit in `bits` bits fits in `D * bits` bits.
pub proof fn lemma_morton_key_bound(ind: Seq<u32>, bits: nat)
    requires
        ind.len() >= 1,
        ind.len() * bits < 64,
        forall|i: int| 0 <= i < ind.len() ==> (#[trigger] ind[i] as u64) < (1u64 << (bits as u64)),
    ensures
        morton_key(ind) < (1u64 << ((ind.len() * bits) as u64)),
{
    let d = ind.len() as int;
    let m = (d * bits) as nat;
    assert forall|j: int| m <= j < 64 implies !key_bit(ind, j) by {
        if j / d < coord_budget(d) {
            let k = j / d;
            let i = j % d;
            assert(k >= bits && 0 <= i < d) by (nonlinear_arith)
                requires
                    d >= 1,
                    j >= d * bits,
                    k == j / d,
                    i == j % d,
            ;
            lemma_high_bit_clear(ind[i] as u64, bits as u64, k as u64);
            lemma_widen_bit(ind[i], k as u32);
        }
    }
    lemma_prefix_stops(ind, m, 64);
    lemma_prefix_below(ind, m);
}

} // verus!
