//! Tile ids: a 64-bit sort key for quadtree tiles `(z, x, y)`.
//!
//! Ids for all levels share one number line: level `z` occupies the range
//! `[level_offset(z), level_offset(z + 1))`, and within a level a tile is
//! placed by the Morton code of `(x, y)`, so that spatially close tiles
//! receive close ids.  The mapping is a bijection onto its range, proved
//! below; it serves as the sort key of the run files and as the bucket key
//! of the in-memory tiler.

use vstd::prelude::*;

verus! {

/// Bits of `x` below position `n`, interleaved every other bit starting at
/// bit 0: bit `i` of `x` appears at bit `2*i` of the result.
pub closed spec fn spread2(x: u64, n: u64) -> u64
    decreases n,
{
    if n == 0 {
        0u64
    } else {
        let i = (n - 1) as u64;
        spread2(x, i) | (((x >> i) & 1) << ((2 * i) as u64))
    }
}

/// The Morton code of two 32-bit coordinates; a bijection between pairs of
/// 32-bit values and 64-bit values.
pub open spec fn morton2(x: u64, y: u64) -> u64 {
    spread2(x, 32) | (spread2(y, 32) << 1)
}

/// Every other bit of `m` starting at bit 0, compacted: bit `2*i` of `m`
/// appears at bit `i` of the result.
pub closed spec fn unspread2(m: u64, n: u64) -> u64
    decreases n,
{
    if n == 0 {
        0u64
    } else {
        let i = (n - 1) as u64;
        unspread2(m, i) | (((m >> ((2 * i) as u64)) & 1) << i)
    }
}

/// First id of level `z`: the number of tiles on all coarser levels,
/// `(4^z - 1) / 3`.
pub open spec fn level_offset(z: nat) -> nat
    decreases z,
{
    if z == 0 {
        0
    } else {
        4 * level_offset((z - 1) as nat) + 1
    }
}

/// The id of tile `(z, x, y)`.
pub open spec fn tile_id(z: nat, x: u64, y: u64) -> int {
    level_offset(z) + morton2(x, y)
}

/// Level offsets grow with the level.
pub proof fn lemma_level_offset_monotonic(a: nat, b: nat)
    requires
        a <= b,
    ensures
        level_offset(a) <= level_offset(b),
    decreases b,
{
    if a < b {
        lemma_level_offset_monotonic(a, (b - 1) as nat);
    }
}

/// `level_offset(z) == (4^z - 1) / 3`, bounded for the levels that fit a
/// `u64` id: `level_offset(32)` is the number of tiles on levels 0 to 31.
pub proof fn lemma_level_offset_values()
    ensures
        level_offset(31) == 0x1555555555555555,
        level_offset(32) == 0x5555555555555555,
{
    reveal_with_fuel(level_offset, 33);
    assert(level_offset(31) == 0x1555555555555555);
    assert(level_offset(32) == 0x5555555555555555);
}

/// A Morton code of two coordinates below `2^z` stays below `4^z`.
proof fn lemma_morton2_bound(x: u64, y: u64, z: u64)
    requires
        z <= 32,
        z < 32 ==> x < (1u64 << z) && y < (1u64 << z),
    ensures
        z < 32 ==> morton2(x, y) < (1u64 << (2 * z) as u64),
{
    assert(z < 32 && x < (1u64 << z) && y < (1u64 << z) ==> (spread2(x, 32) | (spread2(y, 32)
        << 1)) < (1u64 << ((2 * z) as u64))) by (bit_vector);
}

/// The two coordinates are recovered from their Morton code, and every
/// 64-bit value is the Morton code of the pair it deinterleaves to.
pub proof fn lemma_morton2_bijective(x: u64, y: u64, m: u64)
    requires
        x < 0x100000000,
        y < 0x100000000,
    ensures
        unspread2(morton2(x, y), 32) == x,
        unspread2(morton2(x, y) >> 1, 32) == y,
        morton2(unspread2(m, 32), unspread2(m >> 1, 32)) == m,
{
    assert(x < 0x100000000 && y < 0x100000000 ==> {
        let c = spread2(x, 32) | (spread2(y, 32) << 1);
        unspread2(c, 32) == x && unspread2(c >> 1, 32) == y
    }) by (bit_vector);
    assert((spread2(unspread2(m, 32), 32) | (spread2(unspread2(m >> 1, 32), 32) << 1)) == m)
        by (bit_vector);
}

/// Distinct tiles of the quadtree receive distinct ids.  Together with
/// the contracts of `zxy_to_id` and `id_to_zxy` — the one returns
/// `tile_id(z, x, y)`, the other a valid key with that very id — this
/// gives the round trip: decoding an encoded key recovers it exactly.
pub proof fn lemma_tile_id_injective(z1: u8, x1: u32, y1: u32, z2: u8, x2: u32, y2: u32)
    requires
        z1 <= 31 && x1 < (1u64 << (z1 as u64)) && y1 < (1u64 << (z1 as u64)),
        z2 <= 31 && x2 < (1u64 << (z2 as u64)) && y2 < (1u64 << (z2 as u64)),
        tile_id(z1 as nat, x1 as u64, y1 as u64) == tile_id(z2 as nat, x2 as u64, y2 as u64),
    ensures
        z1 == z2 && x1 == x2 && y1 == y2,
{
    lemma_level_within_bounds(z1 as nat, x1 as u64, y1 as u64);
    lemma_level_within_bounds(z2 as nat, x2 as u64, y2 as u64);
    if z1 < z2 {
        lemma_level_offset_monotonic((z1 + 1) as nat, z2 as nat);
    }
    if z2 < z1 {
        lemma_level_offset_monotonic((z2 + 1) as nat, z1 as nat);
    }
    lemma_morton2_bijective(x1 as u64, y1 as u64, 0);
    lemma_morton2_bijective(x2 as u64, y2 as u64, 0);
}

/// A tile's id lies inside its level's id range.
proof fn lemma_level_within_bounds(z: nat, x: u64, y: u64)
    requires
        z <= 31,
        x < (1u64 << (z as u64)),
        y < (1u64 << (z as u64)),
    ensures
        level_offset(z) <= tile_id(z, x, y) < level_offset((z + 1) as nat),
{
    lemma_morton2_bound(x, y, z as u64);
    lemma_pow4_shift(z as u64);
}

/// `level_offset(z + 1) - level_offset(z)` equals `4^z`, written as a shift.
proof fn lemma_pow4_shift(z: u64)
    requires
        z < 32,
    ensures
        3 * level_offset(z as nat) + 1 == (1u64 << ((2 * z) as u64)),
    decreases z,
{
    if z == 0 {
        assert((1u64 << 0u64) == 1) by (bit_vector);
    } else {
        lemma_pow4_shift((z - 1) as u64);
        assert(1 <= z < 32 ==> (1u64 << ((2 * z) as u64)) == 4 * (1u64 << ((2 * (z - 1)) as u64)))
            by (bit_vector);
    }
}

/// The sort key of the external-sort stage: a leaf tile id.
#[derive(Debug, Copy, Clone, Eq, PartialEq, Structural)]
pub struct SortKey {
    pub tile_id: u64,
}

/// The scheme that maps a tile key to its 64-bit id.  One scheme is
/// provided: the level-offset Morton curve of this module.
#[derive(Clone, Copy, Debug)]
pub enum TileIdMethod {
    Morton,
}

impl TileIdMethod {
    /// The id of tile `(z, x, y)`.
    pub fn zxy_to_id(&self, z: u8, x: u32, y: u32) -> (r: u64)
        requires
            z <= 31,
            x < (1u64 << (z as u64)),
            y < (1u64 << (z as u64)),
        ensures
            r == tile_id(z as nat, x as u64, y as u64),
    {
        let offset = level_offset_exec(z);
        let code = interleave2(x, y);
        proof {
            lemma_level_within_bounds(z as nat, x as u64, y as u64);
            lemma_level_offset_monotonic((z + 1) as nat, 32);
            lemma_level_offset_values();
        }
        offset + code
    }

    /// The tile key whose id is `id`; inverse of `zxy_to_id` on the ids of
    /// the quadtree's 32 levels.
    pub fn id_to_zxy(&self, id: u64) -> (r: (u8, u32, u32))
        requires
            id < 0x5555555555555555,
        ensures
            r.0 <= 31,
            r.1 < (1u64 << (r.0 as u64)),
            r.2 < (1u64 << (r.0 as u64)),
            tile_id(r.0 as nat, r.1 as u64, r.2 as u64) == id,
    {
        proof {
            lemma_level_offset_values();
        }
        let mut z: u8 = 0;
        let mut offset: u64 = 0;
        while 4 * offset + 1 <= id
            invariant
                z <= 31,
                offset == level_offset(z as nat),
                offset <= id,
                offset <= 0x1555555555555555,
                id < 0x5555555555555555,
                level_offset(31) == 0x1555555555555555,
                level_offset(32) == 0x5555555555555555,
            decreases 32 - z,
        {
            proof {
                if z == 31 {
                    assert(4 * offset + 1 == level_offset(32));
                }
                lemma_level_offset_monotonic((z + 1) as nat, 31);
            }
            offset = 4 * offset + 1;
            z = z + 1;
        }
        let pos = id - offset;
        proof {
            lemma_pow4_shift(z as u64);
        }
        let (x, y) = deinterleave2(pos);
        proof {
            lemma_morton2_bijective(0, 0, pos);
            assert(pos < (1u64 << ((2 * (z as u64)) as u64)) ==> unspread2(pos, 32) < (1u64 << (
            z as u64)) && unspread2(pos >> 1, 32) < (1u64 << (z as u64))) by (bit_vector);
        }
        (z, x, y)
    }
}

/// First id of level `z`, computed by the recurrence of `level_offset`.
fn level_offset_exec(z: u8) -> (r: u64)
    requires
        z <= 32,
    ensures
        r == level_offset(z as nat),
{
    proof {
        lemma_level_offset_values();
    }
    let mut i: u8 = 0;
    let mut offset: u64 = 0;
    while i < z
        invariant
            i <= z <= 32,
            offset == level_offset(i as nat),
            level_offset(32) == 0x5555555555555555,
        decreases z - i,
    {
        proof {
            lemma_level_offset_monotonic((i + 1) as nat, 32);
        }
        offset = 4 * offset + 1;
        i = i + 1;
    }
    offset
}

/// Interleave the bits of two 32-bit coordinates into a Morton code.
pub fn interleave2(x: u32, y: u32) -> (r: u64)
    ensures
        r == morton2(x as u64, y as u64),
{
    let sx = part1by1(x);
    let sy = part1by1(y);
    sx | (sy << 1)
}

/// Recover the two coordinates of a Morton code.
pub fn deinterleave2(m: u64) -> (r: (u32, u32))
    ensures
        r.0 == unspread2(m, 32),
        r.1 == unspread2(m >> 1, 32),
{
    let x = compact1by1(m);
    let y = compact1by1(m >> 1);
    (x, y)
}

/// Spread the 32 bits of `n`, one zero bit between consecutive bits.
fn part1by1(n: u32) -> (r: u64)
    ensures
        r == spread2(n as u64, 32),
{
    let n0 = n as u64;
    let a = (n0 | n0 << 16) & 0x0000ffff0000ffff;
    let b = (a | a << 8) & 0x00ff00ff00ff00ff;
    let c = (b | b << 4) & 0x0f0f0f0f0f0f0f0f;
    let d = (c | c << 2) & 0x3333333333333333;
    let r = (d | d << 1) & 0x5555555555555555;
    proof {
        assert(n0 < 0x100000000 ==> ({
            let a = (n0 | n0 << 16) & 0x0000ffff0000ffff;
            let b = (a | a << 8) & 0x00ff00ff00ff00ff;
            let c = (b | b << 4) & 0x0f0f0f0f0f0f0f0f;
            let d = (c | c << 2) & 0x3333333333333333;
            (d | d << 1) & 0x5555555555555555
        }) == spread2(n0, 32)) by (bit_vector);
    }
    r
}

/// Compact every other bit of `n`: the inverse mask chain of `part1by1`.
fn compact1by1(n: u64) -> (r: u32)
    ensures
        r == unspread2(n, 32),
{
    let a = n & 0x5555555555555555;
    let b = (a ^ (a >> 1)) & 0x3333333333333333;
    let c = (b ^ (b >> 2)) & 0x0f0f0f0f0f0f0f0f;
    let d = (c ^ (c >> 4)) & 0x00ff00ff00ff00ff;
    let e = (d ^ (d >> 8)) & 0x0000ffff0000ffff;
    let f = (e ^ (e >> 16)) & 0x00000000ffffffff;
    proof {
        assert(({
            let a = n & 0x5555555555555555;
            let b = (a ^ (a >> 1)) & 0x3333333333333333;
            let c = (b ^ (b >> 2)) & 0x0f0f0f0f0f0f0f0f;
            let d = (c ^ (c >> 4)) & 0x00ff00ff00ff00ff;
            let e = (d ^ (d >> 8)) & 0x0000ffff0000ffff;
            (e ^ (e >> 16)) & 0x00000000ffffffff
        }) == unspread2(n, 32)) by (bit_vector);
        assert((e ^ (e >> 16)) & 0x00000000ffffffff < 0x100000000u64) by (bit_vector);
    }
    f as u32
}

} // verus!
