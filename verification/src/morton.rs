//! Morton (Z-order) codes: bit interleaving of two or three coordinates.
//!
//! The three-way code orders decimated points and octree cells; a two-way
//! code is the within-level part of the quadtree tile id.  Each coordinate
//! contributes its low bits, spread so that bit `i` of the first coordinate
//! lands at bit `d*i` of the code (for `d` coordinates interleaved).

use vstd::prelude::*;

verus! {

/// Bits of `x` below position `n`, interleaved every third bit starting at
/// bit 0: bit `i` of `x` appears at bit `3*i` of the result.
pub closed spec fn spread3(x: u64, n: u64) -> u64
    decreases n,
{
    if n == 0 {
        0u64
    } else {
        let i = (n - 1) as u64;
        spread3(x, i) | (((x >> i) & 1) << ((3 * i) as u64))
    }
}

/// The 63-bit Morton code of three 21-bit coordinates.
pub open spec fn morton3(x: u64, y: u64, z: u64) -> u64 {
    spread3(x, 21) | (spread3(y, 21) << 1) | (spread3(z, 21) << 2)
}

/// Every third bit of `m` starting at bit 0, compacted: bit `3*i` of `m`
/// appears at bit `i` of the result, for `i` below `n`.
pub closed spec fn unspread3(m: u64, n: u64) -> u64
    decreases n,
{
    if n == 0 {
        0u64
    } else {
        let i = (n - 1) as u64;
        unspread3(m, i) | (((m >> ((3 * i) as u64)) & 1) << i)
    }
}

/// The low 21 bits of each coordinate are recovered from its Morton code.
pub proof fn lemma_morton3_roundtrip(x: u64, y: u64, z: u64)
    requires
        x < 0x200000,
        y < 0x200000,
        z < 0x200000,
    ensures
        unspread3(morton3(x, y, z), 21) == x,
        unspread3(morton3(x, y, z) >> 1, 21) == y,
        unspread3(morton3(x, y, z) >> 2, 21) == z,
{
    assert(x < 0x200000 && y < 0x200000 && z < 0x200000 ==> {
        let m = spread3(x, 21) | (spread3(y, 21) << 1) | (spread3(z, 21) << 2);
        unspread3(m, 21) == x && unspread3(m >> 1, 21) == y && unspread3(m >> 2, 21) == z
    }) by (bit_vector);
}

/// Morton codes separate distinct coordinate triples.
pub proof fn lemma_morton3_injective(x1: u64, y1: u64, z1: u64, x2: u64, y2: u64, z2: u64)
    requires
        x1 < 0x200000,
        y1 < 0x200000,
        z1 < 0x200000,
        x2 < 0x200000,
        y2 < 0x200000,
        z2 < 0x200000,
        morton3(x1, y1, z1) == morton3(x2, y2, z2),
    ensures
        x1 == x2 && y1 == y2 && z1 == z2,
{
    lemma_morton3_roundtrip(x1, y1, z1);
    lemma_morton3_roundtrip(x2, y2, z2);
}

/// Interleave the low 21 bits of three coordinates into a Morton code.
pub fn interleave_bits(x: u32, y: u32, z: u32) -> (r: u64)
    ensures
        r == morton3((x as u64) & 0x1fffff, (y as u64) & 0x1fffff, (z as u64) & 0x1fffff),
{
    let mx = part1by2(x as u64);
    let my = part1by2(y as u64);
    let mz = part1by2(z as u64);
    mx | (my << 1) | (mz << 2)
}

/// Recover the three coordinates from a Morton code; bits of the code above
/// position 62 are ignored.
pub fn deinterleave_bits(morton_code: u64) -> (r: (u32, u32, u32))
    ensures
        r.0 == unspread3(morton_code, 21),
        r.1 == unspread3(morton_code >> 1, 21),
        r.2 == unspread3(morton_code >> 2, 21),
{
    let x = compact1by2(morton_code);
    let y = compact1by2(morton_code >> 1);
    let z = compact1by2(morton_code >> 2);
    (x, y, z)
}

/// Spread the low 21 bits of `n`, two zero bits between consecutive bits.
fn part1by2(n: u64) -> (r: u64)
    ensures
        r == spread3(n & 0x1fffff, 21),
{
    let a = n & 0x1fffff;
    let b = (a | a << 32) & 0x1f00000000ffff;
    let c = (b | b << 16) & 0x1f0000ff0000ff;
    let d = (c | c << 8) & 0x100f00f00f00f00f;
    let e = (d | d << 4) & 0x10c30c30c30c30c3;
    let r = (e | e << 2) & 0x1249249249249249;
    proof {
        assert(({
            let a = n & 0x1fffff;
            let b = (a | a << 32) & 0x1f00000000ffff;
            let c = (b | b << 16) & 0x1f0000ff0000ff;
            let d = (c | c << 8) & 0x100f00f00f00f00f;
            let e = (d | d << 4) & 0x10c30c30c30c30c3;
            (e | e << 2) & 0x1249249249249249
        }) == spread3(n & 0x1fffff, 21)) by (bit_vector);
    }
    r
}

/// Compact every third bit of `n`: the inverse mask chain of `part1by2`.
fn compact1by2(n: u64) -> (r: u32)
    ensures
        r == unspread3(n, 21),
{
    let a = n & 0x1249249249249249;
    let b = (a ^ (a >> 2)) & 0x10c30c30c30c30c3;
    let c = (b ^ (b >> 4)) & 0x100f00f00f00f00f;
    let d = (c ^ (c >> 8)) & 0x1f0000ff0000ff;
    let e = (d ^ (d >> 16)) & 0x1f00000000ffff;
    let f = (e ^ (e >> 32)) & 0x1fffff;
    proof {
        assert(({
            let a = n & 0x1249249249249249;
            let b = (a ^ (a >> 2)) & 0x10c30c30c30c30c3;
            let c = (b ^ (b >> 4)) & 0x100f00f00f00f00f;
            let d = (c ^ (c >> 8)) & 0x1f0000ff0000ff;
            let e = (d ^ (d >> 16)) & 0x1f00000000ffff;
            (e ^ (e >> 32)) & 0x1fffff
        }) == unspread3(n, 21)) by (bit_vector);
        assert((e ^ (e >> 32)) & 0x1fffff < 0x200000u64) by (bit_vector);
    }
    f as u32
}

/// A tile coordinate of the implicit-tiling side tool: a level and three
/// axis indices.
#[derive(Debug, Clone, Copy)]
pub struct TileCoord {
    pub level: u32,
    pub xyz: [u32; 3],
}

impl TileCoord {
    /// The Morton code of the three axis indices.
    pub fn interleave_bits(&self) -> (r: u64)
        ensures
            r == morton3(
                (self.xyz[0] as u64) & 0x1fffff,
                (self.xyz[1] as u64) & 0x1fffff,
                (self.xyz[2] as u64) & 0x1fffff,
            ),
    {
        let x = self.xyz[0];
        let y = self.xyz[1];
        let z = self.xyz[2];
        interleave_bits(x, y, z)
    }

    /// The three axis indices of a Morton code.
    pub fn deinterleave_bits(morton_code: u64) -> (r: (u32, u32, u32))
        ensures
            r.0 == unspread3(morton_code, 21),
            r.1 == unspread3(morton_code >> 1, 21),
            r.2 == unspread3(morton_code >> 2, 21),
    {
        deinterleave_bits(morton_code)
    }
}

} // verus!
