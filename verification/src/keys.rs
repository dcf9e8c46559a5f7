//! Coordinates of chunks and regions, and the floored-division math that
//! groups a 32x32 grid of chunk columns into one region.

use vstd::prelude::*;

verus! {

/// One of the world's parallel spaces.
#[derive(Clone, Copy, PartialEq, Eq, Structural, Debug, Hash)]
pub enum Dimension {
    Overworld,
    Nether,
    End,
}

/// Identifies one 16x16x16 chunk section. `cx` and `cz` are chunk-grid
/// coordinates (block coordinate divided by 16); `cy` is a section index.
#[derive(Clone, Copy, PartialEq, Eq, Structural, Debug, Hash)]
pub struct ChunkKey {
    pub dimension: Dimension,
    pub cx: i32,
    pub cy: i8,
    pub cz: i32,
}

/// Identifies one region: a 32x32 grid of chunk columns backed by one file.
#[derive(Clone, Copy, PartialEq, Eq, Structural, Debug, Hash)]
pub struct RegionKey {
    pub dimension: Dimension,
    pub rx: i32,
    pub rz: i32,
}

/// Position of a chunk section relative to its region: `rel_x` and `rel_z`
/// are in `0..32`.
#[derive(Clone, Copy, PartialEq, Eq, Structural, Debug, Hash)]
pub struct ChunkPos {
    pub rel_x: u8,
    pub cy: i8,
    pub rel_z: u8,
}

impl RegionKey {
    /// Region coordinates that can arise from a chunk coordinate: the image
    /// of `i32` under floored division by 32.
    pub open spec fn wf(self) -> bool {
        &&& -67108864 <= self.rx < 67108864
        &&& -67108864 <= self.rz < 67108864
    }
}

impl ChunkPos {
    pub open spec fn wf(self) -> bool {
        self.rel_x < 32 && self.rel_z < 32
    }
}

/// Floored division of a chunk coordinate by 32, with the Euclidean
/// remainder: the region coordinate and the position within the region.
pub fn region_coord(c: i32) -> (r: (i32, u8))
    ensures
        r.0 == c as int / 32,
        r.1 == c as int % 32,
        r.0 * 32 + r.1 == c,
        r.1 < 32,
        -67108864 <= r.0 < 67108864,
{
    let shifted: u64 = ((c as i64) + 2147483648) as u64;
    let q: u64 = shifted / 32;
    let rem: u64 = shifted % 32;
    proof {
        vstd::arithmetic::div_mod::lemma_fundamental_div_mod(shifted as int, 32);
    }
    let region: i32 = ((q as i64) - 67108864) as i32;
    proof {
        lemma_region_coord_unique(c as int, region as int, rem as int);
    }
    (region, rem as u8)
}

/// The pair `(region, rel)` with `region * 32 + rel == c` and `rel` in
/// `0..32` is unique, and is exactly `(c / 32, c % 32)` under Euclidean
/// division.
pub proof fn lemma_region_coord_unique(c: int, region: int, rel: int)
    requires
        region * 32 + rel == c,
        0 <= rel < 32,
    ensures
        region == c / 32,
        rel == c % 32,
{
    vstd::arithmetic::div_mod::lemma_fundamental_div_mod(c, 32);
    vstd::arithmetic::div_mod::lemma_mod_bound(c, 32);
}

/// Reassembles a chunk coordinate from its region coordinate and its
/// position within the region.
pub fn chunk_coord(region: i32, rel: u8) -> (c: i32)
    requires
        -67108864 <= region < 67108864,
        rel < 32,
    ensures
        c == region * 32 + rel,
        c as int / 32 == region,
        c as int % 32 == rel,
{
    let c: i32 = region * 32 + (rel as i32);
    proof {
        lemma_region_coord_unique(c as int, region as int, rel as int);
    }
    c
}

impl ChunkKey {
    /// The region this chunk section falls in.
    pub open spec fn spec_region_key(self) -> RegionKey {
        RegionKey {
            dimension: self.dimension,
            rx: (self.cx as int / 32) as i32,
            rz: (self.cz as int / 32) as i32,
        }
    }

    /// The position of this chunk section within its region.
    pub open spec fn spec_rel_pos(self) -> ChunkPos {
        ChunkPos {
            rel_x: (self.cx as int % 32) as u8,
            cy: self.cy,
            rel_z: (self.cz as int % 32) as u8,
        }
    }

    pub fn region_key(&self) -> (r: RegionKey)
        ensures
            r == self.spec_region_key(),
            r.wf(),
    {
        let (rx, _) = region_coord(self.cx);
        let (rz, _) = region_coord(self.cz);
        RegionKey { dimension: self.dimension, rx, rz }
    }

    pub fn rel_pos(&self) -> (p: ChunkPos)
        ensures
            p == self.spec_rel_pos(),
            p.wf(),
    {
        let (_, rel_x) = region_coord(self.cx);
        let (_, rel_z) = region_coord(self.cz);
        ChunkPos { rel_x, cy: self.cy, rel_z }
    }
}

/// Every chunk key's region key is well formed, and key, region and relative
/// position are tied together by the floored-division identity.
pub proof fn lemma_key_decomposition(k: ChunkKey)
    ensures
        k.spec_region_key().wf(),
        k.spec_rel_pos().wf(),
        k.spec_region_key().rx * 32 + k.spec_rel_pos().rel_x == k.cx,
        k.spec_region_key().rz * 32 + k.spec_rel_pos().rel_z == k.cz,
{
    vstd::arithmetic::div_mod::lemma_fundamental_div_mod(k.cx as int, 32);
    vstd::arithmetic::div_mod::lemma_mod_bound(k.cx as int, 32);
    vstd::arithmetic::div_mod::lemma_fundamental_div_mod(k.cz as int, 32);
    vstd::arithmetic::div_mod::lemma_mod_bound(k.cz as int, 32);
    assert(-67108864 <= k.cx as int / 32 < 67108864) by {
        vstd::arithmetic::div_mod::lemma_div_is_ordered(-2147483648, k.cx as int, 32);
        vstd::arithmetic::div_mod::lemma_div_is_ordered(k.cx as int, 2147483647, 32);
    }
    assert(-67108864 <= k.cz as int / 32 < 67108864) by {
        vstd::arithmetic::div_mod::lemma_div_is_ordered(-2147483648, k.cz as int, 32);
        vstd::arithmetic::div_mod::lemma_div_is_ordered(k.cz as int, 2147483647, 32);
    }
}

} // verus!
