//! Identity of a tile in the zoom pyramid.

use vstd::prelude::*;

verus! {

/// The column, row and zoom level of one tile, each truncated to an
/// unsigned 32-bit value.
///
/// Two identifiers are the same tile exactly when the three components
/// agree; equality and hashing both go by these fields alone.
#[derive(Debug, Clone, Copy, PartialEq, Eq, Hash, Structural)]
pub struct TileId {
    pub x: u32,
    pub y: u32,
    pub z: u32,
}

/// `v` truncated into `0..=u32::MAX`: negative values become `0`, values
/// above the range become `u32::MAX`.
pub open spec fn truncate_u32(v: int) -> int {
    if v < 0 {
        0
    } else if v > u32::MAX {
        u32::MAX as int
    } else {
        v
    }
}

fn truncate(v: i64) -> (r: u32)
    ensures
        r == truncate_u32(v as int),
{
    if v < 0 {
        0
    } else if v > u32::MAX as i64 {
        u32::MAX
    } else {
        v as u32
    }
}

impl TileId {
    pub open spec fn spec_new(x: int, y: int, z: int) -> TileId {
        TileId {
            x: truncate_u32(x) as u32,
            y: truncate_u32(y) as u32,
            z: truncate_u32(z) as u32,
        }
    }

    /// The identifier of the tile at grid column `x`, row `y` and zoom `z`;
    /// each component is truncated into the `u32` range.
    pub fn new(x: i64, y: i64, z: i64) -> (r: TileId)
        ensures
            r == TileId::spec_new(x as int, y as int, z as int),
    {
        TileId { x: truncate(x), y: truncate(y), z: truncate(z) }
    }

    pub fn x(&self) -> (r: u32)
        ensures
            r == self.x,
    {
        self.x
    }

    pub fn y(&self) -> (r: u32)
        ensures
            r == self.y,
    {
        self.y
    }

    pub fn z(&self) -> (r: u32)
        ensures
            r == self.z,
    {
        self.z
    }

    /// One integer that tells tiles apart: zoom, column and row packed
    /// side by side.
    pub open spec fn spec_key(self) -> int {
        self.z * 0x1_0000_0000_0000_0000 + self.x * 0x1_0000_0000 + self.y
    }

    pub fn key(&self) -> (r: u128)
        ensures
            r == self.spec_key(),
    {
        (self.z as u128) * 0x1_0000_0000_0000_0000 + (self.x as u128) * 0x1_0000_0000 + (self.y as u128)
    }
}

/// Identifiers built from components that truncate to the same values are
/// the same tile (and, their fields being equal, hash alike).
pub proof fn lemma_equal_after_truncation(x1: int, y1: int, z1: int, x2: int, y2: int, z2: int)
    requires
        truncate_u32(x1) == truncate_u32(x2),
        truncate_u32(y1) == truncate_u32(y2),
        truncate_u32(z1) == truncate_u32(z2),
    ensures
        TileId::spec_new(x1, y1, z1) == TileId::spec_new(x2, y2, z2),
{
}

/// Distinct tiles have distinct keys.
pub proof fn lemma_key_injective(a: TileId, b: TileId)
    ensures
        a.spec_key() == b.spec_key() ==> a == b,
{
    if a.spec_key() == b.spec_key() {
        let (ax, ay, az, bx, by, bz) = (a.x as int, a.y as int, a.z as int, b.x as int, b.y as int, b.z as int);
        assert(az == bz && ax == bx && ay == by) by (nonlinear_arith)
            requires
                az * 0x1_0000_0000_0000_0000 + ax * 0x1_0000_0000 + ay == bz * 0x1_0000_0000_0000_0000 + bx
                    * 0x1_0000_0000 + by,
                0 <= ax < 0x1_0000_0000,
                0 <= ay < 0x1_0000_0000,
                0 <= az < 0x1_0000_0000,
                0 <= bx < 0x1_0000_0000,
                0 <= by < 0x1_0000_0000,
                0 <= bz < 0x1_0000_0000,
        ;
    }
}

} // verus!
