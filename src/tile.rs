//! Tile coordinates `(x, y, z)` with `0 <= x, y < 2^z`, and their archive key.

use vstd::prelude::*;

verus! {

/// The deepest zoom level a tile coordinate may have.
pub const MAX_ZOOM: u32 = 31;

/// `2^z` as a mathematical integer.
pub open spec fn pow2(z: nat) -> nat
    decreases z,
{
    if z == 0 {
        1
    } else {
        2 * pow2((z - 1) as nat)
    }
}

/// A triple is a tile of the grid when its zoom is supported and both
/// indices lie in `[0, 2^z)`.
pub open spec fn valid_tile(x: int, y: int, z: int) -> bool {
    &&& 0 <= z <= MAX_ZOOM
    &&& 0 <= x < pow2(z as nat)
    &&& 0 <= y < pow2(z as nat)
}

/// Number of tiles on every zoom level below `z`: `1 + 4 + ... + 4^(z-1)`.
pub open spec fn tile_base(z: nat) -> nat
    decreases z,
{
    if z == 0 {
        0
    } else {
        tile_base((z - 1) as nat) + pow2((z - 1) as nat) * pow2((z - 1) as nat)
    }
}

/// Key of tile `(z, x, y)` inside the archive, as the archive format computes it.
pub uninterp spec fn archive_tile_id(z: u8, x: u64, y: u64) -> u64;

#[derive(Debug, Clone, Copy, PartialEq, Eq)]
pub enum TileError {
    /// `x` or `y` lies outside `[0, 2^z)`, or `z` is beyond `MAX_ZOOM`.
    InvalidTileCoordinate,
}

/// A tile of the grid; the fields always satisfy `valid_tile`.
#[derive(Debug, Clone, Copy, PartialEq, Eq)]
pub struct TileCoord {
    x: u32,
    y: u32,
    z: u32,
}

/// Executable `2^z` for the zoom levels of the grid.
pub fn tiles_per_side(z: u32) -> (r: u64)
    requires
        z <= MAX_ZOOM,
    ensures
        r as nat == pow2(z as nat),
        1 <= r <= 0x8000_0000,
{
    let mut r: u64 = 1;
    let mut i: u32 = 0;
    while i < z
        invariant
            i <= z <= MAX_ZOOM,
            r as nat == pow2(i as nat),
            r <= 0x8000_0000,
            r as nat <= pow2(i as nat),
        decreases z - i,
    {
        proof {
            lemma_pow2_bound(i as nat);
        }
        r = r * 2;
        i = i + 1;
    }
    proof {
        lemma_pow2_positive(z as nat);
    }
    r
}

/// `2^z` grows with `z`.
pub proof fn lemma_pow2_monotone(a: nat, b: nat)
    requires
        a <= b,
    ensures
        1 <= pow2(a) <= pow2(b),
    decreases b,
{
    if b > a {
        lemma_pow2_monotone(a, (b - 1) as nat);
    } else {
        lemma_pow2_positive(a);
    }
}

/// `2^z` is at least one.
pub proof fn lemma_pow2_positive(z: nat)
    ensures
        pow2(z) >= 1,
    decreases z,
{
    if z > 0 {
        lemma_pow2_positive((z - 1) as nat);
    }
}

/// `2^z <= 2^31` for every supported zoom.
pub proof fn lemma_pow2_bound(z: nat)
    requires
        z <= MAX_ZOOM,
    ensures
        1 <= pow2(z) <= 0x8000_0000,
        z < MAX_ZOOM ==> pow2(z) <= 0x4000_0000,
{
    reveal_with_fuel(pow2, 32);
    assert(pow2(31) == 0x8000_0000);
    assert(pow2(30) == 0x4000_0000);
    lemma_pow2_monotone(z, 31);
    if z < MAX_ZOOM {
        lemma_pow2_monotone(z, 30);
    }
}

impl TileCoord {
    pub closed spec fn view(&self) -> (int, int, int) {
        (self.x as int, self.y as int, self.z as int)
    }

    pub open spec fn wf(&self) -> bool {
        valid_tile(self@.0, self@.1, self@.2)
    }

    /// The tile `(x, y, z)`, or `InvalidTileCoordinate` when the triple is
    /// not a tile of the grid.
    pub fn new(x: u32, y: u32, z: u32) -> (r: Result<TileCoord, TileError>)
        ensures
            valid_tile(x as int, y as int, z as int) <==> r.is_ok(),
            r.is_ok() ==> r.unwrap()@ == (x as int, y as int, z as int) && r.unwrap().wf(),
            r.is_err() ==> r == Err::<TileCoord, TileError>(TileError::InvalidTileCoordinate),
    {
        if z > MAX_ZOOM {
            return Err(TileError::InvalidTileCoordinate);
        }
        let side = tiles_per_side(z);
        if (x as u64) < side && (y as u64) < side {
            Ok(TileCoord { x, y, z })
        } else {
            Err(TileError::InvalidTileCoordinate)
        }
    }

    pub fn x(&self) -> (r: u32)
        ensures
            r == self@.0,
    {
        self.x
    }

    pub fn y(&self) -> (r: u32)
        ensures
            r == self@.1,
    {
        self.y
    }

    pub fn z(&self) -> (r: u32)
        ensures
            r == self@.2,
    {
        self.z
    }

    /// Key under which the archive stores this tile.
    pub fn archive_id(&self) -> (r: u64)
        requires
            self.wf(),
        ensures
            r == archive_tile_id(self@.2 as u8, self@.0 as u64, self@.1 as u64),
            r as nat >= tile_base(self@.2 as nat),
    {
        archive_key(self.z as u8, self.x as u64, self.y as u64)
    }
}

/// Relies on pmtiles2::util::tile_id: the offset `1 + 4 + ... + 4^(z-1)` of
/// zoom `z` plus the tile's position on the Hilbert curve of order `z`.
/// Within these bounds the sum fits in `u64`.
#[verifier::external_body]
fn archive_key(z: u8, x: u64, y: u64) -> (r: u64)
    requires
        valid_tile(x as int, y as int, z as int),
    ensures
        r == archive_tile_id(z, x, y),
        r as nat >= tile_base(z as nat),
{
    pmtiles2::util::tile_id(z, x, y)
}

} // verus!
