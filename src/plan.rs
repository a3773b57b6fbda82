//! The tile grid planner: for each requested zoom level, the rectangle of
//! tiles that covers the bounding box.
//!
//! The corner tiles are the slippy-map tile indices of the bounding box's
//! `(min_lon, min_lat)` and `(max_lon, max_lat)` corners. Each index is held
//! to `[0, 2^z)`, and because a higher latitude gives a lower row, the rows
//! are put in order before the rectangle is enumerated.

use vstd::prelude::*;

use crate::tile::{pow2, tiles_per_side, valid_tile, TileCoord, MAX_ZOOM};

verus! {

/// A tile index held to the last tile of zoom `z`.
pub open spec fn clip_index(v: u32, z: u32) -> int {
    if v < pow2(z as nat) {
        v as int
    } else {
        pow2(z as nat) - 1
    }
}

/// The inclusive rectangle `(x1, y1, x2, y2)` planned at zoom `z` from the
/// two corner tiles.
pub open spec fn tile_range_of(min_corner: (u32, u32), max_corner: (u32, u32), z: u32) -> (
    int,
    int,
    int,
    int,
) {
    let ya = clip_index(min_corner.1, z);
    let yb = clip_index(max_corner.1, z);
    (
        clip_index(min_corner.0, z),
        if ya <= yb { ya } else { yb },
        clip_index(max_corner.0, z),
        if ya <= yb { yb } else { ya },
    )
}

pub open spec fn in_rect(r: (int, int, int, int), x: int, y: int) -> bool {
    r.0 <= x <= r.2 && r.1 <= y <= r.3
}

/// Tile `(x, y, z)` lies in the rectangle planned for some requested zoom `z`.
pub open spec fn is_planned(
    zooms: Seq<u32>,
    corners: Seq<((u32, u32), (u32, u32))>,
    x: int,
    y: int,
    z: int,
) -> bool {
    exists|i: int|
        0 <= i < zooms.len() && zooms[i] as int == z && in_rect(
            tile_range_of(corners[i].0, corners[i].1, zooms[i]),
            x,
            y,
        )
}

/// A vertex whose tile column lies between the corners' columns and whose
/// row lies between the corners' rows, in either order, falls in the planned
/// rectangle, also when its indices run past the grid and are held to it.
/// The slippy-map tile of every vertex inside the bounding box lies between
/// the corner tiles in this way, so no tile holding a vertex is missed.
pub proof fn lemma_vertex_tile_in_rect(
    min_corner: (u32, u32),
    max_corner: (u32, u32),
    z: u32,
    vx: u32,
    vy: u32,
)
    requires
        z <= MAX_ZOOM,
        min_corner.0 <= vx <= max_corner.0,
        min_corner.1 <= vy <= max_corner.1 || max_corner.1 <= vy <= min_corner.1,
    ensures
        in_rect(tile_range_of(min_corner, max_corner, z), clip_index(vx, z), clip_index(vy, z)),
        valid_tile(clip_index(vx, z), clip_index(vy, z), z as int),
{
    crate::tile::lemma_pow2_positive(z as nat);
}

/// Tile `(x, y, z)` stands in `tiles`.
pub open spec fn contains_tile(tiles: Seq<TileCoord>, x: int, y: int, z: int) -> bool {
    exists|k: int| 0 <= k < tiles.len() && (#[trigger] tiles[k])@ == (x, y, z)
}

proof fn lemma_contains_after_push(tiles: Seq<TileCoord>, t: TileCoord)
    ensures
        contains_tile(tiles.push(t), t@.0, t@.1, t@.2),
        forall|x: int, y: int, z: int|
            #[trigger] contains_tile(tiles, x, y, z) ==> contains_tile(tiles.push(t), x, y, z),
{
    assert(tiles.push(t)[tiles.len() as int] == t);
    assert forall|x: int, y: int, z: int| #[trigger] contains_tile(tiles, x, y, z) implies contains_tile(
        tiles.push(t),
        x,
        y,
        z,
    ) by {
        let k = choose|k: int| 0 <= k < tiles.len() && (#[trigger] tiles[k])@ == (x, y, z);
        assert(tiles.push(t)[k] == tiles[k]);
    }
}

fn clip(v: u32, z: u32) -> (r: u32)
    requires
        z <= MAX_ZOOM,
    ensures
        r as int == clip_index(v, z),
{
    let side = tiles_per_side(z);
    if (v as u64) < side {
        v
    } else {
        (side - 1) as u32
    }
}

/// The inclusive tile rectangle `(x1, y1, x2, y2)` at `zoom` between the two
/// corner tiles, with both indices held to `[0, 2^zoom)` and the rows ordered.
pub fn to_tiles(min_corner: (u32, u32), max_corner: (u32, u32), zoom: u32) -> (r: (
    u32,
    u32,
    u32,
    u32,
))
    requires
        zoom <= MAX_ZOOM,
    ensures
        (r.0 as int, r.1 as int, r.2 as int, r.3 as int) == tile_range_of(
            min_corner,
            max_corner,
            zoom,
        ),
{
    let x1 = clip(min_corner.0, zoom);
    let y1 = clip(min_corner.1, zoom);
    let x2 = clip(max_corner.0, zoom);
    let y2 = clip(max_corner.1, zoom);
    if y1 <= y2 {
        (x1, y1, x2, y2)
    } else {
        (x1, y2, x2, y1)
    }
}

/// Every tile of the rectangles planned for `zoom_levels`, where
/// `corners[i]` holds the corner tiles of the bounding box at `zoom_levels[i]`.
/// Each planned tile is a valid tile of the grid, each tile of each rectangle
/// is planned, and nothing else is.
pub fn plan_tiles(zoom_levels: &Vec<u32>, corners: &Vec<((u32, u32), (u32, u32))>) -> (r: Vec<
    TileCoord,
>)
    requires
        zoom_levels@.len() == corners@.len(),
        forall|i: int| 0 <= i < zoom_levels@.len() ==> zoom_levels@[i] <= MAX_ZOOM,
    ensures
        forall|k: int| 0 <= k < r@.len() ==> (#[trigger] r@[k]).wf(),
        forall|k: int|
            0 <= k < r@.len() ==> is_planned(
                zoom_levels@,
                corners@,
                (#[trigger] r@[k])@.0,
                r@[k]@.1,
                r@[k]@.2,
            ),
        forall|i: int, x: int, y: int|
            0 <= i < zoom_levels@.len() && in_rect(
                tile_range_of(corners@[i].0, corners@[i].1, zoom_levels@[i]),
                x,
                y,
            ) ==> contains_tile(r@, x, y, zoom_levels@[i] as int),
{
    let ghost zs = zoom_levels@;
    let ghost cs = corners@;
    let mut r: Vec<TileCoord> = Vec::new();
    let mut i: usize = 0;
    while i < zoom_levels.len()
        invariant
            zs == zoom_levels@,
            cs == corners@,
            i <= zs.len() == cs.len(),
            forall|j: int| 0 <= j < zs.len() ==> zs[j] <= MAX_ZOOM,
            forall|k: int| 0 <= k < r@.len() ==> (#[trigger] r@[k]).wf(),
            forall|k: int|
                0 <= k < r@.len() ==> is_planned(zs, cs, (#[trigger] r@[k])@.0, r@[k]@.1, r@[k]@.2),
            forall|j: int, x: int, y: int|
                0 <= j < i && in_rect(tile_range_of(cs[j].0, cs[j].1, zs[j]), x, y) ==> contains_tile(r@, x, y, zs[j] as int),
        decreases zs.len() - i,
    {
        let z = zoom_levels[i];
        let (x1, y1, x2, y2) = to_tiles(corners[i].0, corners[i].1, z);
        let ghost rect = tile_range_of(cs[i as int].0, cs[i as int].1, z);
        proof {
            crate::tile::lemma_pow2_bound(z as nat);
        }
        let mut x = x1;
        while x <= x2
            invariant
                zs == zoom_levels@,
                cs == corners@,
                i < zs.len() == cs.len(),
                z == zs[i as int],
                z <= MAX_ZOOM,
                forall|j: int| 0 <= j < zs.len() ==> zs[j] <= MAX_ZOOM,
                rect == tile_range_of(cs[i as int].0, cs[i as int].1, z),
                rect == (x1 as int, y1 as int, x2 as int, y2 as int),
                x2 < pow2(z as nat) <= 0x8000_0000,
                y2 < pow2(z as nat),
                x1 <= x,
                x <= x2 + 1 || x == x1,
                forall|k: int| 0 <= k < r@.len() ==> (#[trigger] r@[k]).wf(),
                forall|k: int|
                    0 <= k < r@.len() ==> is_planned(zs, cs, (#[trigger] r@[k])@.0, r@[k]@.1, r@[k]@.2),
                forall|j: int, xx: int, yy: int|
                    0 <= j < i && in_rect(tile_range_of(cs[j].0, cs[j].1, zs[j]), xx, yy) ==> contains_tile(r@, xx, yy, zs[j] as int),
                forall|xx: int, yy: int|
                    x1 <= xx < x && in_rect(rect, xx, yy) ==> contains_tile(r@, xx, yy, z as int),
            decreases x2 + 1 - x,
        {
            let mut y = y1;
            while y <= y2
                invariant
                    zs == zoom_levels@,
                    cs == corners@,
                    i < zs.len() == cs.len(),
                    z == zs[i as int],
                    z <= MAX_ZOOM,
                    rect == tile_range_of(cs[i as int].0, cs[i as int].1, z),
                    rect == (x1 as int, y1 as int, x2 as int, y2 as int),
                    x2 < pow2(z as nat) <= 0x8000_0000,
                    y2 < pow2(z as nat),
                    x1 <= x <= x2,
                    y1 <= y,
                    y <= y2 + 1,
                    forall|k: int| 0 <= k < r@.len() ==> (#[trigger] r@[k]).wf(),
                    forall|k: int|
                        0 <= k < r@.len() ==> is_planned(
                            zs,
                            cs,
                            (#[trigger] r@[k])@.0,
                            r@[k]@.1,
                            r@[k]@.2,
                        ),
                    forall|j: int, xx: int, yy: int|
                        0 <= j < i && in_rect(tile_range_of(cs[j].0, cs[j].1, zs[j]), xx, yy)
                            ==> contains_tile(r@, xx, yy, zs[j] as int),
                    forall|xx: int, yy: int|
                        x1 <= xx < x && in_rect(rect, xx, yy) ==> contains_tile(r@, xx, yy, z as int),
                    forall|yy: int|
                        y1 <= yy < y ==> contains_tile(r@, x as int, yy, z as int),
                decreases y2 + 1 - y,
            {
                proof {
                    assert(valid_tile(x as int, y as int, z as int));
                }
                match TileCoord::new(x, y, z) {
                    Ok(t) => {
                        let ghost before = r@;
                        r.push(t);
                        proof {
                            let n = before.len() as int;
                            assert(r@[n] == t);
                            assert(in_rect(rect, x as int, y as int));
                            assert(is_planned(zs, cs, t@.0, t@.1, t@.2));
                            assert forall|k: int| 0 <= k < before.len() implies r@[k] == before[k] by {}
                            lemma_contains_after_push(before, t);
                            assert forall|j: int, xx: int, yy: int|
                                0 <= j < i && in_rect(
                                    tile_range_of(cs[j].0, cs[j].1, zs[j]),
                                    xx,
                                    yy,
                                ) implies contains_tile(r@, xx, yy, zs[j] as int) by {
                                assert(contains_tile(before, xx, yy, zs[j] as int));
                            }
                            assert forall|xx: int, yy: int|
                                x1 <= xx < x && in_rect(rect, xx, yy) implies contains_tile(
                                    r@,
                                    xx,
                                    yy,
                                    z as int,
                                ) by {
                                assert(contains_tile(before, xx, yy, z as int));
                            }
                            assert forall|yy: int| y1 <= yy <= y implies contains_tile(
                                r@,
                                x as int,
                                yy,
                                z as int,
                            ) by {
                                if yy < y {
                                    assert(contains_tile(before, x as int, yy, z as int));
                                }
                            }
                        }
                    },
                    Err(_) => {},
                }
                y = y + 1;
            }
            x = x + 1;
        }
        i = i + 1;
    }
    r
}

} // verus!
