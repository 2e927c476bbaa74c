//! Which tiles cover the viewport, and where each one is placed.
//!
//! The viewport's position is given as the world pixel under its top-left
//! corner (`origin_x`, `origin_y`) at the current zoom level; tiles are
//! squares of `TILE_SIZE` pixels laid out from the world origin, with `y`
//! growing downwards.

use vstd::prelude::*;
use vstd::arithmetic::div_mod::lemma_fundamental_div_mod_converse;
use crate::rect::Rect;
use crate::tile_coordinates::{TileCoordinates, on_screen, tile_rect, viewport_rect};
use crate::tile_id::TileId;

verus! {

/// Side of one tile, in pixels.
pub const TILE_SIZE: u32 = 256;

/// One tile that the viewport needs: its identity, where its top-left
/// corner falls relative to the viewport (unclipped), and its clipped
/// placement.
#[derive(Debug, Clone, Copy, PartialEq, Eq, Structural)]
pub struct TileInfo {
    pub id: TileId,
    pub rect: Rect,
    pub coords: TileCoordinates,
}

/// Index of the tile holding world pixel `p` along one axis.
pub open spec fn corner_index(p: int) -> int {
    p / (TILE_SIZE as int)
}

/// How far world pixel `p` lies past the edge of its tile.
pub open spec fn corner_offset(p: int) -> int {
    p % (TILE_SIZE as int)
}

/// Number of tiles along one axis whose leading edge lies before the far
/// edge of the viewport, counting from the tile that holds its near edge;
/// `offset` is how far that near edge lies into its tile.
pub open spec fn tiles_across(offset: int, len: int) -> int {
    (offset + len + TILE_SIZE - 1) / (TILE_SIZE as int)
}

pub open spec fn grid_columns(origin_x: i64, width: u32) -> int {
    tiles_across(corner_offset(origin_x as int), width as int)
}

pub open spec fn grid_rows(origin_y: i64, height: u32) -> int {
    tiles_across(corner_offset(origin_y as int), height as int)
}

/// The tile in row `row` and column `col` of the grid that covers the
/// viewport, both counted from the tile under the viewport's top-left
/// corner.
pub open spec fn tile_info_at(
    zoom: u32,
    origin_x: i64,
    origin_y: i64,
    width: u32,
    height: u32,
    row: int,
    col: int,
) -> TileInfo {
    let left = col * TILE_SIZE - corner_offset(origin_x as int);
    let top = row * TILE_SIZE - corner_offset(origin_y as int);
    TileInfo {
        id: TileId::spec_new(
            corner_index(origin_x as int) + col,
            corner_index(origin_y as int) + row,
            zoom as int,
        ),
        rect: tile_rect(left as i64, top as i64, TILE_SIZE),
        coords: TileCoordinates::spec_new(left as i64, top as i64, width, height, TILE_SIZE),
    }
}

/// The tiles covering the viewport, row by row from the top and left to
/// right within a row.
pub open spec fn required_tiles(zoom: u32, origin_x: i64, origin_y: i64, width: u32, height: u32) -> Seq<TileInfo> {
    let cols = grid_columns(origin_x, width);
    Seq::new(
        (grid_rows(origin_y, height) * cols) as nat,
        |i: int| tile_info_at(zoom, origin_x, origin_y, width, height, i / cols, i % cols),
    )
}

/// A tile whose leading edge is `k` tiles past the one holding the near
/// edge is needed exactly when `k` is below `tiles_across`.
proof fn lemma_tiles_across(k: int, offset: int, len: int)
    requires
        0 <= k,
        0 <= offset < TILE_SIZE,
        0 < len,
    ensures
        (k * TILE_SIZE - offset < len) <==> (k < tiles_across(offset, len)),
        1 <= tiles_across(offset, len) <= len / (TILE_SIZE as int) + 2,
{
    let n = tiles_across(offset, len);
    let s = offset + len + TILE_SIZE - 1;
    assert(n * 256 <= s < n * 256 + 256 && 0 <= len / 256 * 256 <= len) by {
        vstd::arithmetic::div_mod::lemma_fundamental_div_mod(s, 256);
        vstd::arithmetic::div_mod::lemma_fundamental_div_mod(len, 256);
    }
    assert((k * 256 - offset < len) <==> (k < n)) by (nonlinear_arith)
        requires
            n * 256 <= s < n * 256 + 256,
            s == offset + len + 255,
            0 <= offset < 256,
            0 <= k,
    ;
    assert(1 <= n <= len / 256 + 2) by (nonlinear_arith)
        requires
            n * 256 <= s < n * 256 + 256,
            s == offset + len + 255,
            0 <= offset < 256,
            0 < len,
            0 <= len / 256 * 256 <= len,
            len < len / 256 * 256 + 256,
    {
        vstd::arithmetic::div_mod::lemma_fundamental_div_mod(len, 256);
    }
}

/// Whether pixel `(x, y)` lies in one of `tiles`.
pub open spec fn covers(tiles: Seq<TileInfo>, x: int, y: int) -> bool {
    exists|i: int| 0 <= i < tiles.len() && #[trigger] tiles[i].rect.contains(x, y)
}

/// The returned tiles cover the viewport exactly: every viewport pixel lies
/// in one of them, no two of them overlap, and each of them shows at least
/// one viewport pixel.
pub proof fn lemma_tiles_cover_viewport(zoom: u32, origin_x: i64, origin_y: i64, width: u32, height: u32)
    requires
        width > 0,
        height > 0,
    ensures
        forall|x: int, y: int|
            0 <= x < width && 0 <= y < height ==> #[trigger] covers(
                required_tiles(zoom, origin_x, origin_y, width, height),
                x,
                y,
            ),
        forall|i: int|
            0 <= i < required_tiles(zoom, origin_x, origin_y, width, height).len() ==> (#[trigger] required_tiles(
                zoom,
                origin_x,
                origin_y,
                width,
                height,
            )[i]).rect.spec_intersect(viewport_rect(width, height)) is Some,
        forall|i: int, j: int|
            0 <= i < j < required_tiles(zoom, origin_x, origin_y, width, height).len() ==> (#[trigger] required_tiles(
                zoom,
                origin_x,
                origin_y,
                width,
                height,
            )[i]).rect.spec_intersect((#[trigger] required_tiles(zoom, origin_x, origin_y, width, height)[j]).rect) is None,
{
    let tiles = required_tiles(zoom, origin_x, origin_y, width, height);
    let cols = grid_columns(origin_x, width);
    let rows = grid_rows(origin_y, height);
    let ox = corner_offset(origin_x as int);
    let oy = corner_offset(origin_y as int);
    lemma_tiles_across(0, ox, width as int);
    lemma_tiles_across(0, oy, height as int);
    assert(tiles.len() == rows * cols) by (nonlinear_arith)
        requires
            rows >= 1,
            cols >= 1,
            tiles.len() == (rows * cols) as nat,
    ;
    assert forall|i: int| 0 <= i < tiles.len() implies #[trigger] (i / cols) < rows && 0 <= #[trigger] (i % cols)
        < cols && 0 <= i / cols by {
        vstd::arithmetic::div_mod::lemma_fundamental_div_mod(i, cols);
        assert(0 <= i % cols < cols && 0 <= i / cols < rows) by (nonlinear_arith)
            requires
                i == cols * (i / cols) + i % cols,
                0 <= i < rows * cols,
                cols >= 1,
                0 <= i % cols < cols,
        ;
    }
    assert forall|x: int, y: int| 0 <= x < width && 0 <= y < height implies #[trigger] covers(
        tiles,
        x,
        y,
    ) by {
        let col = (x + ox) / 256;
        let row = (y + oy) / 256;
        vstd::arithmetic::div_mod::lemma_fundamental_div_mod(x + ox, 256);
        vstd::arithmetic::div_mod::lemma_fundamental_div_mod(y + oy, 256);
        lemma_tiles_across(col, ox, width as int);
        lemma_tiles_across(row, oy, height as int);
        let i = row * cols + col;
        lemma_fundamental_div_mod_converse(i, cols, row, col);
        assert(0 <= i < rows * cols) by (nonlinear_arith)
            requires
                i == row * cols + col,
                0 <= row < rows,
                0 <= col < cols,
        ;
        assert(tiles[i].rect.contains(x, y));
    }
    assert forall|i: int| 0 <= i < tiles.len() implies (#[trigger] tiles[i]).rect.spec_intersect(
        viewport_rect(width, height),
    ) is Some by {
        lemma_tiles_across(i % cols, ox, width as int);
        lemma_tiles_across(i / cols, oy, height as int);
    }
    assert forall|i: int, j: int| 0 <= i < j < tiles.len() implies (#[trigger] tiles[i]).rect.spec_intersect(
        (#[trigger] tiles[j]).rect,
    ) is None by {
        vstd::arithmetic::div_mod::lemma_fundamental_div_mod(i, cols);
        vstd::arithmetic::div_mod::lemma_fundamental_div_mod(j, cols);
        if i / cols == j / cols {
            assert(i % cols != j % cols);
        }
    }
}


/// Splits world pixel `p` into the index of its tile and its offset in it.
fn split_pixel(p: i64) -> (r: (i64, i64))
    ensures
        r.0 == corner_index(p as int),
        r.1 == corner_offset(p as int),
        0 <= r.1 < TILE_SIZE,
{
    if p >= 0 {
        let q = p / 256;
        let o = p % 256;
        proof {
            lemma_fundamental_div_mod_converse(p as int, 256, q as int, o as int);
        }
        (q, o)
    } else {
        let n = -(p + 1);
        let q = n / 256;
        let s = n % 256;
        let index = -q - 1;
        let offset = 255 - s;
        proof {
            lemma_fundamental_div_mod_converse(n as int, 256, q as int, s as int);
            lemma_fundamental_div_mod_converse(p as int, 256, index as int, offset as int);
        }
        (index, offset)
    }
}

/// The tiles that cover a `width` x `height` viewport whose top-left corner
/// is world pixel `(origin_x, origin_y)` at zoom level `zoom`, in row-major
/// order, each with its unclipped and clipped placement.
pub fn create_required_tile_infos(zoom: u32, origin_x: i64, origin_y: i64, width: u32, height: u32) -> (r: Vec<TileInfo>)
    requires
        width > 0,
        height > 0,
    ensures
        r@ == required_tiles(zoom, origin_x, origin_y, width, height),
{
    let (corner_x, offset_x) = split_pixel(origin_x);
    let (corner_y, offset_y) = split_pixel(origin_y);
    let ghost cols = grid_columns(origin_x, width);
    let ghost rows = grid_rows(origin_y, height);
    proof {
        lemma_tiles_across(0, offset_x as int, width as int);
        lemma_tiles_across(0, offset_y as int, height as int);
    }
    let mut tiles: Vec<TileInfo> = Vec::new();
    let mut row: i64 = 0;
    while row * 256 - offset_y < height as i64
        invariant
            corner_x == corner_index(origin_x as int),
            offset_x == corner_offset(origin_x as int),
            corner_y == corner_index(origin_y as int),
            offset_y == corner_offset(origin_y as int),
            0 <= offset_x < 256,
            0 <= offset_y < 256,
            cols == grid_columns(origin_x, width),
            rows == grid_rows(origin_y, height),
            1 <= cols <= width / 256 + 2,
            1 <= rows <= height / 256 + 2,
            width > 0,
            height > 0,
            0 <= row <= rows,
            (row * 256 - offset_y < height) <==> (row < rows),
            tiles.len() == row * cols,
            forall|i: int|
                0 <= i < tiles.len() ==> tiles@[i] == tile_info_at(zoom, origin_x, origin_y, width, height, i / cols, i % cols),
        decreases rows - row,
    {
        let mut col: i64 = 0;
        proof {
            lemma_tiles_across(0, offset_x as int, width as int);
        }
        while col * 256 - offset_x < width as i64
            invariant
                corner_x == corner_index(origin_x as int),
                offset_x == corner_offset(origin_x as int),
                corner_y == corner_index(origin_y as int),
                offset_y == corner_offset(origin_y as int),
                0 <= offset_x < 256,
                0 <= offset_y < 256,
                cols == grid_columns(origin_x, width),
                rows == grid_rows(origin_y, height),
                1 <= cols <= width / 256 + 2,
                1 <= rows <= height / 256 + 2,
                width > 0,
                height > 0,
                0 <= row < rows,
                row * 256 - offset_y < height,
                0 <= col <= cols,
                (col * 256 - offset_x < width) <==> (col < cols),
                tiles.len() == row * cols + col,
                forall|i: int|
                    0 <= i < tiles.len() ==> tiles@[i] == tile_info_at(zoom, origin_x, origin_y, width, height, i / cols, i % cols),
            decreases cols - col,
        {
            let left = col * 256 - offset_x;
            let top = row * 256 - offset_y;
            assert(on_screen(left, top, width, height, TILE_SIZE));
            let coords = TileCoordinates::new(left, top, width, height, TILE_SIZE);
            let id = TileId::new(corner_x + col, corner_y + row, zoom as i64);
            let ghost before = tiles@;
            tiles.push(TileInfo { id, rect: Rect::new(left, top, TILE_SIZE, TILE_SIZE), coords });
            proof {
                let i = row * cols + col;
                lemma_fundamental_div_mod_converse(i, cols, row as int, col as int);
                assert(tiles@[i] == tile_info_at(zoom, origin_x, origin_y, width, height, i / cols, i % cols));
                assert forall|j: int| 0 <= j < tiles.len() implies tiles@[j] == tile_info_at(zoom, origin_x, origin_y, width, height, j / cols, j % cols) by {
                    if j < i {
                        assert(tiles@[j] == before[j]);
                    }
                }
            }
            col = col + 1;
            proof {
                lemma_tiles_across(col as int, offset_x as int, width as int);
            }
        }
        row = row + 1;
        proof {
            lemma_tiles_across(row as int, offset_y as int, height as int);
            assert(tiles.len() == row * cols) by (nonlinear_arith)
                requires tiles.len() == (row - 1) * cols + cols;
        }
    }
    assert(tiles@ =~= required_tiles(zoom, origin_x, origin_y, width, height));
    tiles
}

} // verus!
