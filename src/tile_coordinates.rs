//! Where a tile lands on screen and which part of its image is shown there.

use vstd::prelude::*;
use crate::rect::Rect;

verus! {

/// The exact value `num / den`.
#[derive(Debug, Clone, Copy, PartialEq, Eq, Structural)]
pub struct Ratio {
    pub num: i64,
    pub den: u32,
}

/// The visible part of one tile, in viewport pixels and in the pixels of
/// the tile's own image.
#[derive(Debug, Clone, Copy, PartialEq, Eq, Structural)]
pub struct TileCoordinates {
    /// The part of the tile that lies inside the viewport, in viewport
    /// pixels.
    pub visible: Rect,
    /// The same part, relative to the tile's top-left corner.
    pub texture: Rect,
    pub viewport_width: u32,
    pub viewport_height: u32,
    pub tile_size: u32,
}

/// The viewport `width` x `height` with its top-left corner at the origin.
pub open spec fn viewport_rect(width: u32, height: u32) -> Rect {
    Rect { left: 0, top: 0, width, height }
}

/// The square of side `size` whose top-left corner is at `(left, top)`.
pub open spec fn tile_rect(left: i64, top: i64, size: u32) -> Rect {
    Rect { left, top, width: size, height: size }
}

/// Whether a tile of side `tile_size` placed at `(left, top)` shows at
/// least one pixel of a `width` x `height` viewport.
pub open spec fn on_screen(left: i64, top: i64, width: u32, height: u32, tile_size: u32) -> bool {
    tile_rect(left, top, tile_size).spec_intersect(viewport_rect(width, height)) is Some
}

/// Horizontal normalized device coordinate of viewport column `x`, as a
/// numerator over the viewport width: `(x / width - 1/2) * 2`.
pub open spec fn ndc_x(x: int, width: int) -> int {
    2 * x - width
}

/// Vertical normalized device coordinate of viewport row `y`, as a
/// numerator over the viewport height: `(1/2 - y / height) * 2`
/// (the axis points up).
pub open spec fn ndc_y(y: int, height: int) -> int {
    height - 2 * y
}

impl TileCoordinates {
    pub open spec fn spec_new(left: i64, top: i64, width: u32, height: u32, tile_size: u32) -> TileCoordinates {
        let visible = tile_rect(left, top, tile_size).spec_intersect(viewport_rect(width, height)).unwrap();
        TileCoordinates {
            visible,
            texture: Rect {
                left: (visible.left - left) as i64,
                top: (visible.top - top) as i64,
                width: visible.width,
                height: visible.height,
            },
            viewport_width: width,
            viewport_height: height,
            tile_size,
        }
    }

    /// Placement of a tile of side `tile_size` whose top-left corner is at
    /// `(left, top)` in a `width` x `height` viewport. The tile must show at
    /// least one pixel.
    pub fn new(left: i64, top: i64, width: u32, height: u32, tile_size: u32) -> (r: TileCoordinates)
        requires
            on_screen(left, top, width, height, tile_size),
        ensures
            r == TileCoordinates::spec_new(left, top, width, height, tile_size),
            r.wf(),
    {
        let visible = Rect::new(left, top, tile_size, tile_size).intersect(&Rect::new(0, 0, width, height)).unwrap();
        let texture = Rect::new(visible.left - left, visible.top - top, visible.width, visible.height);
        TileCoordinates { visible, texture, viewport_width: width, viewport_height: height, tile_size }
    }

    /// The visible part lies inside the viewport and the sampled part
    /// inside the tile; true of every placement that `new` builds.
    pub open spec fn wf(self) -> bool {
        &&& self.viewport_width > 0
        &&& self.viewport_height > 0
        &&& self.tile_size > 0
        &&& 0 <= self.visible.left
        &&& self.visible.spec_right() <= self.viewport_width
        &&& 0 <= self.visible.top
        &&& self.visible.spec_bottom() <= self.viewport_height
        &&& 0 <= self.texture.left
        &&& self.texture.spec_right() <= self.tile_size
        &&& 0 <= self.texture.top
        &&& self.texture.spec_bottom() <= self.tile_size
    }

    /// The visible quad in normalized device coordinates, in the order
    /// (left x, top y, right x, bottom y).
    pub fn shader_coords(&self) -> (r: (Ratio, Ratio, Ratio, Ratio))
        requires
            self.wf(),
        ensures
            r.0 == (Ratio { num: ndc_x(self.visible.left as int, self.viewport_width as int) as i64, den: self.viewport_width }),
            r.1 == (Ratio { num: ndc_y(self.visible.top as int, self.viewport_height as int) as i64, den: self.viewport_height }),
            r.2 == (Ratio { num: ndc_x(self.visible.spec_right(), self.viewport_width as int) as i64, den: self.viewport_width }),
            r.3 == (Ratio { num: ndc_y(self.visible.spec_bottom(), self.viewport_height as int) as i64, den: self.viewport_height }),
    {
        let w = self.viewport_width as i64;
        let h = self.viewport_height as i64;
        let right = self.visible.left + self.visible.width as i64;
        let bottom = self.visible.top + self.visible.height as i64;
        (
            Ratio { num: 2 * self.visible.left - w, den: self.viewport_width },
            Ratio { num: h - 2 * self.visible.top, den: self.viewport_height },
            Ratio { num: 2 * right - w, den: self.viewport_width },
            Ratio { num: h - 2 * bottom, den: self.viewport_height },
        )
    }

    /// The part of the tile's image to sample, as fractions of its side, in
    /// the order (left, top, right, bottom).
    pub fn texture_coords(&self) -> (r: (Ratio, Ratio, Ratio, Ratio))
        requires
            self.wf(),
        ensures
            r.0 == (Ratio { num: self.texture.left, den: self.tile_size }),
            r.1 == (Ratio { num: self.texture.top, den: self.tile_size }),
            r.2 == (Ratio { num: self.texture.spec_right() as i64, den: self.tile_size }),
            r.3 == (Ratio { num: self.texture.spec_bottom() as i64, den: self.tile_size }),
    {
        (
            Ratio { num: self.texture.left, den: self.tile_size },
            Ratio { num: self.texture.top, den: self.tile_size },
            Ratio { num: self.texture.left + self.texture.width as i64, den: self.tile_size },
            Ratio { num: self.texture.top + self.texture.height as i64, den: self.tile_size },
        )
    }
}

} // verus!
