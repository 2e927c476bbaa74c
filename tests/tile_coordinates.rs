use tiny_maps::rect::Rect;
use tiny_maps::tile_coordinates::{Ratio, TileCoordinates};

fn to_cartesian_x(x: f32) -> f32 {
    (x - 1.0 / 2.0) * 2.0
}

fn to_cartesian_y(y: f32) -> f32 {
    (1.0 / 2.0 - y) * 2.0
}

/// The rectangle scaled as a renderer does it in single precision: each of
/// left, top, width and height multiplied by the reciprocal of the scale.
fn scaled(r: &Rect, sx: f32, sy: f32) -> (f32, f32, f32, f32) {
    let sx = 1.0 / sx;
    let sy = 1.0 / sy;
    (
        r.left as f32 * sx,
        r.top as f32 * sy,
        r.width as f32 * sx,
        r.height as f32 * sy,
    )
}

fn shader_f32(c: &TileCoordinates) -> (f32, f32, f32, f32) {
    let (l, t, w, h) = scaled(&c.visible, c.viewport_width as f32, c.viewport_height as f32);
    (to_cartesian_x(l), to_cartesian_y(t), to_cartesian_x(l + w), to_cartesian_y(t + h))
}

fn texture_f32(c: &TileCoordinates) -> (f32, f32, f32, f32) {
    let (l, t, w, h) = scaled(&c.texture, c.tile_size as f32, c.tile_size as f32);
    (l, t, l + w, t + h)
}

fn ratio(num: i64, den: u32) -> Ratio {
    Ratio { num, den }
}

#[test]
fn tile_coordinates_it_works() {
    let tc = TileCoordinates::new(-863, -168, 1600, 1200, 1024);
    assert_eq!(shader_f32(&tc), (-1.0, 1.0, -0.79875, -0.42666674));
    assert_eq!(texture_f32(&tc), (0.84277344, 0.1640625, 1.0, 1.0));

    let tc = TileCoordinates::new(161, 856, 1600, 1200, 1024);
    assert_eq!(shader_f32(&tc), (-0.79875, -0.42666674, 0.48124993, -1.0));
    assert_eq!(texture_f32(&tc), (0.0, 0.0, 1.0, 0.3359375));
}

#[test]
fn exact_coordinates_of_a_top_left_tile() {
    let tc = TileCoordinates::new(-863, -168, 1600, 1200, 1024);
    assert_eq!(tc.visible, Rect::new(0, 0, 161, 856));
    assert_eq!(tc.texture, Rect::new(863, 168, 161, 856));
    assert_eq!(
        tc.shader_coords(),
        (ratio(-1600, 1600), ratio(1200, 1200), ratio(-1278, 1600), ratio(-512, 1200))
    );
    assert_eq!(
        tc.texture_coords(),
        (ratio(863, 1024), ratio(168, 1024), ratio(1024, 1024), ratio(1024, 1024))
    );
}

#[test]
fn exact_coordinates_of_a_bottom_tile() {
    let tc = TileCoordinates::new(161, 856, 1600, 1200, 1024);
    assert_eq!(tc.visible, Rect::new(161, 856, 1024, 344));
    assert_eq!(tc.texture, Rect::new(0, 0, 1024, 344));
    assert_eq!(
        tc.shader_coords(),
        (ratio(-1278, 1600), ratio(-512, 1200), ratio(770, 1600), ratio(-1200, 1200))
    );
    assert_eq!(
        tc.texture_coords(),
        (ratio(0, 1024), ratio(0, 1024), ratio(1024, 1024), ratio(344, 1024))
    );
}

#[test]
fn tile_inside_the_viewport_is_shown_whole() {
    let tc = TileCoordinates::new(100, 50, 800, 600, 256);
    assert_eq!(tc.visible, Rect::new(100, 50, 256, 256));
    assert_eq!(tc.texture, Rect::new(0, 0, 256, 256));
    assert_eq!(
        tc.texture_coords(),
        (ratio(0, 256), ratio(0, 256), ratio(256, 256), ratio(256, 256))
    );
    assert_eq!(
        tc.shader_coords(),
        (ratio(-600, 800), ratio(500, 600), ratio(-88, 800), ratio(-12, 600))
    );
}

#[test]
fn tile_larger_than_the_viewport_fills_it() {
    let tc = TileCoordinates::new(-10, -20, 100, 50, 256);
    assert_eq!(tc.visible, Rect::new(0, 0, 100, 50));
    assert_eq!(tc.texture, Rect::new(10, 20, 100, 50));
    assert_eq!(
        tc.shader_coords(),
        (ratio(-100, 100), ratio(50, 50), ratio(100, 100), ratio(-50, 50))
    );
}
