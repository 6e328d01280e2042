use vstd::prelude::*;

verus! {

/// The side of the square application icon, in pixels.
pub const ICON_SIZE: usize = 64;

/// One colored tile of the icon: left, top, width, height and RGBA color.
pub open spec fn spec_tile(k: int) -> (int, int, int, int, Seq<u8>) {
    if k == 0 {
        (7, 8, 31, 27, seq![44u8, 178u8, 140u8, 255u8])
    } else if k == 1 {
        (35, 8, 22, 27, seq![112u8, 91u8, 218u8, 255u8])
    } else if k == 2 {
        (7, 39, 19, 18, seq![218u8, 139u8, 55u8, 255u8])
    } else {
        (30, 39, 27, 18, seq![47u8, 147u8, 201u8, 255u8])
    }
}

/// Tile `k` covers the pixel at column `x`, row `y`.
pub open spec fn tile_covers(k: int, x: int, y: int) -> bool {
    let t = spec_tile(k);
    t.0 <= x < t.0 + t.2 && t.1 <= y < t.1 + t.3
}

/// The RGBA color of the icon's pixel at column `x`, row `y`: that of the
/// last of the four tiles that covers it, else the dark background.
pub open spec fn icon_pixel(x: int, y: int) -> Seq<u8> {
    if tile_covers(3, x, y) {
        spec_tile(3).4
    } else if tile_covers(2, x, y) {
        spec_tile(2).4
    } else if tile_covers(1, x, y) {
        spec_tile(1).4
    } else if tile_covers(0, x, y) {
        spec_tile(0).4
    } else {
        seq![10u8, 14u8, 20u8, 255u8]
    }
}

/// The RGBA color of one icon pixel.
fn pixel_color(x: usize, y: usize) -> (color: [u8; 4])
    requires
        x < ICON_SIZE,
        y < ICON_SIZE,
    ensures
        color@ == icon_pixel(x as int, y as int),
{
    let tiles: [(usize, usize, usize, usize, [u8; 4]); 4] = [
        (7, 8, 31, 27, [44, 178, 140, 255]),
        (35, 8, 22, 27, [112, 91, 218, 255]),
        (7, 39, 19, 18, [218, 139, 55, 255]),
        (30, 39, 27, 18, [47, 147, 201, 255]),
    ];
    let mut color: [u8; 4] = [10, 14, 20, 255];
    let mut k: usize = 0;
    while k < 4
        invariant
            0 <= k <= 4,
            x < ICON_SIZE,
            y < ICON_SIZE,
            tiles@ == seq![
                (7usize, 8usize, 31usize, 27usize, [44u8, 178u8, 140u8, 255u8]),
                (35usize, 8usize, 22usize, 27usize, [112u8, 91u8, 218u8, 255u8]),
                (7usize, 39usize, 19usize, 18usize, [218u8, 139u8, 55u8, 255u8]),
                (30usize, 39usize, 27usize, 18usize, [47u8, 147u8, 201u8, 255u8]),
            ],
            color@ == (if k >= 4 && tile_covers(3, x as int, y as int) {
                spec_tile(3).4
            } else if k >= 3 && tile_covers(2, x as int, y as int) {
                spec_tile(2).4
            } else if k >= 2 && tile_covers(1, x as int, y as int) {
                spec_tile(1).4
            } else if k >= 1 && tile_covers(0, x as int, y as int) {
                spec_tile(0).4
            } else {
                seq![10u8, 14u8, 20u8, 255u8]
            }),
        decreases 4 - k,
    {
        let (left, top, width, height, tile_color) = tiles[k];
        if x >= left && x < left + width && y >= top && y < top + height {
            color = tile_color;
        }
        k = k + 1;
    }
    color
}

/// The application icon: 64 by 64 pixels, row by row, four RGBA bytes each.
pub fn icon_rgba() -> (rgba: Vec<u8>)
    ensures
        rgba@.len() == ICON_SIZE * ICON_SIZE * 4,
        forall|x: int, y: int, c: int|
            0 <= x < ICON_SIZE && 0 <= y < ICON_SIZE && 0 <= c < 4 ==> #[trigger] rgba@[(y * 64 + x) * 4 + c]
                == icon_pixel(x, y)[c],
{
    let mut rgba: Vec<u8> = Vec::new();
    let mut y: usize = 0;
    while y < ICON_SIZE
        invariant
            y <= ICON_SIZE,
            rgba@.len() == y * 64 * 4,
            forall|px: int, py: int, c: int|
                0 <= px < ICON_SIZE && 0 <= py < y && 0 <= c < 4 ==> #[trigger] rgba@[(py * 64 + px) * 4 + c]
                    == icon_pixel(px, py)[c],
        decreases ICON_SIZE - y,
    {
        let mut x: usize = 0;
        while x < ICON_SIZE
            invariant
                y < ICON_SIZE,
                x <= ICON_SIZE,
                rgba@.len() == (y * 64 + x) * 4,
                forall|px: int, py: int, c: int|
                    0 <= px < ICON_SIZE && 0 <= py < ICON_SIZE && (py < y || (py == y && px < x)) && 0 <= c < 4 ==> #[trigger] rgba@[(py * 64 + px) * 4 + c]
                        == icon_pixel(px, py)[c],
            decreases ICON_SIZE - x,
        {
            let color = pixel_color(x, y);
            let ghost before = rgba@;
            rgba.push(color[0]);
            rgba.push(color[1]);
            rgba.push(color[2]);
            rgba.push(color[3]);
            proof {
                assert forall|px: int, py: int, c: int|
                    0 <= px < ICON_SIZE && 0 <= py < ICON_SIZE && (py < y || (py == y && px < x + 1)) && 0 <= c < 4 implies #[trigger] rgba@[(py * 64 + px) * 4 + c]
                        == icon_pixel(px, py)[c] by {
                    if py == y && px == x {
                        assert((py * 64 + px) * 4 + c == before.len() + c);
                    } else {
                        assert((py * 64 + px) * 4 + c < before.len()) by (nonlinear_arith)
                            requires
                                0 <= px < 64, 0 <= py < 64, 0 <= c < 4,
                                py < y || (py == y && px < x),
                                before.len() == (y * 64 + x) * 4;
                        assert(rgba@[(py * 64 + px) * 4 + c] == before[(py * 64 + px) * 4 + c]);
                    }
                }
            }
            x = x + 1;
        }
        y = y + 1;
    }
    rgba
}

} // verus!
