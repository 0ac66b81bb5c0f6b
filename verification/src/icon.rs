//! Pixel buffers: the drawer's own tray icon, and icons read from files,
//! which Windows hands over as BGRA and the drawer shows as RGBA.
use vstd::prelude::*;

verus! {

/// The colour of the tray icon's pixel at column `x`, row `y`, as red,
/// green, blue and alpha: a box from (3, 5) to (28, 26) with a white border
/// and a white middle bar on row 15, golden handles on columns 12 to 19 of
/// rows 9, 10, 20 and 21, a blue fill, and transparency outside the box.
pub open spec fn tray_icon_pixel(x: int, y: int) -> (u8, u8, u8, u8) {
    if 3 <= x <= 28 && 5 <= y <= 26 {
        if x == 3 || x == 28 || y == 5 || y == 26 || y == 15 {
            (255, 255, 255, 250)
        } else if 12 <= x <= 19 && (y == 9 || y == 10 || y == 20 || y == 21) {
            (255, 200, 0, 255)
        } else {
            (0, 150, 255, 230)
        }
    } else {
        (0, 0, 0, 0)
    }
}

/// Channel `k` (0 red, 1 green, 2 blue, 3 alpha) of a colour.
pub open spec fn channel(p: (u8, u8, u8, u8), k: int) -> u8 {
    if k == 0 {
        p.0
    } else if k == 1 {
        p.1
    } else if k == 2 {
        p.2
    } else {
        p.3
    }
}

fn tray_icon_pixel_exec(x: usize, y: usize) -> (p: (u8, u8, u8, u8))
    ensures
        p == tray_icon_pixel(x as int, y as int),
{
    if 3 <= x && x <= 28 && 5 <= y && y <= 26 {
        if x == 3 || x == 28 || y == 5 || y == 26 || y == 15 {
            (255, 255, 255, 250)
        } else if 12 <= x && x <= 19 && (y == 9 || y == 10 || y == 20 || y == 21) {
            (255, 200, 0, 255)
        } else {
            (0, 150, 255, 230)
        }
    } else {
        (0, 0, 0, 0)
    }
}

/// The RGBA bytes of the drawer's tray icon: 32 rows of 32 pixels, row by
/// row from the top, four bytes per pixel.
pub fn stylish_tray_icon_rgba() -> (rgba: Vec<u8>)
    ensures
        rgba@.len() == 32 * 32 * 4,
        forall|y: int, x: int, k: int|
            0 <= y < 32 && 0 <= x < 32 && 0 <= k < 4 ==> #[trigger] rgba@[(y * 32 + x) * 4 + k]
                == channel(tray_icon_pixel(x, y), k),
{
    let mut rgba: Vec<u8> = Vec::new();
    let mut y: usize = 0;
    while y < 32
        invariant
            y <= 32,
            rgba@.len() == y * 128,
            forall|yy: int, x: int, k: int|
                0 <= yy < y && 0 <= x < 32 && 0 <= k < 4 ==> #[trigger] rgba@[(yy * 32 + x) * 4 + k]
                    == channel(tray_icon_pixel(x, yy), k),
        decreases 32 - y,
    {
        let mut x: usize = 0;
        while x < 32
            invariant
                y < 32,
                x <= 32,
                rgba@.len() == y * 128 + x * 4,
                forall|yy: int, xx: int, k: int|
                    0 <= yy < y && 0 <= xx < 32 && 0 <= k < 4 ==> #[trigger] rgba@[(yy * 32 + xx) * 4
                        + k] == channel(tray_icon_pixel(xx, yy), k),
                forall|xx: int, k: int|
                    0 <= xx < x && 0 <= k < 4 ==> #[trigger] rgba@[(y * 32 + xx) * 4 + k] == channel(
                        tray_icon_pixel(xx, y as int),
                        k,
                    ),
            decreases 32 - x,
        {
            let p = tray_icon_pixel_exec(x, y);
            let ghost before = rgba@;
            rgba.push(p.0);
            rgba.push(p.1);
            rgba.push(p.2);
            rgba.push(p.3);
            proof {
                let base = (y * 32 + x) * 4;
                assert(base == before.len());
                assert forall|yy: int, xx: int, k: int|
                    0 <= yy < y && 0 <= xx < 32 && 0 <= k < 4 implies #[trigger] rgba@[(yy * 32
                        + xx) * 4 + k] == channel(tray_icon_pixel(xx, yy), k) by {
                    assert((yy * 32 + xx) * 4 + k < y * 128) by (nonlinear_arith)
                        requires
                            0 <= yy < y,
                            0 <= xx < 32,
                            0 <= k < 4,
                    ;
                    assert(rgba@[(yy * 32 + xx) * 4 + k] == before[(yy * 32 + xx) * 4 + k]);
                }
                assert forall|xx: int, k: int|
                    0 <= xx < x + 1 && 0 <= k < 4 implies #[trigger] rgba@[(y * 32 + xx) * 4 + k]
                        == channel(tray_icon_pixel(xx, y as int), k) by {
                    if xx < x {
                        assert(rgba@[(y * 32 + xx) * 4 + k] == before[(y * 32 + xx) * 4 + k]);
                    } else {
                        assert((y * 32 + xx) * 4 + k == base + k);
                    }
                }
            }
            x = x + 1;
        }
        y = y + 1;
    }
    rgba
}

/// Some pixel of a BGRA buffer has a nonzero alpha byte.
pub open spec fn has_alpha(bgra: Seq<u8>) -> bool {
    exists|i: int| 0 <= i < bgra.len() / 4 && #[trigger] bgra[4 * i + 3] > 0
}

/// The RGBA form of a BGRA buffer whose pixels are four bytes each: blue and
/// red trade places, and alpha is kept when some pixel has a nonzero alpha,
/// else every pixel is made opaque.
pub open spec fn rgba_of_bgra(bgra: Seq<u8>) -> Seq<u8> {
    Seq::new(
        bgra.len(),
        |j: int|
            {
                let base = j - j % 4;
                let k = j % 4;
                if k == 0 {
                    bgra[base + 2]
                } else if k == 1 {
                    bgra[base + 1]
                } else if k == 2 {
                    bgra[base]
                } else if has_alpha(bgra) {
                    bgra[base + 3]
                } else {
                    255u8
                }
            },
    )
}

/// Whether some pixel of the BGRA buffer has a nonzero alpha byte.
fn detect_alpha(bgra: &Vec<u8>) -> (r: bool)
    requires
        bgra.len() % 4 == 0,
    ensures
        r == has_alpha(bgra@),
{
    let n = bgra.len() / 4;
    let mut i: usize = 0;
    while i < n
        invariant
            n == bgra.len() / 4,
            bgra.len() % 4 == 0,
            i <= n,
            forall|j: int| 0 <= j < i ==> !(#[trigger] bgra@[4 * j + 3] > 0),
        decreases n - i,
    {
        if bgra[4 * i + 3] > 0 {
            return true;
        }
        i = i + 1;
    }
    false
}

/// The RGBA form of a BGRA buffer of four-byte pixels.
pub fn bgra_to_rgba(bgra: &Vec<u8>) -> (rgba: Vec<u8>)
    requires
        bgra.len() % 4 == 0,
    ensures
        rgba@ == rgba_of_bgra(bgra@),
{
    let alpha = detect_alpha(bgra);
    let n = bgra.len() / 4;
    let mut out: Vec<u8> = Vec::new();
    let mut i: usize = 0;
    while i < n
        invariant
            n == bgra.len() / 4,
            bgra.len() % 4 == 0,
            i <= n,
            alpha == has_alpha(bgra@),
            out@.len() == 4 * i,
            forall|j: int| 0 <= j < 4 * i ==> #[trigger] out@[j] == rgba_of_bgra(bgra@)[j],
        decreases n - i,
    {
        let b = bgra[4 * i];
        let g = bgra[4 * i + 1];
        let r = bgra[4 * i + 2];
        let a = if alpha {
            bgra[4 * i + 3]
        } else {
            255
        };
        let ghost before = out@;
        out.push(r);
        out.push(g);
        out.push(b);
        out.push(a);
        proof {
            assert forall|j: int| 0 <= j < 4 * (i + 1) implies #[trigger] out@[j] == rgba_of_bgra(
                bgra@,
            )[j] by {
                if j < 4 * i {
                    assert(out@[j] == before[j]);
                } else {
                    assert(j % 4 == j - 4 * i);
                    assert(j - j % 4 == 4 * i);
                }
            }
        }
        i = i + 1;
    }
    assert(out@ =~= rgba_of_bgra(bgra@));
    out
}

/// Converting a BGRA buffer keeps its length and, in every pixel, puts red
/// first, green second and blue third. When some pixel of the input has a
/// nonzero alpha byte, every pixel keeps its own alpha, so a transparent
/// pixel stays transparent; only when every alpha byte is zero is every
/// pixel made opaque.
pub proof fn law_rgba_pixels(bgra: Seq<u8>)
    requires
        bgra.len() % 4 == 0,
    ensures
        rgba_of_bgra(bgra).len() == bgra.len(),
        forall|i: int|
            0 <= i < bgra.len() / 4 ==> {
                &&& #[trigger] rgba_of_bgra(bgra)[4 * i] == bgra[4 * i + 2]
                &&& rgba_of_bgra(bgra)[4 * i + 1] == bgra[4 * i + 1]
                &&& rgba_of_bgra(bgra)[4 * i + 2] == bgra[4 * i]
            },
        (exists|i: int| 0 <= i < bgra.len() / 4 && #[trigger] bgra[4 * i + 3] > 0) ==> forall|i: int|
            0 <= i < bgra.len() / 4 ==> #[trigger] rgba_of_bgra(bgra)[4 * i + 3] == bgra[4 * i + 3],
        (forall|i: int| 0 <= i < bgra.len() / 4 ==> #[trigger] bgra[4 * i + 3] == 0) ==> forall|i: int|
            0 <= i < bgra.len() / 4 ==> #[trigger] rgba_of_bgra(bgra)[4 * i + 3] == 255,
{
    let n = bgra.len();
    let out = rgba_of_bgra(bgra);
    assert forall|i: int| 0 <= i < bgra.len() / 4 implies {
        &&& #[trigger] out[4 * i] == bgra[4 * i + 2]
        &&& out[4 * i + 1] == bgra[4 * i + 1]
        &&& out[4 * i + 2] == bgra[4 * i]
    } by {
        lemma_pixel_offsets(n as int, i);
    }
    if exists|i: int| 0 <= i < bgra.len() / 4 && #[trigger] bgra[4 * i + 3] > 0 {
        assert(has_alpha(bgra));
        assert forall|i: int| 0 <= i < bgra.len() / 4 implies #[trigger] out[4 * i + 3] == bgra[4
            * i + 3] by {
            lemma_pixel_offsets(n as int, i);
        }
    }
    if forall|i: int| 0 <= i < bgra.len() / 4 ==> #[trigger] bgra[4 * i + 3] == 0 {
        assert(!has_alpha(bgra));
        assert forall|i: int| 0 <= i < bgra.len() / 4 implies #[trigger] out[4 * i + 3] == 255 by {
            lemma_pixel_offsets(n as int, i);
        }
    }
}

proof fn lemma_pixel_offsets(n: int, i: int)
    by (nonlinear_arith)
    requires
        0 <= i < n / 4,
        n % 4 == 0,
    ensures
        4 * i + 3 < n,
        (4 * i) % 4 == 0,
        (4 * i + 1) % 4 == 1,
        (4 * i + 2) % 4 == 2,
        (4 * i + 3) % 4 == 3,
        (4 * i + 1) - (4 * i + 1) % 4 == 4 * i,
        (4 * i + 2) - (4 * i + 2) % 4 == 4 * i,
        (4 * i + 3) - (4 * i + 3) % 4 == 4 * i,
{
}

/// An icon read from a file, as RGBA pixels.
pub struct ExtractedIcon {
    pub width: usize,
    pub height: usize,
    pub rgba: Vec<u8>,
}

/// The icon made from a `width` by `height` BGRA bitmap of which the system
/// copied `copied_lines` rows into `bgra`: none when the bitmap is empty or
/// no row was copied.
pub fn icon_from_bitmap(width: usize, height: usize, bgra: &Vec<u8>, copied_lines: i32) -> (r:
    Option<ExtractedIcon>)
    requires
        bgra.len() == width * height * 4,
    ensures
        (width == 0 || height == 0 || copied_lines == 0) <==> r is None,
        r matches Some(icon) ==> icon.width == width && icon.height == height && icon.rgba@
            == rgba_of_bgra(bgra@),
{
    if width == 0 || height == 0 || copied_lines == 0 {
        return None;
    }
    proof {
        assert(bgra.len() % 4 == 0) by (nonlinear_arith)
            requires
                bgra.len() == width * height * 4,
        ;
    }
    let rgba = bgra_to_rgba(bgra);
    Some(ExtractedIcon { width, height, rgba })
}

} // verus!
