//! Composing the rasterized glyphs of a watermark text into one image.
//!
//! The glyphs arrive already rasterized and placed: each has an integer left
//! edge and bottom edge in raster space (up is positive) and a coverage bitmap
//! whose rows run from the top. The image spans the union of the glyphs' boxes
//! (the ink box); its row 0 is the top of the ink.
use vstd::prelude::*;

verus! {

/// One rasterized glyph, placed in raster space.
pub struct GlyphBitmap {
    /// Left edge: the pen position, truncated to an integer, plus the glyph's `xmin`.
    pub left: i32,
    /// Bottom edge: the line's baseline plus the glyph's `ymin`.
    pub bottom: i32,
    pub width: usize,
    pub height: usize,
    /// Coverage, row by row from the top, `width` bytes to a row.
    pub coverage: Vec<u8>,
}

/// The composed image: an RGB plane and a separate alpha plane, `w` by `h`
/// pixels, row by row from the top.
pub struct Stamp {
    pub rgb: Vec<u8>,
    pub alpha: Vec<u8>,
    pub w: usize,
    pub h: usize,
}

/// The largest width or height the image may have.
pub open spec fn max_side() -> int {
    16000
}

pub open spec fn glyph_right(g: GlyphBitmap) -> int {
    g.left + g.width
}

pub open spec fn glyph_top(g: GlyphBitmap) -> int {
    g.bottom + g.height
}

pub open spec fn min_int(a: int, b: int) -> int {
    if a <= b {
        a
    } else {
        b
    }
}

pub open spec fn max_int(a: int, b: int) -> int {
    if a >= b {
        a
    } else {
        b
    }
}

/// The left edge of the ink: the least left edge (`i32::MAX` for no glyph).
pub open spec fn ink_left(gs: Seq<GlyphBitmap>) -> int
    decreases gs.len(),
{
    if gs.len() == 0 {
        i32::MAX as int
    } else {
        min_int(ink_left(gs.drop_last()), gs.last().left as int)
    }
}

/// The right edge of the ink: the greatest right edge (`i32::MIN` for no glyph).
pub open spec fn ink_right(gs: Seq<GlyphBitmap>) -> int
    decreases gs.len(),
{
    if gs.len() == 0 {
        i32::MIN as int
    } else {
        max_int(ink_right(gs.drop_last()), glyph_right(gs.last()))
    }
}

/// The top edge of the ink: the greatest top edge (`i32::MIN` for no glyph).
pub open spec fn ink_top(gs: Seq<GlyphBitmap>) -> int
    decreases gs.len(),
{
    if gs.len() == 0 {
        i32::MIN as int
    } else {
        max_int(ink_top(gs.drop_last()), glyph_top(gs.last()))
    }
}

/// The bottom edge of the ink: the least bottom edge (`i32::MAX` for no glyph).
pub open spec fn ink_bottom(gs: Seq<GlyphBitmap>) -> int
    decreases gs.len(),
{
    if gs.len() == 0 {
        i32::MAX as int
    } else {
        min_int(ink_bottom(gs.drop_last()), gs.last().bottom as int)
    }
}

/// The glyph's edges and its bitmap fit the computation in `i32`.
pub open spec fn glyph_fits(g: GlyphBitmap) -> bool {
    &&& g.width <= i32::MAX
    &&& g.height <= i32::MAX
    &&& glyph_right(g) <= i32::MAX
    &&& glyph_top(g) <= i32::MAX
    &&& g.coverage@.len() == g.width * g.height
}

/// The glyphs can be composed without an `i32` overflow: each fits, and so do
/// the ink box's width and height (which rules out an empty layout).
pub open spec fn layout_fits(gs: Seq<GlyphBitmap>) -> bool {
    &&& forall|k: int| 0 <= k < gs.len() ==> glyph_fits(#[trigger] gs[k])
    &&& i32::MIN <= ink_right(gs) - ink_left(gs) <= i32::MAX
    &&& i32::MIN <= ink_top(gs) - ink_bottom(gs) <= i32::MAX
}

pub open spec fn stamp_width(gs: Seq<GlyphBitmap>) -> int {
    ink_right(gs) - ink_left(gs)
}

pub open spec fn stamp_height(gs: Seq<GlyphBitmap>) -> int {
    ink_top(gs) - ink_bottom(gs)
}

/// The ink box is neither empty nor larger than `max_side` either way.
pub open spec fn stamp_size_ok(gs: Seq<GlyphBitmap>) -> bool {
    &&& 0 < stamp_width(gs) <= max_side()
    &&& 0 < stamp_height(gs) <= max_side()
}

/// Where pixel (`px`, `py`) stands in a plane `w` pixels wide.
pub open spec fn pixel(w: int, px: int, py: int) -> int {
    py * w + px
}

/// Where channel `c` of pixel (`px`, `py`) stands in an RGB plane `w` pixels wide.
pub open spec fn channel(w: int, px: int, py: int, c: int) -> int {
    3 * (py * w + px) + c
}

/// The coverage that glyph `g`, drawn with its top-left corner at (`gx`, `gy`),
/// puts on pixel (`px`, `py`), counting only its own pixels before row `rows`,
/// column `cols` (row by row); `None` where it puts none, or coverage 0.
pub open spec fn coverage_at(
    g: GlyphBitmap,
    gx: int,
    gy: int,
    px: int,
    py: int,
    rows: int,
    cols: int,
) -> Option<u8> {
    let col: int = px - gx;
    let row: int = py - gy;
    if 0 <= col < g.width && 0 <= row < g.height && (row < rows || (row == rows && col < cols))
        && g.coverage@[row * g.width + col] != 0 {
        Some(g.coverage@[row * g.width + col])
    } else {
        None
    }
}

/// The coverage that the whole glyph puts on pixel (`px`, `py`) of an image
/// whose ink box has its left edge at `ink_l` and its top edge at `ink_t`.
pub open spec fn glyph_coverage(g: GlyphBitmap, ink_l: int, ink_t: int, px: int, py: int) -> Option<
    u8,
> {
    coverage_at(g, g.left - ink_l, ink_t - glyph_top(g), px, py, g.height as int, 0)
}

/// The coverage of the last glyph that covers pixel (`px`, `py`): later glyphs
/// are drawn over earlier ones.
pub open spec fn top_coverage(gs: Seq<GlyphBitmap>, ink_l: int, ink_t: int, px: int, py: int) -> Option<
    u8,
>
    decreases gs.len(),
{
    if gs.len() == 0 {
        None
    } else {
        match glyph_coverage(gs.last(), ink_l, ink_t, px, py) {
            Some(c) => Some(c),
            None => top_coverage(gs.drop_last(), ink_l, ink_t, px, py),
        }
    }
}

/// The alpha of a pixel: the coverage scaled by the colour's alpha, or 0.
pub open spec fn alpha_value(c: Option<u8>, a: u8) -> u8 {
    match c {
        Some(c) => ((c as int * a as int) / 255) as u8,
        None => 0,
    }
}

/// Channel `ch` of a pixel: the colour's where a glyph covers it, or 0.
pub open spec fn rgb_value(c: Option<u8>, r: u8, g: u8, b: u8, ch: int) -> u8 {
    match c {
        Some(_) => if ch == 0 {
            r
        } else if ch == 1 {
            g
        } else {
            b
        },
        None => 0,
    }
}

proof fn lemma_pixel_bounds(w: int, h: int, px: int, py: int)
    requires
        0 <= px < w,
        0 <= py < h,
    ensures
        0 <= pixel(w, px, py) < w * h,
        0 <= channel(w, px, py, 0),
        channel(w, px, py, 2) < 3 * (w * h),
{
    assert(0 <= py * w) by (nonlinear_arith)
        requires
            0 <= py,
            0 <= w,
    ;
    assert(py * w + px < w * h) by (nonlinear_arith)
        requires
            0 <= px < w,
            0 <= py < h,
    ;
}

proof fn lemma_pixel_injective(w: int, px: int, py: int, qx: int, qy: int)
    requires
        0 <= px < w,
        0 <= qx < w,
        0 <= py,
        0 <= qy,
        pixel(w, px, py) == pixel(w, qx, qy),
    ensures
        px == qx,
        py == qy,
{
    assert(py == qy) by (nonlinear_arith)
        requires
            0 <= px < w,
            0 <= qx < w,
            0 <= py,
            0 <= qy,
            py * w + px == qy * w + qx,
    ;
}

proof fn lemma_bitmap_index(width: int, height: int, row: int, col: int)
    requires
        0 <= row < height,
        0 <= col < width,
    ensures
        0 <= row * width,
        0 <= row * width + col < width * height,
{
    assert(0 <= row * width) by (nonlinear_arith)
        requires
            0 <= row,
            0 <= width,
    ;
    assert(0 <= row * width + col < width * height) by (nonlinear_arith)
        requires
            0 <= row < height,
            0 <= col < width,
    ;
}

proof fn lemma_paint_alpha(c: u8, a: u8)
    ensures
        0 <= (c as int * a as int) / 255 <= 255,
        (c as int * a as int) <= 65535,
{
    assert(0 <= c as int * a as int <= 255 * 255) by (nonlinear_arith)
        requires
            0 <= c <= 255,
            0 <= a <= 255,
    ;
}

/// The ink box contains every glyph's box.
proof fn lemma_ink_contains(gs: Seq<GlyphBitmap>, k: int)
    requires
        0 <= k < gs.len(),
    ensures
        ink_left(gs) <= gs[k].left,
        glyph_right(gs[k]) <= ink_right(gs),
        ink_bottom(gs) <= gs[k].bottom,
        glyph_top(gs[k]) <= ink_top(gs),
    decreases gs.len(),
{
    if k < gs.len() - 1 {
        lemma_ink_contains(gs.drop_last(), k);
        assert(gs.drop_last()[k] == gs[k]);
    }
}

/// Draws one glyph with its top-left corner at (`gx`, `gy`) in colour
/// (`r`, `g`, `b`) with alpha `a`: each pixel it covers with a coverage `c` other
/// than 0 takes the colour and the alpha `c * a / 255`; the others keep theirs.
fn draw_glyph(
    rgb: &mut Vec<u8>,
    alpha: &mut Vec<u8>,
    w: usize,
    h: usize,
    glyph: &GlyphBitmap,
    gx: i32,
    gy: i32,
    r: u8,
    g: u8,
    b: u8,
    a: u8,
)
    requires
        w <= max_side(),
        h <= max_side(),
        old(alpha)@.len() == w * h,
        old(rgb)@.len() == 3 * (w * h),
        glyph_fits(*glyph),
        0 <= gx,
        0 <= gy,
        gx + glyph.width <= i32::MAX,
        gy + glyph.height <= i32::MAX,
    ensures
        final(alpha)@.len() == w * h,
        final(rgb)@.len() == 3 * (w * h),
        forall|px: int, py: int|
            0 <= px < w && 0 <= py < h ==> #[trigger] final(alpha)@[pixel(w as int, px, py)] == match coverage_at(
                *glyph,
                gx as int,
                gy as int,
                px,
                py,
                glyph.height as int,
                0,
            ) {
                Some(c) => alpha_value(Some(c), a),
                None => old(alpha)@[pixel(w as int, px, py)],
            },
        forall|px: int, py: int, ch: int|
            0 <= px < w && 0 <= py < h && 0 <= ch < 3 ==> #[trigger] final(rgb)@[channel(
                w as int,
                px,
                py,
                ch,
            )] == match coverage_at(*glyph, gx as int, gy as int, px, py, glyph.height as int, 0) {
                Some(c) => rgb_value(Some(c), r, g, b, ch),
                None => old(rgb)@[channel(w as int, px, py, ch)],
            },
{
    let ghost alpha0 = alpha@;
    let ghost rgb0 = rgb@;
    let ghost wi = w as int;
    let mut row: usize = 0;
    while row < glyph.height
        invariant
            w <= max_side(),
            h <= max_side(),
            wi == w as int,
            glyph_fits(*glyph),
            0 <= gx,
            0 <= gy,
            gx + glyph.width <= i32::MAX,
            gy + glyph.height <= i32::MAX,
            row <= glyph.height,
            alpha@.len() == w * h,
            rgb@.len() == 3 * (w * h),
            alpha0.len() == w * h,
            rgb0.len() == 3 * (w * h),
            forall|px: int, py: int|
                0 <= px < w && 0 <= py < h ==> #[trigger] alpha@[pixel(wi, px, py)] == match coverage_at(
                    *glyph,
                    gx as int,
                    gy as int,
                    px,
                    py,
                    row as int,
                    0,
                ) {
                    Some(c) => alpha_value(Some(c), a),
                    None => alpha0[pixel(wi, px, py)],
                },
            forall|px: int, py: int, ch: int|
                0 <= px < w && 0 <= py < h && 0 <= ch < 3 ==> #[trigger] rgb@[channel(
                    wi,
                    px,
                    py,
                    ch,
                )] == match coverage_at(*glyph, gx as int, gy as int, px, py, row as int, 0) {
                    Some(c) => rgb_value(Some(c), r, g, b, ch),
                    None => rgb0[channel(wi, px, py, ch)],
                },
        decreases glyph.height - row,
    {
        let mut col: usize = 0;
        while col < glyph.width
            invariant
                w <= max_side(),
                h <= max_side(),
                wi == w as int,
                glyph_fits(*glyph),
                0 <= gx,
                0 <= gy,
                gx + glyph.width <= i32::MAX,
                gy + glyph.height <= i32::MAX,
                row < glyph.height,
                col <= glyph.width,
                alpha@.len() == w * h,
                rgb@.len() == 3 * (w * h),
                alpha0.len() == w * h,
                rgb0.len() == 3 * (w * h),
                forall|px: int, py: int|
                    0 <= px < w && 0 <= py < h ==> #[trigger] alpha@[pixel(wi, px, py)] == match coverage_at(
                        *glyph,
                        gx as int,
                        gy as int,
                        px,
                        py,
                        row as int,
                        col as int,
                    ) {
                        Some(c) => alpha_value(Some(c), a),
                        None => alpha0[pixel(wi, px, py)],
                    },
                forall|px: int, py: int, ch: int|
                    0 <= px < w && 0 <= py < h && 0 <= ch < 3 ==> #[trigger] rgb@[channel(
                        wi,
                        px,
                        py,
                        ch,
                    )] == match coverage_at(
                        *glyph,
                        gx as int,
                        gy as int,
                        px,
                        py,
                        row as int,
                        col as int,
                    ) {
                        Some(c) => rgb_value(Some(c), r, g, b, ch),
                        None => rgb0[channel(wi, px, py, ch)],
                    },
            decreases glyph.width - col,
        {
            let coverage_len: usize = glyph.coverage.len();
            proof {
                lemma_bitmap_index(glyph.width as int, glyph.height as int, row as int, col as int);
                assert(0 <= row * glyph.width <= row * glyph.width + col < coverage_len);
            }
            let cov: u8 = glyph.coverage[row * glyph.width + col];
            let x: i32 = gx + col as i32;
            let y: i32 = gy + row as i32;
            let ghost before_alpha = alpha@;
            let ghost before_rgb = rgb@;
            let rgb_len: usize = rgb.len();
            if cov != 0 && x >= 0 && y >= 0 && x < w as i32 && y < h as i32 {
                proof {
                    lemma_pixel_bounds(wi, h as int, x as int, y as int);
                    assert(0 <= (y as int) * wi <= pixel(wi, x as int, y as int));
                }
                let idx: usize = (y as usize) * w + x as usize;
                proof {
                    lemma_pixel_bounds(wi, h as int, x as int, y as int);
                    lemma_paint_alpha(cov, a);
                    assert(idx * 3 + 2 < rgb_len);
                }
                rgb.set(idx * 3, r);
                rgb.set(idx * 3 + 1, g);
                rgb.set(idx * 3 + 2, b);
                alpha.set(idx, ((cov as u16 * a as u16) / 255) as u8);
                proof {
                    assert forall|px: int, py: int|
                        0 <= px < w && 0 <= py < h implies #[trigger] alpha@[pixel(wi, px, py)]
                        == match coverage_at(
                            *glyph,
                            gx as int,
                            gy as int,
                            px,
                            py,
                            row as int,
                            col + 1,
                        ) {
                            Some(c) => alpha_value(Some(c), a),
                            None => alpha0[pixel(wi, px, py)],
                        } by {
                        lemma_pixel_bounds(wi, h as int, px, py);
                        if px == x && py == y {
                        } else {
                            if pixel(wi, px, py) == pixel(wi, x as int, y as int) {
                                lemma_pixel_injective(wi, px, py, x as int, y as int);
                            }
                            assert(before_alpha[pixel(wi, px, py)] == alpha@[pixel(wi, px, py)]);
                        }
                    }
                    assert forall|px: int, py: int, ch: int|
                        0 <= px < w && 0 <= py < h && 0 <= ch < 3 implies #[trigger] rgb@[channel(
                            wi,
                            px,
                            py,
                            ch,
                        )] == match coverage_at(
                            *glyph,
                            gx as int,
                            gy as int,
                            px,
                            py,
                            row as int,
                            col + 1,
                        ) {
                            Some(c) => rgb_value(Some(c), r, g, b, ch),
                            None => rgb0[channel(wi, px, py, ch)],
                        } by {
                        lemma_pixel_bounds(wi, h as int, px, py);
                        if px == x && py == y {
                        } else {
                            if pixel(wi, px, py) == pixel(wi, x as int, y as int) {
                                lemma_pixel_injective(wi, px, py, x as int, y as int);
                            }
                            assert(before_rgb[channel(wi, px, py, ch)] == rgb@[channel(
                                wi,
                                px,
                                py,
                                ch,
                            )]);
                        }
                    }
                }
            } else {
                proof {
                    assert forall|px: int, py: int|
                        0 <= px < w && 0 <= py < h implies coverage_at(
                            *glyph,
                            gx as int,
                            gy as int,
                            px,
                            py,
                            row as int,
                            col + 1,
                        ) == coverage_at(
                            *glyph,
                            gx as int,
                            gy as int,
                            px,
                            py,
                            row as int,
                            col as int,
                        ) by {
                        if px == x && py == y {
                        }
                    }
                }
            }
            col = col + 1;
        }
        proof {
            assert forall|px: int, py: int|
                0 <= px < w && 0 <= py < h implies coverage_at(
                    *glyph,
                    gx as int,
                    gy as int,
                    px,
                    py,
                    row + 1,
                    0,
                ) == coverage_at(
                    *glyph,
                    gx as int,
                    gy as int,
                    px,
                    py,
                    row as int,
                    glyph.width as int,
                ) by {}
        }
        row = row + 1;
    }
}

/// The image holds the glyphs as `compose_stamp` promises: it spans the ink box,
/// and each pixel has the colour and the scaled coverage of the last glyph that
/// covers it, or zero in every channel where none does.
pub open spec fn stamp_shows(s: Stamp, gs: Seq<GlyphBitmap>, r: u8, g: u8, b: u8, a: u8) -> bool {
    &&& s.w == stamp_width(gs)
    &&& s.h == stamp_height(gs)
    &&& s.alpha@.len() == s.w * s.h
    &&& s.rgb@.len() == 3 * (s.w * s.h)
    &&& forall|px: int, py: int|
        0 <= px < s.w && 0 <= py < s.h ==> #[trigger] s.alpha@[pixel(s.w as int, px, py)]
            == alpha_value(top_coverage(gs, ink_left(gs), ink_top(gs), px, py), a)
    &&& forall|px: int, py: int, ch: int|
        0 <= px < s.w && 0 <= py < s.h && 0 <= ch < 3 ==> #[trigger] s.rgb@[channel(
            s.w as int,
            px,
            py,
            ch,
        )] == rgb_value(top_coverage(gs, ink_left(gs), ink_top(gs), px, py), r, g, b, ch)
}

/// A glyph drawn alone in full alpha shows its coverage as it is: the image is
/// the glyph's box, and the alpha of the pixel in column `col` of row `row`
/// (rows from the top) is the coverage byte `row * width + col`, read row by
/// row, `width` bytes to a row.
pub proof fn lemma_single_glyph_alpha(s: Stamp, g: GlyphBitmap, r: u8, gr: u8, b: u8)
    requires
        glyph_fits(g),
        stamp_shows(s, seq![g], r, gr, b, 255),
    ensures
        s.w == g.width,
        s.h == g.height,
        forall|row: int, col: int|
            0 <= row < g.height && 0 <= col < g.width ==> #[trigger] s.alpha@[row * g.width + col]
                == g.coverage@[row * g.width + col],
{
    let gs = seq![g];
    assert(gs.drop_last() =~= Seq::<GlyphBitmap>::empty());
    assert(gs.last() == g);
    let none = Seq::<GlyphBitmap>::empty();
    assert(ink_left(gs.drop_last()) == ink_left(none));
    assert(ink_right(gs.drop_last()) == ink_right(none));
    assert(ink_top(gs.drop_last()) == ink_top(none));
    assert(ink_bottom(gs.drop_last()) == ink_bottom(none));
    assert(ink_left(gs) == g.left);
    assert(ink_right(gs) == glyph_right(g));
    assert(ink_top(gs) == glyph_top(g));
    assert(ink_bottom(gs) == g.bottom);
    assert forall|row: int, col: int|
        0 <= row < g.height && 0 <= col < g.width implies #[trigger] s.alpha@[row * g.width + col]
            == g.coverage@[row * g.width + col] by {
        assert(pixel(s.w as int, col, row) == row * g.width + col);
        assert(s.alpha@[pixel(s.w as int, col, row)] == alpha_value(
            top_coverage(gs, ink_left(gs), ink_top(gs), col, row),
            255,
        ));
        let c = g.coverage@[row * g.width + col];
        assert(glyph_coverage(g, ink_left(gs), ink_top(gs), col, row) == if c != 0 {
            Some(c)
        } else {
            None::<u8>
        });
        assert(top_coverage(gs, ink_left(gs), ink_top(gs), col, row) == glyph_coverage(
            g,
            ink_left(gs),
            ink_top(gs),
            col,
            row,
        )) by {
            assert(top_coverage(gs.drop_last(), ink_left(gs), ink_top(gs), col, row) == None::<u8>);
        }
        assert((c as int * 255) / 255 == c as int) by (nonlinear_arith);
    }
}

/// Whether the glyphs can be composed without an `i32` overflow (`layout_fits`),
/// which `compose_stamp` needs.
pub fn check_layout(glyphs: &Vec<GlyphBitmap>) -> (r: bool)
    ensures
        r == layout_fits(glyphs@),
{
    let ghost gs = glyphs@;
    let mut left: i64 = i32::MAX as i64;
    let mut right: i64 = i32::MIN as i64;
    let mut top: i64 = i32::MIN as i64;
    let mut bottom: i64 = i32::MAX as i64;
    let mut k: usize = 0;
    while k < glyphs.len()
        invariant
            gs == glyphs@,
            k <= gs.len(),
            forall|j: int| 0 <= j < k ==> glyph_fits(#[trigger] gs[j]),
            left == ink_left(gs.take(k as int)),
            right == ink_right(gs.take(k as int)),
            top == ink_top(gs.take(k as int)),
            bottom == ink_bottom(gs.take(k as int)),
            i32::MIN <= left <= i32::MAX,
            i32::MIN <= right <= i32::MAX,
            i32::MIN <= top <= i32::MAX,
            i32::MIN <= bottom <= i32::MAX,
        decreases gs.len() - k,
    {
        let glyph = &glyphs[k];
        proof {
            assert(gs.take(k + 1).drop_last() == gs.take(k as int));
            assert(gs.take(k + 1).last() == gs[k as int]);
        }
        if glyph.width > i32::MAX as usize || glyph.height > i32::MAX as usize {
            proof {
                assert(!glyph_fits(gs[k as int]));
            }
            return false;
        }
        let right_edge: i64 = glyph.left as i64 + glyph.width as i64;
        let top_edge: i64 = glyph.bottom as i64 + glyph.height as i64;
        if right_edge > i32::MAX as i64 || top_edge > i32::MAX as i64 {
            proof {
                assert(!glyph_fits(gs[k as int]));
            }
            return false;
        }
        let size_matches = match glyph.width.checked_mul(glyph.height) {
            Some(n) => glyph.coverage.len() == n,
            None => false,
        };
        if !size_matches {
            proof {
                assert(!glyph_fits(gs[k as int]));
            }
            return false;
        }
        if (glyph.left as i64) < left {
            left = glyph.left as i64;
        }
        if right_edge > right {
            right = right_edge;
        }
        if top_edge > top {
            top = top_edge;
        }
        if (glyph.bottom as i64) < bottom {
            bottom = glyph.bottom as i64;
        }
        k = k + 1;
    }
    proof {
        assert(gs.take(gs.len() as int) == gs);
    }
    let width: i64 = right - left;
    let height: i64 = top - bottom;
    width >= i32::MIN as i64 && width <= i32::MAX as i64 && height >= i32::MIN as i64 && height
        <= i32::MAX as i64
}

/// Composes the glyphs into one image in colour (`r`, `g`, `b`) with alpha `a`:
/// the image spans the ink box of all glyphs, each glyph drawn over the ones
/// before it. An ink box that is empty, or wider or taller than 16000 pixels, is
/// refused.
pub fn compose_stamp(glyphs: &Vec<GlyphBitmap>, r: u8, g: u8, b: u8, a: u8) -> (res: Result<
    Stamp,
    String,
>)
    requires
        layout_fits(glyphs@),
    ensures
        !stamp_size_ok(glyphs@) ==> (res matches Err(text) && text@
            == "watermark text rasterized to an invalid bitmap"@),
        stamp_size_ok(glyphs@) ==> (res matches Ok(s) && stamp_shows(s, glyphs@, r, g, b, a)),
        glyphs@.len() == 1 && a == 255 ==> (res matches Ok(s) ==> forall|row: int, col: int|
            0 <= row < glyphs@[0].height && 0 <= col < glyphs@[0].width ==> #[trigger] s.alpha@[row
                * glyphs@[0].width + col] == glyphs@[0].coverage@[row * glyphs@[0].width + col]),
{
    let ghost gs = glyphs@;
    let mut left: i32 = i32::MAX;
    let mut right: i32 = i32::MIN;
    let mut top: i32 = i32::MIN;
    let mut bottom: i32 = i32::MAX;
    let mut k: usize = 0;
    while k < glyphs.len()
        invariant
            gs == glyphs@,
            layout_fits(gs),
            k <= gs.len(),
            left == ink_left(gs.take(k as int)),
            right == ink_right(gs.take(k as int)),
            top == ink_top(gs.take(k as int)),
            bottom == ink_bottom(gs.take(k as int)),
        decreases gs.len() - k,
    {
        let glyph = &glyphs[k];
        proof {
            assert(glyph_fits(gs[k as int]));
            assert(gs.take(k + 1).drop_last() == gs.take(k as int));
            assert(gs.take(k + 1).last() == gs[k as int]);
        }
        let glyph_right_edge: i32 = glyph.left + glyph.width as i32;
        let glyph_top_edge: i32 = glyph.bottom + glyph.height as i32;
        if glyph.left < left {
            left = glyph.left;
        }
        if glyph_right_edge > right {
            right = glyph_right_edge;
        }
        if glyph_top_edge > top {
            top = glyph_top_edge;
        }
        if glyph.bottom < bottom {
            bottom = glyph.bottom;
        }
        k = k + 1;
    }
    proof {
        assert(gs.take(gs.len() as int) == gs);
        if gs.len() > 0 {
            lemma_ink_contains(gs, 0);
        }
    }
    let w: usize = (right - left) as usize;
    let h: usize = (top - bottom) as usize;
    if w == 0 || h == 0 || w > 16000 || h > 16000 {
        return Err("watermark text rasterized to an invalid bitmap".to_owned());
    }
    proof {
        assert(0 <= w * h <= 16000 * 16000) by (nonlinear_arith)
            requires
                0 <= w <= 16000,
                0 <= h <= 16000,
        ;
    }
    let mut rgb = vec![0u8; w * h * 3];
    let mut alpha = vec![0u8; w * h];
    let ghost wi = w as int;
    let ghost ink_l = left as int;
    let ghost ink_t = top as int;
    proof {
        assert forall|i: int| 0 <= i < w * h implies alpha@[i] == 0u8 by {}
        assert forall|i: int| 0 <= i < 3 * (w * h) implies rgb@[i] == 0u8 by {}
        assert(gs.take(0).len() == 0);
        assert forall|px: int, py: int|
            0 <= px < w && 0 <= py < h implies #[trigger] alpha@[pixel(wi, px, py)] == alpha_value(
                top_coverage(gs.take(0), ink_l, ink_t, px, py),
                a,
            ) by {
            lemma_pixel_bounds(wi, h as int, px, py);
        }
        assert forall|px: int, py: int, ch: int|
            0 <= px < w && 0 <= py < h && 0 <= ch < 3 implies #[trigger] rgb@[channel(
                wi,
                px,
                py,
                ch,
            )] == rgb_value(top_coverage(gs.take(0), ink_l, ink_t, px, py), r, g, b, ch) by {
            lemma_pixel_bounds(wi, h as int, px, py);
        }
    }
    let mut k: usize = 0;
    while k < glyphs.len()
        invariant
            gs == glyphs@,
            layout_fits(gs),
            gs.len() > 0,
            k <= gs.len(),
            left == ink_left(gs),
            right == ink_right(gs),
            top == ink_top(gs),
            bottom == ink_bottom(gs),
            ink_l == left as int,
            ink_t == top as int,
            wi == w as int,
            w == right - left,
            h == top - bottom,
            0 < w <= max_side(),
            0 < h <= max_side(),
            alpha@.len() == w * h,
            rgb@.len() == 3 * (w * h),
            forall|px: int, py: int|
                0 <= px < w && 0 <= py < h ==> #[trigger] alpha@[pixel(wi, px, py)] == alpha_value(
                    top_coverage(gs.take(k as int), ink_l, ink_t, px, py),
                    a,
                ),
            forall|px: int, py: int, ch: int|
                0 <= px < w && 0 <= py < h && 0 <= ch < 3 ==> #[trigger] rgb@[channel(
                    wi,
                    px,
                    py,
                    ch,
                )] == rgb_value(top_coverage(gs.take(k as int), ink_l, ink_t, px, py), r, g, b, ch),
        decreases gs.len() - k,
    {
        let glyph = &glyphs[k];
        proof {
            assert(glyph_fits(gs[k as int]));
            lemma_ink_contains(gs, k as int);
            assert(gs.take(k + 1).drop_last() == gs.take(k as int));
            assert(gs.take(k + 1).last() == gs[k as int]);
        }
        let gx: i32 = glyph.left - left;
        let gy: i32 = top - (glyph.bottom + glyph.height as i32);
        let ghost alpha_before = alpha@;
        let ghost rgb_before = rgb@;
        draw_glyph(&mut rgb, &mut alpha, w, h, glyph, gx, gy, r, g, b, a);
        proof {
            assert forall|px: int, py: int|
                0 <= px < w && 0 <= py < h implies #[trigger] alpha@[pixel(wi, px, py)]
                == alpha_value(top_coverage(gs.take(k + 1), ink_l, ink_t, px, py), a) by {
                assert(glyph_coverage(gs[k as int], ink_l, ink_t, px, py) == coverage_at(
                    *glyph,
                    gx as int,
                    gy as int,
                    px,
                    py,
                    glyph.height as int,
                    0,
                ));
                assert(alpha_before[pixel(wi, px, py)] == alpha_value(
                    top_coverage(gs.take(k as int), ink_l, ink_t, px, py),
                    a,
                ));
            }
            assert forall|px: int, py: int, ch: int|
                0 <= px < w && 0 <= py < h && 0 <= ch < 3 implies #[trigger] rgb@[channel(
                    wi,
                    px,
                    py,
                    ch,
                )] == rgb_value(top_coverage(gs.take(k + 1), ink_l, ink_t, px, py), r, g, b, ch) by {
                assert(glyph_coverage(gs[k as int], ink_l, ink_t, px, py) == coverage_at(
                    *glyph,
                    gx as int,
                    gy as int,
                    px,
                    py,
                    glyph.height as int,
                    0,
                ));
                assert(rgb_before[channel(wi, px, py, ch)] == rgb_value(
                    top_coverage(gs.take(k as int), ink_l, ink_t, px, py),
                    r,
                    g,
                    b,
                    ch,
                ));
            }
        }
        k = k + 1;
    }
    proof {
        assert(gs.take(gs.len() as int) == gs);
    }
    let stamp = Stamp { rgb, alpha, w, h };
    proof {
        if gs.len() == 1 && a == 255 {
            assert(gs =~= seq![gs[0]]);
            lemma_single_glyph_alpha(stamp, gs[0], r, g, b);
        }
    }
    Ok(stamp)
}

/// `hs` is `gs` moved by (`dx`, `dy`): the same glyphs, each placed `dx` further
/// right and `dy` further up.
pub open spec fn shifted(gs: Seq<GlyphBitmap>, hs: Seq<GlyphBitmap>, dx: int, dy: int) -> bool {
    &&& hs.len() == gs.len()
    &&& forall|k: int|
        0 <= k < gs.len() ==> {
            &&& (#[trigger] hs[k]).left == gs[k].left + dx
            &&& hs[k].bottom == gs[k].bottom + dy
            &&& hs[k].width == gs[k].width
            &&& hs[k].height == gs[k].height
            &&& hs[k].coverage@ == gs[k].coverage@
        }
}

proof fn lemma_shifted_prefix(gs: Seq<GlyphBitmap>, hs: Seq<GlyphBitmap>, dx: int, dy: int)
    requires
        shifted(gs, hs, dx, dy),
        gs.len() > 0,
    ensures
        shifted(gs.drop_last(), hs.drop_last(), dx, dy),
        hs.last().left == gs.last().left + dx,
        hs.last().bottom == gs.last().bottom + dy,
        hs.last().width == gs.last().width,
        hs.last().height == gs.last().height,
        hs.last().coverage@ == gs.last().coverage@,
{
    assert forall|k: int| 0 <= k < gs.drop_last().len() implies {
        &&& (#[trigger] hs.drop_last()[k]).left == gs.drop_last()[k].left + dx
        &&& hs.drop_last()[k].bottom == gs.drop_last()[k].bottom + dy
        &&& hs.drop_last()[k].width == gs.drop_last()[k].width
        &&& hs.drop_last()[k].height == gs.drop_last()[k].height
        &&& hs.drop_last()[k].coverage@ == gs.drop_last()[k].coverage@
    } by {
        assert(hs.drop_last()[k] == hs[k]);
        assert(gs.drop_last()[k] == gs[k]);
    }
    assert(hs.last() == hs[hs.len() - 1]);
    assert(gs.last() == gs[gs.len() - 1]);
}

/// Moving every glyph by the same amount moves the ink box by that amount.
proof fn lemma_shifted_ink(gs: Seq<GlyphBitmap>, hs: Seq<GlyphBitmap>, dx: int, dy: int)
    requires
        shifted(gs, hs, dx, dy),
        gs.len() > 0,
    ensures
        ink_left(hs) == ink_left(gs) + dx,
        ink_right(hs) == ink_right(gs) + dx,
        ink_top(hs) == ink_top(gs) + dy,
        ink_bottom(hs) == ink_bottom(gs) + dy,
    decreases gs.len(),
{
    lemma_shifted_prefix(gs, hs, dx, dy);
    if gs.len() > 1 {
        lemma_shifted_ink(gs.drop_last(), hs.drop_last(), dx, dy);
    } else {
        assert(ink_left(hs.drop_last()) == i32::MAX);
        assert(ink_left(gs.drop_last()) == i32::MAX);
        assert(ink_right(hs.drop_last()) == i32::MIN);
        assert(ink_right(gs.drop_last()) == i32::MIN);
        assert(ink_top(hs.drop_last()) == i32::MIN);
        assert(ink_top(gs.drop_last()) == i32::MIN);
        assert(ink_bottom(hs.drop_last()) == i32::MAX);
        assert(ink_bottom(gs.drop_last()) == i32::MAX);
    }
}

/// The whole image is the same wherever the text sits: moving every glyph by the
/// same amount changes neither the image's size nor any of its pixels.
pub proof fn lemma_compose_shift_invariant(gs: Seq<GlyphBitmap>, hs: Seq<GlyphBitmap>, dx: int, dy: int)
    requires
        shifted(gs, hs, dx, dy),
        gs.len() > 0,
    ensures
        stamp_width(hs) == stamp_width(gs),
        stamp_height(hs) == stamp_height(gs),
        stamp_size_ok(hs) == stamp_size_ok(gs),
        forall|px: int, py: int|
            #[trigger] top_coverage(hs, ink_left(hs), ink_top(hs), px, py) == top_coverage(
                gs,
                ink_left(gs),
                ink_top(gs),
                px,
                py,
            ),
    decreases gs.len(),
{
    lemma_shifted_ink(gs, hs, dx, dy);
    assert forall|px: int, py: int|
        #[trigger] top_coverage(hs, ink_left(hs), ink_top(hs), px, py) == top_coverage(
            gs,
            ink_left(gs),
            ink_top(gs),
            px,
            py,
        ) by {
        lemma_top_coverage_shifted(gs, hs, dx, dy, ink_left(gs), ink_top(gs), px, py);
    }
}

proof fn lemma_top_coverage_shifted(
    gs: Seq<GlyphBitmap>,
    hs: Seq<GlyphBitmap>,
    dx: int,
    dy: int,
    l: int,
    t: int,
    px: int,
    py: int,
)
    requires
        shifted(gs, hs, dx, dy),
    ensures
        top_coverage(hs, l + dx, t + dy, px, py) == top_coverage(gs, l, t, px, py),
    decreases gs.len(),
{
    if gs.len() > 0 {
        lemma_shifted_prefix(gs, hs, dx, dy);
        lemma_top_coverage_shifted(gs.drop_last(), hs.drop_last(), dx, dy, l, t, px, py);
        assert(glyph_coverage(hs.last(), l + dx, t + dy, px, py) == glyph_coverage(
            gs.last(),
            l,
            t,
            px,
            py,
        ));
    }
}

/// Where a plane of `w` by `h` pixels stands, each index is a pixel's.
proof fn lemma_index_pixel(w: int, h: int, i: int)
    requires
        0 < w,
        0 <= i < w * h,
    ensures
        0 <= i % w < w,
        0 <= i / w < h,
        pixel(w, i % w, i / w) == i,
{
    vstd::arithmetic::div_mod::lemma_fundamental_div_mod(i, w);
    assert(0 <= i / w < h) by (nonlinear_arith)
        requires
            0 < w,
            0 <= i < w * h,
            i == w * (i / w) + i % w,
            0 <= i % w < w,
    ;
    assert(pixel(w, i % w, i / w) == (i / w) * w + i % w);
    assert((i / w) * w == w * (i / w)) by (nonlinear_arith);
}

/// The colour only fills the RGB plane: composing the same glyphs in two colours
/// with the same alpha gives images of the same size and the same alpha plane.
pub proof fn lemma_colour_independent(
    s1: Stamp,
    s2: Stamp,
    gs: Seq<GlyphBitmap>,
    r1: u8,
    g1: u8,
    b1: u8,
    r2: u8,
    g2: u8,
    b2: u8,
    a: u8,
)
    requires
        stamp_shows(s1, gs, r1, g1, b1, a),
        stamp_shows(s2, gs, r2, g2, b2, a),
    ensures
        s1.w == s2.w,
        s1.h == s2.h,
        s1.alpha@ == s2.alpha@,
{
    let w = s1.w as int;
    let h = s1.h as int;
    if w > 0 {
        assert forall|i: int| 0 <= i < s1.alpha@.len() implies s1.alpha@[i] == s2.alpha@[i] by {
            lemma_index_pixel(w, h, i);
            let px = i % w;
            let py = i / w;
            assert(s1.alpha@[pixel(w, px, py)] == s2.alpha@[pixel(w, px, py)]);
        }
    } else {
        assert(s1.w * s1.h == 0 && s2.w * s2.h == 0) by (nonlinear_arith)
            requires
                s1.w == 0,
                s2.w == 0,
        ;
    }
    assert(s1.alpha@ =~= s2.alpha@);
}

/// The alpha only scales the coverage: composing the same glyphs with alpha `a`
/// gives the image composed fully opaque, with every alpha value multiplied by
/// `a` and divided by 255.
pub proof fn lemma_alpha_scaled(s: Stamp, t: Stamp, gs: Seq<GlyphBitmap>, r: u8, g: u8, b: u8, a: u8)
    requires
        stamp_shows(t, gs, r, g, b, 255),
        stamp_shows(s, gs, r, g, b, a),
    ensures
        s.w == t.w,
        s.h == t.h,
        s.rgb@ == t.rgb@,
        s.alpha@.len() == t.alpha@.len(),
        forall|i: int| 0 <= i < s.alpha@.len() ==> s.alpha@[i] as int == (t.alpha@[i] as int) * (a as int) / 255,
{
    let w = s.w as int;
    let h = s.h as int;
    if w > 0 {
        assert forall|i: int| 0 <= i < s.alpha@.len() implies s.alpha@[i] as int == (t.alpha@[i] as int) * (
        a as int) / 255 by {
            lemma_index_pixel(w, h, i);
            let px = i % w;
            let py = i / w;
            let c = top_coverage(gs, ink_left(gs), ink_top(gs), px, py);
            assert(s.alpha@[pixel(w, px, py)] == alpha_value(c, a));
            assert(t.alpha@[pixel(w, px, py)] == alpha_value(c, 255));
            if let Some(v) = c {
                lemma_paint_alpha(v, a);
                lemma_paint_alpha(v, 255);
                assert((v as int * 255) / 255 == v as int);
            }
        }
        assert forall|i: int| 0 <= i < s.rgb@.len() implies s.rgb@[i] == t.rgb@[i] by {
            let p = i / 3;
            let ch = i % 3;
            vstd::arithmetic::div_mod::lemma_fundamental_div_mod(i, 3);
            assert(0 <= p < w * h);
            lemma_index_pixel(w, h, p);
            assert(channel(w, p % w, p / w, ch) == i);
            assert(s.rgb@[channel(w, p % w, p / w, ch)] == t.rgb@[channel(w, p % w, p / w, ch)]);
        }
    } else {
        assert(s.w * s.h == 0 && t.w * t.h == 0) by (nonlinear_arith)
            requires
                s.w == 0,
                t.w == 0,
        ;
    }
    assert(s.rgb@ =~= t.rgb@);
}

/// `hs` is `gs` with each glyph moved sideways by its own amount: the same
/// glyphs at the same heights.
pub open spec fn moved_sideways(gs: Seq<GlyphBitmap>, hs: Seq<GlyphBitmap>) -> bool {
    &&& hs.len() == gs.len()
    &&& forall|k: int|
        0 <= k < gs.len() ==> (#[trigger] hs[k]).bottom == gs[k].bottom && hs[k].height
            == gs[k].height
}

/// Moving glyphs sideways, each by its own amount (as aligning lines does), never
/// changes the image's height.
pub proof fn lemma_height_ignores_sideways(gs: Seq<GlyphBitmap>, hs: Seq<GlyphBitmap>)
    requires
        moved_sideways(gs, hs),
    ensures
        ink_top(hs) == ink_top(gs),
        ink_bottom(hs) == ink_bottom(gs),
        stamp_height(hs) == stamp_height(gs),
    decreases gs.len(),
{
    if gs.len() > 0 {
        let n = gs.len() - 1;
        assert(moved_sideways(gs.drop_last(), hs.drop_last())) by {
            assert forall|k: int| 0 <= k < gs.drop_last().len() implies (#[trigger] hs.drop_last()[k]).bottom
                == gs.drop_last()[k].bottom && hs.drop_last()[k].height == gs.drop_last()[k].height by {
                assert(hs.drop_last()[k] == hs[k] && gs.drop_last()[k] == gs[k]);
            }
        }
        lemma_height_ignores_sideways(gs.drop_last(), hs.drop_last());
        assert(hs.last() == hs[n] && gs.last() == gs[n]);
    }
}

} // verus!
