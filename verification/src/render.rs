//! The rasterizer: projects the live region onto a packed RGB pixel
//! buffer (row-major, 3 bytes per pixel) given a camera center and a
//! pixels-per-cell zoom.
//!
//! The zoom is an exact positive rational, so every screen position is
//! computed exactly and rounded half away from zero.  At a zoom below 2 a
//! cell is a single pixel; at 2 and above it is a filled square of side
//! `floor(zoom) - 1`, inset by one pixel from the cell's corner.  Pixels
//! no cell touches keep their prior value: clearing is the caller's job.

use vstd::prelude::*;

use crate::grid::{lemma_slook_index, lemma_slook_none, slook, Grid};
use crate::position::Position;

verus! {

/// The pixels-per-cell zoom factor: the exact rational `num / den`.
#[derive(Clone, Copy, Debug)]
pub struct Zoom {
    pub num: u32,
    pub den: u32,
}

impl Zoom {
    /// A zoom must be positive.
    pub open spec fn wf(&self) -> bool {
        self.num >= 1 && self.den >= 1
    }

    pub fn new(num: u32, den: u32) -> (r: Zoom)
        requires
            num >= 1,
            den >= 1,
        ensures
            r.wf(),
            r.num == num,
            r.den == den,
    {
        Zoom { num, den }
    }
}

/// `a / b` rounded half away from zero, for `b > 0`.
pub open spec fn round_div(a: int, b: int) -> int
    recommends
        b > 0,
{
    if a >= 0 {
        (2 * a + b) / (2 * b)
    } else {
        -((2 * (-a) + b) / (2 * b))
    }
}

/// The screen position of cell coordinate `c` along one axis: the cell's
/// distance from the camera center scaled by the zoom, shifted so the
/// center lands mid-buffer, rounded to the nearest pixel.
pub open spec fn screen_coord(c: int, center: int, extent: int, z: Zoom) -> int {
    round_div(2 * (c - center) * (z.num as int) + extent * (z.den as int), 2 * (z.den as int))
}

/// Whether the shape plotted for cell `c` covers pixel `(px, py)`.
pub open spec fn cell_covers(
    c: (int, int),
    px: int,
    py: int,
    w: int,
    h: int,
    cx: int,
    cy: int,
    z: Zoom,
) -> bool {
    let sx = screen_coord(c.0, cx, w, z);
    let sy = screen_coord(c.1, cy, h, z);
    if z.num < 2 * z.den {
        px == sx && py == sy
    } else {
        let fp = (z.num as int) / (z.den as int);
        sx + 1 <= px <= sx + fp - 1 && sy + 1 <= py <= sy + fp - 1
    }
}

/// Whether any cell of the mapping covers pixel `(px, py)`.
pub open spec fn covered(
    m: Map<(int, int), u32>,
    px: int,
    py: int,
    w: int,
    h: int,
    cx: int,
    cy: int,
    z: Zoom,
) -> bool {
    exists|c: (int, int)| #[trigger] m.dom().contains(c) && cell_covers(c, px, py, w, h, cx, cy, z)
}

/// Whether one of the first `t` stored cells covers pixel `(px, py)`.
spec fn covered_upto(
    s: Seq<(Position, u32)>,
    t: int,
    px: int,
    py: int,
    w: int,
    h: int,
    cx: int,
    cy: int,
    z: Zoom,
) -> bool {
    exists|u: int| 0 <= u < t && cell_covers((#[trigger] s[u]).0@, px, py, w, h, cx, cy, z)
}

/// Whether pixel `(px, py)` holds the color of one of the first `t`
/// stored cells that covers it.
spec fn painted_upto(
    s: Seq<(Position, u32)>,
    t: int,
    px: int,
    py: int,
    w: int,
    h: int,
    cx: int,
    cy: int,
    z: Zoom,
    buf: Seq<u8>,
) -> bool {
    exists|u: int|
        0 <= u < t && cell_covers((#[trigger] s[u]).0@, px, py, w, h, cx, cy, z) && pix(
            buf,
            w,
            px,
            py,
        ) == color_spec(s[u].1 as int)
}

/// The RGB bytes of pixel `(px, py)` in a row-major buffer of width `w`.
pub open spec fn pix(buf: Seq<u8>, w: int, px: int, py: int) -> (u8, u8, u8) {
    (buf[3 * (py * w + px)], buf[3 * (py * w + px) + 1], buf[3 * (py * w + px) + 2])
}

/// The fixed color ramp: white for a fresh cell, darkening blues as the
/// counter grows, and `(0, 0, 100 - counter)` clamped to a byte beyond 8.
pub open spec fn color_spec(v: int) -> (u8, u8, u8) {
    if v == 1 {
        (255u8, 255u8, 255u8)
    } else if v == 2 {
        (0u8, 255u8, 255u8)
    } else if v == 3 {
        (0u8, 100u8, 255u8)
    } else if v == 4 {
        (0u8, 0u8, 255u8)
    } else if v == 5 {
        (0u8, 0u8, 230u8)
    } else if v == 6 {
        (0u8, 0u8, 200u8)
    } else if v == 7 {
        (0u8, 0u8, 150u8)
    } else if v == 8 {
        (0u8, 0u8, 100u8)
    } else if 100 - v < 0 {
        (0u8, 0u8, 0u8)
    } else if 100 - v > 255 {
        (0u8, 0u8, 255u8)
    } else {
        (0u8, 0u8, (100 - v) as u8)
    }
}

/// The screen position of `c` along one axis, computed exactly.
fn screen_coord_px(c: i32, center: i32, extent: u32, z: Zoom) -> (r: i128)
    requires
        z.wf(),
    ensures
        r == screen_coord(c as int, center as int, extent as int, z),
        -0x400000000000000000 <= r <= 0x400000000000000000,
{
    let diff: i64 = (c as i64) - (center as i64);
    proof {
        assert((2 * (diff as int)) * (z.num as int) <= 0x20000000000000000 && (2 * (diff as int))
            * (z.num as int) >= -0x20000000000000000) by (nonlinear_arith)
            requires
                -0x100000000 <= (diff as int) <= 0x100000000,
                0 <= (z.num as int) < 0x100000000,
        ;
        assert((extent as int) * (z.den as int) <= 0x10000000000000000 && (extent as int) * (
        z.den as int) >= 0) by (nonlinear_arith)
            requires
                0 <= (extent as int) < 0x100000000,
                0 <= (z.den as int) < 0x100000000,
        ;
    }
    let a: i128 = 2 * (diff as i128) * (z.num as i128) + (extent as i128) * (z.den as i128);
    let bu: u128 = 2 * (z.den as u128);
    if a >= 0 {
        let mag: u128 = a as u128;
        let q: u128 = (2 * mag + bu) / (2 * bu);
        proof {
            vstd::arithmetic::div_mod::lemma_div_is_ordered_by_denominator(
                (2 * mag + bu) as int,
                1,
                (2 * bu) as int,
            );
            vstd::arithmetic::div_mod::lemma_div_basics((2 * mag + bu) as int);
        }
        q as i128
    } else {
        let mag: u128 = (-a) as u128;
        let q: u128 = (2 * mag + bu) / (2 * bu);
        proof {
            vstd::arithmetic::div_mod::lemma_div_is_ordered_by_denominator(
                (2 * mag + bu) as int,
                1,
                (2 * bu) as int,
            );
            vstd::arithmetic::div_mod::lemma_div_basics((2 * mag + bu) as int);
        }
        -(q as i128)
    }
}

proof fn lemma_pixel_index_injective(w: int, h: int, ax: int, ay: int, bx: int, by: int)
    requires
        0 <= ax < w,
        0 <= bx < w,
        0 <= ay < h,
        0 <= by < h,
        !(ax == bx && ay == by),
    ensures
        ay * w + ax != by * w + bx,
{
    assert(ay * w + ax != by * w + bx) by (nonlinear_arith)
        requires
            0 <= ax < w,
            0 <= bx < w,
            0 <= ay,
            0 <= by,
            !(ax == bx && ay == by),
    ;
}

/// Write one pixel of the buffer, leaving every other pixel unchanged.
fn put_pixel(buf: &mut Vec<u8>, w: u32, h: u32, px: usize, py: usize, rgb: (u8, u8, u8))
    requires
        old(buf)@.len() == 3 * (w as int) * (h as int),
        px < w,
        py < h,
    ensures
        final(buf)@.len() == old(buf)@.len(),
        pix(final(buf)@, w as int, px as int, py as int) == rgb,
        forall|qx: int, qy: int|
            0 <= qx < w && 0 <= qy < h && !(qx == px && qy == py) ==> pix(
                final(buf)@,
                w as int,
                qx,
                qy,
            ) == pix(old(buf)@, w as int, qx, qy),
{
    let cap = buf.len();
    proof {
        assert((py as int) * (w as int) + (px as int) < (w as int) * (h as int))
            by (nonlinear_arith)
            requires
                0 <= (px as int) < (w as int),
                0 <= (py as int) < (h as int),
        ;
        assert(0 <= (py as int) * (w as int)) by (nonlinear_arith)
            requires
                0 <= (py as int),
                0 <= (w as int),
        ;
        assert(cap == buf@.len());
        assert(3 * ((w as int) * (h as int)) == 3 * (w as int) * (h as int)) by (nonlinear_arith);
    }
    let base: usize = 3 * (py * (w as usize) + px);
    buf.set(base, rgb.0);
    buf.set(base + 1, rgb.1);
    buf.set(base + 2, rgb.2);
    proof {
        assert forall|qx: int, qy: int|
            0 <= qx < w && 0 <= qy < h && !(qx == px && qy == py) implies pix(
            buf@,
            w as int,
            qx,
            qy,
        ) == pix(old(buf)@, w as int, qx, qy) by {
            lemma_pixel_index_injective(w as int, h as int, qx, qy, px as int, py as int);
            assert(0 <= qy * (w as int) + qx < (w as int) * (h as int)) by (nonlinear_arith)
                requires
                    0 <= qx < (w as int),
                    0 <= qy < (h as int),
            ;
            assert(3 * (qy * (w as int) + qx) + 2 < 3 * ((w as int) * (h as int)))
                by (nonlinear_arith)
                requires
                    0 <= qy * (w as int) + qx < (w as int) * (h as int),
            ;
        }
    }
}

/// Fill the inset square of side `fp - 1` whose corner is `(sx, sy)`,
/// clipping to the buffer; every other pixel is unchanged.
fn fill_square(buf: &mut Vec<u8>, w: u32, h: u32, sx: i128, sy: i128, fp: u32, rgb: (u8, u8, u8))
    requires
        old(buf)@.len() == 3 * (w as int) * (h as int),
        -0x400000000000000000 <= sx <= 0x400000000000000000,
        -0x400000000000000000 <= sy <= 0x400000000000000000,
    ensures
        final(buf)@.len() == old(buf)@.len(),
        forall|qx: int, qy: int|
            0 <= qx < w && 0 <= qy < h ==> pix(final(buf)@, w as int, qx, qy) == (if sx + 1 <= qx
                <= sx + fp - 1 && sy + 1 <= qy <= sy + fp - 1 {
                rgb
            } else {
                pix(old(buf)@, w as int, qx, qy)
            }),
{
    let mut i: u32 = 1;
    while i < fp
        invariant
            buf@.len() == 3 * (w as int) * (h as int),
            -0x400000000000000000 <= sx <= 0x400000000000000000,
            -0x400000000000000000 <= sy <= 0x400000000000000000,
            1 <= i <= fp || (fp == 0 && i == 1),
            forall|qx: int, qy: int|
                0 <= qx < w && 0 <= qy < h ==> pix(buf@, w as int, qx, qy) == (if sx + 1 <= qx <= sx
                    + i - 1 && sy + 1 <= qy <= sy + fp - 1 {
                    rgb
                } else {
                    pix(old(buf)@, w as int, qx, qy)
                }),
        decreases fp - i,
    {
        let px: i128 = sx + (i as i128);
        let ghost buf_col = buf@;
        let mut j: u32 = 1;
        while j < fp
            invariant
                buf@.len() == 3 * (w as int) * (h as int),
                -0x400000000000000000 <= sx <= 0x400000000000000000,
                -0x400000000000000000 <= sy <= 0x400000000000000000,
                1 <= i < fp,
                px == sx + i,
                1 <= j <= fp,
                forall|qx: int, qy: int|
                    0 <= qx < w && 0 <= qy < h ==> pix(buf@, w as int, qx, qy) == (if qx == px && sy
                        + 1 <= qy <= sy + j - 1 {
                        rgb
                    } else {
                        pix(buf_col, w as int, qx, qy)
                    }),
            decreases fp - j,
        {
            let py: i128 = sy + (j as i128);
            if px >= 0 && px < (w as i128) && py >= 0 && py < (h as i128) {
                put_pixel(buf, w, h, px as usize, py as usize, rgb);
            }
            j = j + 1;
        }
        i = i + 1;
    }
}

impl Grid {
    /// The color of a cell with counter `val`.
    pub fn color(val: u32) -> (r: (u8, u8, u8))
        ensures
            r == color_spec(val as int),
    {
        if val == 1 {
            (255, 255, 255)
        } else if val == 2 {
            (0, 255, 255)
        } else if val == 3 {
            (0, 100, 255)
        } else if val == 4 {
            (0, 0, 255)
        } else if val == 5 {
            (0, 0, 230)
        } else if val == 6 {
            (0, 0, 200)
        } else if val == 7 {
            (0, 0, 150)
        } else if val == 8 {
            (0, 0, 100)
        } else if val <= 100 {
            (0, 0, (100 - val) as u8)
        } else {
            (0, 0, 0)
        }
    }

    /// Render the grid into a caller-supplied row-major RGB buffer of
    /// `w * h` pixels.  Every pixel covered by some cell receives that
    /// cell's color; pixels no cell covers keep their prior value.
    pub fn render_into(
        &self,
        buf: &mut Vec<u8>,
        w: u32,
        h: u32,
        center_x: i32,
        center_y: i32,
        z: Zoom,
    )
        requires
            self.wf(),
            z.wf(),
            old(buf)@.len() == 3 * (w as int) * (h as int),
        ensures
            final(buf)@.len() == old(buf)@.len(),
            forall|px: int, py: int|
                0 <= px < w && 0 <= py < h && !covered(
                    self@,
                    px,
                    py,
                    w as int,
                    h as int,
                    center_x as int,
                    center_y as int,
                    z,
                ) ==> pix(final(buf)@, w as int, px, py) == pix(old(buf)@, w as int, px, py),
            forall|px: int, py: int|
                0 <= px < w && 0 <= py < h && covered(
                    self@,
                    px,
                    py,
                    w as int,
                    h as int,
                    center_x as int,
                    center_y as int,
                    z,
                ) ==> exists|c: (int, int)|
                    #[trigger] self@.dom().contains(c) && cell_covers(
                        c,
                        px,
                        py,
                        w as int,
                        h as int,
                        center_x as int,
                        center_y as int,
                        z,
                    ) && pix(final(buf)@, w as int, px, py) == color_spec(self@[c] as int),
    {
        let ghost wi = w as int;
        let ghost hi = h as int;
        let ghost cxi = center_x as int;
        let ghost cyi = center_y as int;
        let n = self.cells.len();
        let mut t: usize = 0;
        while t < n
            invariant
                self.wf(),
                z.wf(),
                n == self.cells@.len(),
                0 <= t <= n,
                buf@.len() == 3 * wi * hi,
                wi == w as int,
                hi == h as int,
                cxi == center_x as int,
                cyi == center_y as int,
                forall|px: int, py: int|
                    0 <= px < wi && 0 <= py < hi && !(#[trigger] covered_upto(
                        self.cells@,
                        t as int,
                        px,
                        py,
                        wi,
                        hi,
                        cxi,
                        cyi,
                        z,
                    )) ==> pix(buf@, wi, px, py) == pix(old(buf)@, wi, px, py),
                forall|px: int, py: int|
                    0 <= px < wi && 0 <= py < hi && #[trigger] covered_upto(
                        self.cells@,
                        t as int,
                        px,
                        py,
                        wi,
                        hi,
                        cxi,
                        cyi,
                        z,
                    ) ==> painted_upto(self.cells@, t as int, px, py, wi, hi, cxi, cyi, z, buf@),
            decreases n - t,
        {
            let (k, v) = self.cells[t];
            let rgb = Grid::color(v);
            let sx = screen_coord_px(k.x, center_x, w, z);
            let sy = screen_coord_px(k.y, center_y, h, z);
            let ghost buf_pre = buf@;
            if (z.num as u64) < 2 * (z.den as u64) {
                if sx >= 0 && sx < (w as i128) && sy >= 0 && sy < (h as i128) {
                    put_pixel(buf, w, h, sx as usize, sy as usize, rgb);
                }
            } else {
                let fp: u32 = z.num / z.den;
                fill_square(buf, w, h, sx, sy, fp, rgb);
            }
            proof {
                let s = self.cells@;
                assert forall|px: int, py: int| 0 <= px < wi && 0 <= py < hi implies pix(
                    buf@,
                    wi,
                    px,
                    py,
                ) == (if cell_covers(k@, px, py, wi, hi, cxi, cyi, z) {
                    color_spec(v as int)
                } else {
                    pix(buf_pre, wi, px, py)
                }) by {}
                assert forall|px: int, py: int|
                    0 <= px < wi && 0 <= py < hi && !(#[trigger] covered_upto(
                        s,
                        t + 1,
                        px,
                        py,
                        wi,
                        hi,
                        cxi,
                        cyi,
                        z,
                    )) implies pix(buf@, wi, px, py) == pix(old(buf)@, wi, px, py) by {
                    assert(!cell_covers((s[t as int]).0@, px, py, wi, hi, cxi, cyi, z));
                    assert(!covered_upto(s, t as int, px, py, wi, hi, cxi, cyi, z));
                }
                assert forall|px: int, py: int|
                    0 <= px < wi && 0 <= py < hi && #[trigger] covered_upto(
                        s,
                        t + 1,
                        px,
                        py,
                        wi,
                        hi,
                        cxi,
                        cyi,
                        z,
                    ) implies painted_upto(s, t + 1, px, py, wi, hi, cxi, cyi, z, buf@) by {
                    if cell_covers((s[t as int]).0@, px, py, wi, hi, cxi, cyi, z) {
                        assert(0 <= t < t + 1 && cell_covers(
                            (s[t as int]).0@,
                            px,
                            py,
                            wi,
                            hi,
                            cxi,
                            cyi,
                            z,
                        ) && pix(buf@, wi, px, py) == color_spec(s[t as int].1 as int));
                    } else {
                        let u = choose|u: int|
                            0 <= u < t + 1 && cell_covers(
                                (#[trigger] s[u]).0@,
                                px,
                                py,
                                wi,
                                hi,
                                cxi,
                                cyi,
                                z,
                            );
                        assert(u < t);
                        assert(covered_upto(s, t as int, px, py, wi, hi, cxi, cyi, z));
                        assert(painted_upto(s, t as int, px, py, wi, hi, cxi, cyi, z, buf_pre));
                        let u2 = choose|u2: int|
                            0 <= u2 < t && cell_covers(
                                (#[trigger] s[u2]).0@,
                                px,
                                py,
                                wi,
                                hi,
                                cxi,
                                cyi,
                                z,
                            ) && pix(buf_pre, wi, px, py) == color_spec(s[u2].1 as int);
                        assert(pix(buf@, wi, px, py) == pix(buf_pre, wi, px, py));
                        assert(0 <= u2 < t + 1 && cell_covers(
                            (s[u2]).0@,
                            px,
                            py,
                            wi,
                            hi,
                            cxi,
                            cyi,
                            z,
                        ) && pix(buf@, wi, px, py) == color_spec(s[u2].1 as int));
                    }
                }
            }
            t = t + 1;
        }
        proof {
            let s = self.cells@;
            assert forall|px: int, py: int|
                0 <= px < wi && 0 <= py < hi && covered(self@, px, py, wi, hi, cxi, cyi, z) implies (
            exists|c: (int, int)|
                #[trigger] self@.dom().contains(c) && cell_covers(c, px, py, wi, hi, cxi, cyi, z)
                    && pix(buf@, wi, px, py) == color_spec(self@[c] as int)) by {
                let c0 = choose|c: (int, int)|
                    #[trigger] self@.dom().contains(c) && cell_covers(c, px, py, wi, hi, cxi, cyi, z);
                lemma_slook_none(s, c0);
                let u0 = choose|u: int| 0 <= u < s.len() && (#[trigger] s[u].0)@ == c0;
                assert(cell_covers((#[trigger] s[u0]).0@, px, py, wi, hi, cxi, cyi, z));
                assert(covered_upto(s, n as int, px, py, wi, hi, cxi, cyi, z));
                assert(painted_upto(s, n as int, px, py, wi, hi, cxi, cyi, z, buf@));
                let u = choose|u: int|
                    0 <= u < n && cell_covers(
                        (#[trigger] s[u]).0@,
                        px,
                        py,
                        wi,
                        hi,
                        cxi,
                        cyi,
                        z,
                    ) && pix(buf@, wi, px, py) == color_spec(s[u].1 as int);
                lemma_slook_index(s, u);
                assert(self@.dom().contains((s[u].0)@));
                assert(self@[(s[u].0)@] == s[u].1);
            }
            assert forall|px: int, py: int|
                0 <= px < wi && 0 <= py < hi && !covered(self@, px, py, wi, hi, cxi, cyi, z) implies
                pix(buf@, wi, px, py) == pix(old(buf)@, wi, px, py) by {
                assert forall|u: int| 0 <= u < n implies !cell_covers(
                    (#[trigger] s[u]).0@,
                    px,
                    py,
                    wi,
                    hi,
                    cxi,
                    cyi,
                    z,
                ) by {
                    lemma_slook_index(s, u);
                    assert(self@.dom().contains((s[u].0)@));
                }
                assert(!covered_upto(s, n as int, px, py, wi, hi, cxi, cyi, z));
            }
        }
    }

    /// Render into a freshly zeroed buffer: the result holds exactly
    /// `w * h` packed RGB pixels, black except where cells were plotted.
    pub fn to_image(&self, w: u32, h: u32, center_x: i32, center_y: i32, z: Zoom) -> (buf: Vec<u8>)
        requires
            self.wf(),
            z.wf(),
            3 * (w as int) * (h as int) <= usize::MAX,
        ensures
            buf@.len() == 3 * (w as int) * (h as int),
            forall|px: int, py: int|
                0 <= px < w && 0 <= py < h && !covered(
                    self@,
                    px,
                    py,
                    w as int,
                    h as int,
                    center_x as int,
                    center_y as int,
                    z,
                ) ==> pix(buf@, w as int, px, py) == (0u8, 0u8, 0u8),
            forall|px: int, py: int|
                0 <= px < w && 0 <= py < h && covered(
                    self@,
                    px,
                    py,
                    w as int,
                    h as int,
                    center_x as int,
                    center_y as int,
                    z,
                ) ==> exists|c: (int, int)|
                    #[trigger] self@.dom().contains(c) && cell_covers(
                        c,
                        px,
                        py,
                        w as int,
                        h as int,
                        center_x as int,
                        center_y as int,
                        z,
                    ) && pix(buf@, w as int, px, py) == color_spec(self@[c] as int),
    {
        proof {
            assert((w as int) * (h as int) >= 0) by (nonlinear_arith);
            assert(3 * ((w as int) * (h as int)) == 3 * (w as int) * (h as int))
                by (nonlinear_arith);
        }
        let total: usize = 3 * ((w as usize) * (h as usize));
        let mut buf: Vec<u8> = Vec::new();
        while buf.len() < total
            invariant
                buf@.len() <= total,
                forall|q: int| 0 <= q < buf@.len() ==> buf@[q] == 0u8,
            decreases total - buf@.len(),
        {
            buf.push(0u8);
        }
        let ghost zeros = buf@;
        self.render_into(&mut buf, w, h, center_x, center_y, z);
        proof {
            assert forall|px: int, py: int|
                0 <= px < w && 0 <= py < h && !covered(
                    self@,
                    px,
                    py,
                    w as int,
                    h as int,
                    center_x as int,
                    center_y as int,
                    z,
                ) implies pix(buf@, w as int, px, py) == (0u8, 0u8, 0u8) by {
                assert(0 <= py * (w as int) + px < (w as int) * (h as int)) by (nonlinear_arith)
                    requires
                        0 <= px < (w as int),
                        0 <= py < (h as int),
                ;
                assert(3 * (py * (w as int) + px) + 2 < 3 * ((w as int) * (h as int)))
                    by (nonlinear_arith)
                    requires
                        0 <= py * (w as int) + px < (w as int) * (h as int),
                ;
                assert(pix(buf@, w as int, px, py) == pix(zeros, w as int, px, py));
            }
        }
        buf
    }
}

/// Rendering a grid whose single cell sits exactly at the camera center,
/// at a zoom of one pixel per cell, covers exactly one pixel: the one at
/// the buffer's midpoint.
pub proof fn lemma_center_cell_covers_midpoint(
    m: Map<(int, int), u32>,
    c: (int, int),
    v: u32,
    px: int,
    py: int,
    w: int,
    h: int,
    z: Zoom,
)
    requires
        m == Map::<(int, int), u32>::empty().insert(c, v),
        z.num == 1,
        z.den == 1,
    ensures
        covered(m, px, py, w, h, c.0, c.1, z) <==> (px == round_div(w, 2) && py == round_div(
            h,
            2,
        )),
        w >= 0 && w % 2 == 0 ==> round_div(w, 2) == w / 2,
        h >= 0 && h % 2 == 0 ==> round_div(h, 2) == h / 2,
{
    assert(screen_coord(c.0, c.0, w, z) == round_div(w, 2));
    assert(screen_coord(c.1, c.1, h, z) == round_div(h, 2));
    if px == round_div(w, 2) && py == round_div(h, 2) {
        assert(m.dom().contains(c) && cell_covers(c, px, py, w, h, c.0, c.1, z));
    }
    assert(w >= 0 && w % 2 == 0 ==> (2 * w + 2) / 4 == w / 2) by (nonlinear_arith);
    assert(h >= 0 && h % 2 == 0 ==> (2 * h + 2) / 4 == h / 2) by (nonlinear_arith);
}

} // verus!
