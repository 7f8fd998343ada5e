//! The CPU depth buffer that the stereogram is generated from, and the
//! painter's-algorithm rasterizer that fills it from sprite footprints.
//!
//! Depths are floating point in the game; the buffer here records, for each
//! pixel, which sprite (by its place in painting order) is seen there, so
//! that the caller reads the depth of that sprite, or the far background
//! where no sprite is seen.

use vstd::arithmetic::div_mod::{lemma_fundamental_div_mod, lemma_fundamental_div_mod_converse};
use vstd::prelude::*;

verus! {

/// Pixel-space footprint of a sprite before clipping to the buffer: columns
/// `x0..x1` and rows `y0..y1`, with the origin at the top-left corner and
/// rows growing downwards.
#[derive(Clone, Copy, Debug)]
pub struct SpriteRect {
    pub x0: i32,
    pub x1: i32,
    pub y0: i32,
    pub y1: i32,
}

/// A `width` x `height` buffer, row-major: `data[y * width + x]` is the index
/// (in painting order) of the sprite seen at pixel `(x, y)`, or `None` where
/// only the far background is seen.
pub struct DepthBuffer {
    pub data: Vec<Option<usize>>,
    pub width: usize,
    pub height: usize,
}

/// `v` clamped to `0..=hi`.
pub open spec fn clamp_spec(v: int, hi: int) -> int {
    if v < 0 {
        0
    } else if v > hi {
        hi
    } else {
        v
    }
}

/// Clips one edge of a footprint to `0..=hi`.
pub fn clamp_edge(v: i32, hi: usize) -> (r: usize)
    requires
        hi <= i32::MAX,
    ensures
        r == clamp_spec(v as int, hi as int),
{
    if v < 0 {
        0
    } else if v as usize > hi {
        hi
    } else {
        v as usize
    }
}

/// Whether the clipped footprint of `s` covers pixel `(px, py)` of a
/// `w` x `h` buffer.
pub open spec fn covers(s: SpriteRect, w: int, h: int, px: int, py: int) -> bool {
    &&& clamp_spec(s.x0 as int, w) <= px < clamp_spec(s.x1 as int, w)
    &&& clamp_spec(s.y0 as int, h) <= py < clamp_spec(s.y1 as int, h)
}

/// The sprite seen at pixel `(px, py)` once the first `n` sprites have been
/// painted in order: the last of them that covers the pixel, if any.
pub open spec fn top_sprite(sprites: Seq<SpriteRect>, n: int, w: int, h: int, px: int, py: int) -> Option<
    usize,
>
    decreases n,
{
    if n <= 0 {
        None
    } else if covers(sprites[n - 1], w, h, px, py) {
        Some((n - 1) as usize)
    } else {
        top_sprite(sprites, n - 1, w, h, px, py)
    }
}

impl DepthBuffer {
    /// One entry per pixel, and dimensions that the rasterizer can clip
    /// against as `i32` values.
    pub open spec fn wf(&self) -> bool {
        &&& self.data.len() == self.width * self.height
        &&& self.width <= i32::MAX
        &&& self.height <= i32::MAX
    }

    /// A buffer that shows the far background everywhere.
    pub fn new(width: usize, height: usize) -> (buf: Self)
        requires
            width * height <= usize::MAX,
            width <= i32::MAX,
            height <= i32::MAX,
        ensures
            buf.wf(),
            buf.width == width,
            buf.height == height,
            forall|i: int| 0 <= i < buf.data.len() ==> #[trigger] buf.data@[i] is None,
    {
        let n = width * height;
        let mut data: Vec<Option<usize>> = Vec::new();
        let mut i: usize = 0;
        while i < n
            invariant
                i <= n,
                data.len() == i,
                forall|j: int| 0 <= j < i ==> #[trigger] data@[j] is None,
            decreases n - i,
        {
            data.push(None);
            i = i + 1;
        }
        DepthBuffer { data, width, height }
    }
}

/// Pixel `py * w + px` lies inside a `w` x `h` buffer and has column `px`
/// and row `py`.
proof fn lemma_pixel_index(w: int, h: int, px: int, py: int)
    requires
        0 <= px < w,
        0 <= py < h,
    ensures
        0 <= py * w + px < w * h,
        (py * w + px) % w == px,
        (py * w + px) / w == py,
{
    assert(0 <= py * w + px < w * h) by (nonlinear_arith)
        requires
            0 <= px < w,
            0 <= py < h,
    ;
    lemma_fundamental_div_mod_converse(py * w + px, w, py, px);
}

/// Paints sprite `k` over the buffer: every pixel its clipped footprint
/// covers now shows sprite `k`.
fn paint_sprite(buf: &mut DepthBuffer, s: SpriteRect, k: usize)
    requires
        old(buf).wf(),
    ensures
        final(buf).wf(),
        final(buf).width == old(buf).width,
        final(buf).height == old(buf).height,
        forall|p: int|
            0 <= p < final(buf).data.len() ==> #[trigger] final(buf).data@[p] == if covers(
                s,
                old(buf).width as int,
                old(buf).height as int,
                p % (old(buf).width as int),
                p / (old(buf).width as int),
            ) {
                Some(k)
            } else {
                old(buf).data@[p]
            },
{
    let w = buf.width;
    let h = buf.height;
    let ghost wi = w as int;
    let ghost hi = h as int;
    let ghost before = buf.data@;
    let x0 = clamp_edge(s.x0, w);
    let x1 = clamp_edge(s.x1, w);
    let y0 = clamp_edge(s.y0, h);
    let y1 = clamp_edge(s.y1, h);
    let mut py = y0;
    while py < y1
        invariant
            buf.wf(),
            buf.width == w,
            buf.height == h,
            wi == w,
            hi == h,
            buf.data.len() == before.len(),
            x0 == clamp_spec(s.x0 as int, wi),
            x1 == clamp_spec(s.x1 as int, wi),
            y0 == clamp_spec(s.y0 as int, hi),
            y1 == clamp_spec(s.y1 as int, hi),
            y0 <= py,
            forall|p: int|
                0 <= p < buf.data.len() ==> #[trigger] buf.data@[p] == if y0 <= p / wi < py && p
                    / wi < y1 && x0 <= p % wi < x1 {
                    Some(k)
                } else {
                    before[p]
                },
        decreases y1 - py,
    {
        let mut px = x0;
        while px < x1
            invariant
                buf.wf(),
                buf.width == w,
                buf.height == h,
                wi == w,
                hi == h,
                buf.data.len() == before.len(),
                x0 == clamp_spec(s.x0 as int, wi),
                x1 == clamp_spec(s.x1 as int, wi),
                y0 == clamp_spec(s.y0 as int, hi),
                y1 == clamp_spec(s.y1 as int, hi),
                y0 <= py < y1,
                x0 <= px,
                px <= x1 || px == x0,
                forall|p: int|
                    0 <= p < buf.data.len() ==> #[trigger] buf.data@[p] == if (y0 <= p / wi < py
                        && p / wi < y1 && x0 <= p % wi < x1) || (p / wi == py && x0 <= p % wi
                        < px) {
                        Some(k)
                    } else {
                        before[p]
                    },
            decreases x1 - px,
        {
            proof {
                lemma_pixel_index(wi, hi, px as int, py as int);
            }
            let i = py * w + px;
            let ghost prev = buf.data@;
            buf.data.set(i, Some(k));
            assert forall|p: int| 0 <= p < buf.data.len() implies #[trigger] buf.data@[p] == if (y0
                <= p / wi < py && p / wi < y1 && x0 <= p % wi < x1) || (p / wi == py && x0 <= p
                % wi < px + 1) {
                Some(k)
            } else {
                before[p]
            } by {
                lemma_fundamental_div_mod(p, wi);
                if p != i {
                    assert(prev[p] == buf.data@[p]);
                    if p / wi == py && p % wi == px {
                        let q = p / wi;
                        let r = p % wi;
                        assert(p == i) by (nonlinear_arith)
                            requires
                                p == wi * q + r,
                                q == py,
                                r == px,
                                i == py * wi + px,
                        ;
                    }
                }
            }
            px = px + 1;
        }
        py = py + 1;
    }
    assert forall|p: int| 0 <= p < buf.data.len() implies #[trigger] buf.data@[p] == if covers(
        s,
        wi,
        hi,
        p % wi,
        p / wi,
    ) {
        Some(k)
    } else {
        before[p]
    } by {}
}

/// Rasterizes the sprites into the buffer with the painter's algorithm:
/// the buffer is cleared to the background, then the sprites are painted in
/// the order given (the caller orders them from far to near), so each pixel
/// shows the last sprite whose clipped footprint covers it, or the
/// background where none does.
pub fn rasterize_depth_buffer(buf: &mut DepthBuffer, sprites: &[SpriteRect])
    requires
        old(buf).wf(),
    ensures
        final(buf).wf(),
        final(buf).width == old(buf).width,
        final(buf).height == old(buf).height,
        forall|p: int|
            0 <= p < final(buf).data.len() ==> #[trigger] final(buf).data@[p] == top_sprite(
                sprites@,
                sprites.len() as int,
                final(buf).width as int,
                final(buf).height as int,
                p % (final(buf).width as int),
                p / (final(buf).width as int),
            ),
{
    let ghost w = buf.width as int;
    let ghost h = buf.height as int;
    let n = buf.data.len();
    let mut i: usize = 0;
    while i < n
        invariant
            buf.wf(),
            buf.width == w,
            buf.height == h,
            n == buf.data.len(),
            i <= n,
            forall|j: int| 0 <= j < i ==> #[trigger] buf.data@[j] is None,
        decreases n - i,
    {
        buf.data.set(i, None);
        i = i + 1;
    }
    let mut k: usize = 0;
    while k < sprites.len()
        invariant
            buf.wf(),
            buf.width == w,
            buf.height == h,
            k <= sprites.len(),
            forall|p: int|
                0 <= p < buf.data.len() ==> #[trigger] buf.data@[p] == top_sprite(
                    sprites@,
                    k as int,
                    w,
                    h,
                    p % w,
                    p / w,
                ),
        decreases sprites.len() - k,
    {
        paint_sprite(buf, sprites[k], k);
        k = k + 1;
    }
}

} // verus!
