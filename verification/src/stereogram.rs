//! Single-image random-dot stereogram (SIRDS) generation, after Thimbleby,
//! Inglis and Witten (1994).
//!
//! The depth-dependent part of the algorithm (the stereo separation of each
//! depth sample and the hidden-surface test) works in floating point and is
//! computed by the caller; it reaches this module as one [`EyeSample`] per
//! pixel. This module links the columns that the two eyes must see in the
//! same colour and paints every row so that each linked group of columns
//! carries one colour of the palette.

use rand::rngs::SmallRng;
use rand::Rng;
use vstd::prelude::*;

verus! {

/// The small, fast generator of the `rand` crate; the colours of free
/// pixels are drawn from it.
#[verifier::external_type_specification]
#[verifier::external_body]
pub struct ExSmallRng(SmallRng);

/// What the depth analysis says about one pixel of the depth map.
#[derive(Clone, Copy, Debug)]
pub struct EyeSample {
    /// Stereo separation, in pixels, of the surface seen at this pixel.
    pub sep: i32,
    /// Whether that surface is seen by both eyes (not hidden by a nearer one).
    pub visible: bool,
}

/// One when both the separation and the row index are odd: the left eye
/// column then lies one pixel further left, so that rounding alternates
/// between rows.
pub open spec fn parity_shift(sep: int, y: int) -> int {
    if sep % 2 == 1 && y % 2 == 1 {
        1
    } else {
        0
    }
}

/// The column that the left eye sees for pixel `x` of row `y`.
pub open spec fn left_eye(x: int, y: int, sep: int) -> int {
    x - (sep + parity_shift(sep, y)) / 2
}

/// The pair of columns `(left, right)` that must share a colour because of
/// pixel `x` of row `y`, if any: both columns must lie inside the row and the
/// surface must be visible to both eyes.
pub open spec fn eye_pair(s: EyeSample, x: int, y: int, width: int) -> Option<(int, int)> {
    let l = left_eye(x, y, s.sep as int);
    let r = l + s.sep;
    if l < 0 || r >= width || !s.visible {
        None
    } else {
        Some((l, r))
    }
}

/// A link table of a row: every column points at itself or at a column to
/// its right.
pub open spec fn links_wf(links: Seq<usize>, width: int) -> bool {
    &&& links.len() == width
    &&& forall|i: int| 0 <= i < width ==> i <= #[trigger] links[i] < width
}

/// The column reached from `i` by following links to the right until a
/// column that points at itself.
pub open spec fn root_of(links: Seq<usize>, i: int) -> int
    decreases links.len() - i,
{
    if 0 <= i < links.len() && i < links[i] && links[i] < links.len() {
        root_of(links, links[i] as int)
    } else {
        i
    }
}

/// The root of every column: two columns lie in one linked group exactly
/// when their roots are equal.
pub open spec fn labels_of(links: Seq<usize>) -> Seq<int> {
    Seq::new(links.len(), |i: int| root_of(links, i))
}

/// Joins the groups of columns `a` and `b` of a labelling in which every
/// group is labelled by its largest column: the joined group takes the larger
/// of the two labels.
pub open spec fn merge_labels(lab: Seq<int>, a: int, b: int) -> Seq<int> {
    let la = lab[a];
    let lb = lab[b];
    let m = if la < lb {
        lb
    } else {
        la
    };
    Seq::new(lab.len(), |z: int| if lab[z] == la || lab[z] == lb { m } else { lab[z] })
}

/// The grouping of the columns of row `y` after the constraints of its first
/// `n` pixels: every column starts alone, and each pixel that yields an eye
/// pair joins the groups of the two columns.
pub open spec fn row_labels(row: Seq<EyeSample>, y: int, width: int, n: int) -> Seq<int>
    decreases n,
{
    if n <= 0 {
        Seq::new(width as nat, |i: int| i)
    } else {
        let prev = row_labels(row, y, width, n - 1);
        match eye_pair(row[n - 1], n - 1, y, width) {
            Some((l, r)) => merge_labels(prev, l, r),
            None => prev,
        }
    }
}

/// The eye columns of pixel `x` of row `y` for the given sample.
pub fn eye_columns(sample: EyeSample, x: usize, y: usize, width: usize) -> (r: Option<(usize, usize)>)
    requires
        x < width,
        0 <= sample.sep,
    ensures
        match r {
            Some((l, rr)) => eye_pair(sample, x as int, y as int, width as int) == Some(
                (l as int, rr as int),
            ),
            None => eye_pair(sample, x as int, y as int, width as int) is None,
        },
        !sample.visible ==> r is None,
        r matches Some((l, rr)) ==> {
            &&& sample.visible
            &&& l <= x
            &&& rr == l + sample.sep
            &&& rr < width
            &&& x - l == (sample.sep + if sample.sep % 2 == 1 && y % 2 == 1 {
                1int
            } else {
                0int
            }) / 2
        },
        sample.visible && 2 * x >= sample.sep + 1 && 2 * (width - x) > sample.sep + 1 ==> r is Some,
{
    let sep = sample.sep as u64;
    let shift: u64 = if sample.sep % 2 == 1 && y % 2 == 1 {
        1
    } else {
        0
    };
    let half = (sep + shift) / 2;
    if half > x as u64 {
        return None;
    }
    let left = x - half as usize;
    if sep >= (width - left) as u64 || !sample.visible {
        return None;
    }
    Some((left, left + sep as usize))
}

/// A pixel whose surface one eye cannot see links no columns; otherwise the
/// two columns lie inside the row, `sep` apart, and straddle the pixel with
/// the left one half the separation (rounded per row parity) to its left.
pub proof fn lemma_eye_pair_geometry(s: EyeSample, x: int, y: int, width: int)
    requires
        0 <= x < width,
        0 <= s.sep,
    ensures
        !s.visible ==> eye_pair(s, x, y, width) is None,
        eye_pair(s, x, y, width) matches Some((l, r)) ==> {
            &&& s.visible
            &&& 0 <= l <= x <= r < width
            &&& r == l + s.sep
            &&& x - l == (s.sep + if s.sep % 2 == 1 && y % 2 == 1 {
                1int
            } else {
                0int
            }) / 2
        },
        s.visible && 2 * x >= s.sep + 1 && 2 * (width - x) > s.sep + 1 ==> eye_pair(s, x, y, width) is Some,
{
}

/// Bounds of a root, and the fact that a root points at itself.
proof fn lemma_root_bounds(links: Seq<usize>, w: int, i: int)
    requires
        links_wf(links, w),
        0 <= i < w,
    ensures
        i <= root_of(links, i) < w,
        links[root_of(links, i)] == root_of(links, i),
    decreases w - i,
{
    if i < links[i] {
        lemma_root_bounds(links, w, links[i] as int);
    }
}

/// Pointing root `a` at a column `b` to its right moves the whole group of
/// `a` into the group of `b` and leaves every other group as it was.
proof fn lemma_attach_root(links: Seq<usize>, w: int, a: int, b: int, z: int)
    requires
        links_wf(links, w),
        0 <= a < b < w,
        links[a] == a,
        0 <= z < w,
    ensures
        root_of(links.update(a, b as usize), z) == if root_of(links, z) == a {
            root_of(links, b)
        } else {
            root_of(links, z)
        },
    decreases w - z,
{
    let t = links.update(a, b as usize);
    lemma_root_bounds(links, w, b);
    if z == a {
        lemma_attach_root(links, w, a, b, b);
    } else if z < links[z] {
        lemma_attach_root(links, w, a, b, links[z] as int);
    }
}

/// Joins the linked groups of columns `l` and `r` (`l <= r`).
pub fn link_columns(links: &mut Vec<usize>, l: usize, r: usize)
    requires
        links_wf(old(links)@, old(links).len() as int),
        l <= r < old(links).len(),
    ensures
        final(links).len() == old(links).len(),
        links_wf(final(links)@, final(links).len() as int),
        labels_of(final(links)@) == merge_labels(labels_of(old(links)@), l as int, r as int),
{
    let ghost s = links@;
    let ghost w = links.len() as int;
    let ghost lab = labels_of(s);
    let mut left = l;
    let mut right = r;
    let mut k = links[left];
    while k != left && k != right
        invariant
            links@ == s,
            lab == labels_of(s),
            links_wf(s, w),
            w == links.len(),
            left <= right < w,
            k == s[left as int],
            (lab[left as int] == lab[l as int] && lab[right as int] == lab[r as int]) || (
            lab[left as int] == lab[r as int] && lab[right as int] == lab[l as int]),
        decreases 2 * w - left - right,
    {
        assert(root_of(s, left as int) == root_of(s, k as int));
        assert(lab[k as int] == lab[left as int]);
        if k < right {
            left = k;
        } else {
            left = right;
            right = k;
        }
        k = links[left];
    }
    proof {
        lemma_root_bounds(s, w, right as int);
        lemma_root_bounds(s, w, left as int);
    }
    if k == left && left < right {
        links.set(left, right);
        proof {
            let m = merge_labels(lab, l as int, r as int);
            assert forall|z: int| 0 <= z < w implies #[trigger] labels_of(links@)[z] == m[z] by {
                lemma_attach_root(s, w, left as int, right as int, z);
            }
            assert(labels_of(links@) =~= m);
        }
    } else {
        proof {
            assert(lab[left as int] == lab[right as int]);
            assert(lab =~= merge_labels(lab, l as int, r as int));
        }
    }
}


/// Labellings built by [`row_labels`] have one label per column.
proof fn lemma_row_labels_len(row: Seq<EyeSample>, y: int, width: int, n: int)
    requires
        0 <= width,
        0 <= n <= width,
        row.len() >= n,
        forall|x: int| 0 <= x < n ==> 0 <= #[trigger] row[x].sep,
    ensures
        row_labels(row, y, width, n).len() == width,
    decreases n,
{
    if n > 0 {
        lemma_row_labels_len(row, y, width, n - 1);
    }
}

/// The two columns of an eye pair end up in one group: joining groups later
/// never separates columns that share a group.
pub proof fn lemma_eye_pair_grouped(row: Seq<EyeSample>, y: int, width: int, x: int, n: int)
    requires
        0 <= x < n <= width,
        row.len() >= width,
        forall|i: int| 0 <= i < width ==> 0 <= #[trigger] row[i].sep,
        eye_pair(row[x], x, y, width) is Some,
    ensures
        ({
            let (l, r) = eye_pair(row[x], x, y, width)->0;
            row_labels(row, y, width, n)[l] == row_labels(row, y, width, n)[r]
        }),
    decreases n,
{
    lemma_row_labels_len(row, y, width, n);
    if n > x + 1 {
        lemma_eye_pair_grouped(row, y, width, x, n - 1);
        lemma_row_labels_len(row, y, width, n - 1);
    } else {
        lemma_row_labels_len(row, y, width, x);
    }
}

/// Links the columns of row `y`, whose samples are
/// `samples[start..start + width]`: every pixel whose surface is visible to
/// both eyes, and whose two eye columns lie inside the row, joins the groups
/// of those two columns. The resulting groups are exactly those that
/// [`row_labels`] describes, each led by its largest column.
pub fn link_row(samples: &[EyeSample], start: usize, y: usize, width: usize) -> (links: Vec<usize>)
    requires
        start + width <= samples.len(),
        forall|x: int| 0 <= x < width ==> 0 <= #[trigger] samples@[start + x].sep,
    ensures
        links_wf(links@, width as int),
        labels_of(links@) == row_labels(
            samples@.subrange(start as int, start + width),
            y as int,
            width as int,
            width as int,
        ),
{
    let ghost row = samples@.subrange(start as int, start + width);
    let mut links: Vec<usize> = Vec::new();
    let mut i: usize = 0;
    while i < width
        invariant
            i <= width,
            links@.len() == i,
            forall|j: int| 0 <= j < i ==> links@[j] == j,
        decreases width - i,
    {
        links.push(i);
        i = i + 1;
    }
    assert(labels_of(links@) =~= row_labels(row, y as int, width as int, 0)) by {
        assert forall|j: int| 0 <= j < width implies #[trigger] root_of(links@, j) == j by {}
    }
    let mut x: usize = 0;
    while x < width
        invariant
            x <= width,
            start + width <= samples.len(),
            row == samples@.subrange(start as int, start + width),
            forall|j: int| 0 <= j < width ==> 0 <= #[trigger] samples@[start + j].sep,
            links_wf(links@, width as int),
            labels_of(links@) == row_labels(row, y as int, width as int, x as int),
        decreases width - x,
    {
        let sample = samples[start + x];
        assert(row[x as int] == sample);
        match eye_columns(sample, x, y, width) {
            Some((l, r)) => {
                link_columns(&mut links, l, r);
            },
            None => {},
        }
        x = x + 1;
    }
    links
}

/// Number of colours in the palette.
pub const PALETTE_LEN: usize = 10;

/// The palette that free pixels draw their colour from, as RGBA.
pub open spec fn palette_spec(i: int) -> (u8, u8, u8, u8) {
    if i == 0 {
        (220, 50, 50, 255)
    } else if i == 1 {
        (50, 200, 50, 255)
    } else if i == 2 {
        (50, 50, 220, 255)
    } else if i == 3 {
        (220, 200, 50, 255)
    } else if i == 4 {
        (200, 50, 200, 255)
    } else if i == 5 {
        (50, 200, 200, 255)
    } else if i == 6 {
        (220, 130, 50, 255)
    } else if i == 7 {
        (130, 50, 220, 255)
    } else if i == 8 {
        (220, 220, 220, 255)
    } else {
        (60, 60, 60, 255)
    }
}

/// Colour `i` of the palette.
pub fn palette_color(i: usize) -> (c: (u8, u8, u8, u8))
    requires
        i < PALETTE_LEN,
    ensures
        c == palette_spec(i as int),
{
    if i == 0 {
        (220, 50, 50, 255)
    } else if i == 1 {
        (50, 200, 50, 255)
    } else if i == 2 {
        (50, 50, 220, 255)
    } else if i == 3 {
        (220, 200, 50, 255)
    } else if i == 4 {
        (200, 50, 200, 255)
    } else if i == 5 {
        (50, 200, 200, 255)
    } else if i == 6 {
        (220, 130, 50, 255)
    } else if i == 7 {
        (130, 50, 220, 255)
    } else if i == 8 {
        (220, 220, 220, 255)
    } else {
        (60, 60, 60, 255)
    }
}

/// The four RGBA bytes that start at `base`.
pub open spec fn rgba_at(p: Seq<u8>, base: int) -> (u8, u8, u8, u8) {
    (p[base], p[base + 1], p[base + 2], p[base + 3])
}

/// Paints one row whose first byte is `row_start`, right to left: a column
/// that leads its group takes palette colour `draws[column]`, every other
/// column copies the colour of the column it links to. So every column ends
/// with the colour drawn for the leader of its group; nothing outside the row
/// changes.
pub fn paint_row(pixels: &mut Vec<u8>, row_start: usize, links: &Vec<usize>, draws: &Vec<usize>)
    requires
        links_wf(links@, links.len() as int),
        draws.len() == links.len(),
        forall|i: int| 0 <= i < draws.len() ==> #[trigger] draws@[i] < PALETTE_LEN,
        row_start + 4 * links.len() <= old(pixels).len(),
    ensures
        final(pixels).len() == old(pixels).len(),
        forall|i: int|
            0 <= i < final(pixels).len() && !(row_start <= i < row_start + 4 * links.len())
                ==> #[trigger] final(pixels)@[i] == old(pixels)@[i],
        forall|x: int|
            0 <= x < links.len() ==> rgba_at(final(pixels)@, row_start + 4 * x) == palette_spec(
                draws@[root_of(links@, x)] as int,
            ),
{
    let ghost w = links.len() as int;
    let ghost before = pixels@;
    let mut x = links.len();
    while x > 0
        invariant
            x <= w,
            w == links.len(),
            links_wf(links@, w),
            draws.len() == w,
            forall|i: int| 0 <= i < w ==> #[trigger] draws@[i] < PALETTE_LEN,
            row_start + 4 * w <= pixels.len(),
            pixels.len() == before.len(),
            forall|i: int|
                0 <= i < pixels.len() && !(row_start + 4 * x <= i < row_start + 4 * w)
                    ==> #[trigger] pixels@[i] == before[i],
            forall|z: int|
                x <= z < w ==> rgba_at(pixels@, row_start + 4 * z) == palette_spec(
                    draws@[root_of(links@, z)] as int,
                ),
        decreases x,
    {
        x = x - 1;
        let ghost prev = pixels@;
        let dst = row_start + 4 * x;
        let to = links[x];
        proof {
            lemma_root_bounds(links@, w, x as int);
        }
        if to == x {
            let c = palette_color(draws[x]);
            pixels.set(dst, c.0);
            pixels.set(dst + 1, c.1);
            pixels.set(dst + 2, c.2);
            pixels.set(dst + 3, c.3);
        } else {
            let src = row_start + 4 * to;
            let c0 = pixels[src];
            let c1 = pixels[src + 1];
            let c2 = pixels[src + 2];
            let c3 = pixels[src + 3];
            assert(rgba_at(pixels@, src as int) == palette_spec(
                draws@[root_of(links@, to as int)] as int,
            ));
            pixels.set(dst, c0);
            pixels.set(dst + 1, c1);
            pixels.set(dst + 2, c2);
            pixels.set(dst + 3, c3);
        }
        assert forall|z: int| x <= z < w implies rgba_at(pixels@, row_start + 4 * z)
            == palette_spec(draws@[root_of(links@, z)] as int) by {
            if z > x {
                assert(rgba_at(pixels@, row_start + 4 * z) == rgba_at(prev, row_start + 4 * z));
            }
        }
    }
}


/// `rand::Rng::gen_range(0..n)` on a `SmallRng`. The crate's uniform sampler
/// returns a value inside the half-open range and panics when the range is
/// empty; which value comes back depends on the generator's state and is not
/// stated.
#[verifier::external_body]
fn random_below(rng: &mut SmallRng, n: usize) -> (r: usize)
    requires
        n > 0,
    ensures
        r < n,
{
    rng.gen_range(0..n)
}

/// Draws a palette colour for every column of the row that leads its group,
/// from right to left, one draw per leader; other columns get colour 0, which
/// painting never reads.
pub fn draw_root_colors(links: &Vec<usize>, rng: &mut SmallRng) -> (draws: Vec<usize>)
    ensures
        draws.len() == links.len(),
        forall|i: int| 0 <= i < draws.len() ==> #[trigger] draws@[i] < PALETTE_LEN,
        forall|i: int| 0 <= i < draws.len() && links@[i] != i ==> #[trigger] draws@[i] == 0,
{
    let w = links.len();
    let mut draws: Vec<usize> = Vec::new();
    let mut i: usize = 0;
    while i < w
        invariant
            i <= w,
            draws.len() == i,
            forall|j: int| 0 <= j < i ==> #[trigger] draws@[j] == 0,
        decreases w - i,
    {
        draws.push(0);
        i = i + 1;
    }
    let mut x = w;
    while x > 0
        invariant
            x <= w,
            w == links.len(),
            draws.len() == w,
            forall|j: int| 0 <= j < w ==> #[trigger] draws@[j] < PALETTE_LEN,
            forall|j: int| 0 <= j < w && links@[j] != j ==> #[trigger] draws@[j] == 0,
        decreases x,
    {
        x = x - 1;
        if links[x] == x {
            let c = random_below(rng, PALETTE_LEN);
            draws.set(x, c);
        }
    }
    draws
}

/// The colour is one of the palette's.
pub open spec fn in_palette(c: (u8, u8, u8, u8)) -> bool {
    exists|i: int| 0 <= i < PALETTE_LEN && c == #[trigger] palette_spec(i)
}

/// Byte offset of pixel `(x, y)` in a row-major RGBA image of the given width.
pub open spec fn pixel_offset(width: int, x: int, y: int) -> int {
    4 * (y * width + x)
}

/// The samples of row `y`.
pub open spec fn row_of(samples: Seq<EyeSample>, width: int, y: int) -> Seq<EyeSample> {
    samples.subrange(y * width, y * width + width)
}

/// Row `y` of image `p` is painted from the palette, and columns that the
/// row's eye pairs group together carry one colour.
pub open spec fn row_painted(p: Seq<u8>, samples: Seq<EyeSample>, width: int, y: int) -> bool {
    &&& forall|x: int|
        0 <= x < width ==> in_palette(#[trigger] rgba_at(p, pixel_offset(width, x, y)))
    &&& forall|a: int, b: int|
        #![trigger rgba_at(p, pixel_offset(width, a, y)), rgba_at(p, pixel_offset(width, b, y))]
        0 <= a < width && 0 <= b < width && row_labels(row_of(samples, width, y), y, width, width)[a]
            == row_labels(row_of(samples, width, y), y, width, width)[b] ==> rgba_at(
            p,
            pixel_offset(width, a, y),
        ) == rgba_at(p, pixel_offset(width, b, y))
}

/// A painted row stays painted when no byte of it changes.
proof fn lemma_row_painted_frame(p: Seq<u8>, q: Seq<u8>, samples: Seq<EyeSample>, width: int, y: int)
    requires
        row_painted(p, samples, width, y),
        0 <= y,
        0 <= width,
        forall|i: int| 4 * (y * width) <= i < 4 * (y * width) + 4 * width ==> p[i] == q[i],
    ensures
        row_painted(q, samples, width, y),
{
    assert forall|x: int| 0 <= x < width implies rgba_at(q, pixel_offset(width, x, y)) == rgba_at(
        p,
        pixel_offset(width, x, y),
    ) by {
        assert(p[pixel_offset(width, x, y)] == q[pixel_offset(width, x, y)]);
        assert(p[pixel_offset(width, x, y) + 1] == q[pixel_offset(width, x, y) + 1]);
        assert(p[pixel_offset(width, x, y) + 2] == q[pixel_offset(width, x, y) + 2]);
        assert(p[pixel_offset(width, x, y) + 3] == q[pixel_offset(width, x, y) + 3]);
    }
    assert forall|x: int| 0 <= x < width implies in_palette(
        #[trigger] rgba_at(q, pixel_offset(width, x, y)),
    ) by {
        assert(in_palette(rgba_at(p, pixel_offset(width, x, y))));
    }
}

/// Rows are laid out one after another.
proof fn lemma_row_layout(width: int, y: int, height: int)
    requires
        0 <= width,
        0 <= y < height,
    ensures
        y * width + width <= height * width,
        y * width + width <= width * height,
        0 <= y * width,
{
    assert(height * width == width * height) by (nonlinear_arith);
    assert(y * width + width <= height * width) by (nonlinear_arith)
        requires
            0 <= width,
            0 <= y < height,
    ;
    assert(0 <= y * width) by (nonlinear_arith)
        requires
            0 <= width,
            0 <= y,
    ;
}

/// The samples of a row exist and have non-negative separations.
proof fn lemma_row_seps(samples: Seq<EyeSample>, width: int, height: int, y: int)
    requires
        0 <= width,
        0 <= y < height,
        samples.len() >= width * height,
        forall|i: int| 0 <= i < samples.len() ==> 0 <= #[trigger] samples[i].sep,
    ensures
        row_of(samples, width, y).len() == width,
        forall|i: int| 0 <= i < width ==> 0 <= #[trigger] row_of(samples, width, y)[i].sep,
{
    lemma_row_layout(width, y, height);
    let row = row_of(samples, width, y);
    assert forall|i: int| 0 <= i < width implies 0 <= #[trigger] row[i].sep by {
        assert(row[i] == samples[y * width + i]);
    }
}

/// Generates the stereogram of a `width` x `height` depth map, given as one
/// [`EyeSample`] per pixel in row-major order (samples past the last pixel
/// are not read), as RGBA bytes (four per pixel, row-major). Every pixel takes a palette colour; in each row, the two
/// columns of every eye pair take the same colour, which is what lets the two
/// eyes fuse the image into the depth map's surface. Colours of the groups
/// are drawn from `rng`.
pub fn generate(samples: &[EyeSample], width: usize, height: usize, rng: &mut SmallRng) -> (pixels:
    Vec<u8>)
    requires
        samples.len() >= width * height,
        width * height * 4 <= usize::MAX,
        forall|i: int| 0 <= i < samples.len() ==> 0 <= #[trigger] samples@[i].sep,
    ensures
        pixels.len() == width * height * 4,
        forall|y: int| 0 <= y < height ==> row_painted(pixels@, samples@, width as int, y),
        forall|y: int, x: int|
            #![trigger eye_pair(row_of(samples@, width as int, y)[x], x, y, width as int)]
            0 <= y < height && 0 <= x < width && eye_pair(
                row_of(samples@, width as int, y)[x],
                x,
                y,
                width as int,
            ) is Some ==> {
                let (l, r) = eye_pair(row_of(samples@, width as int, y)[x], x, y, width as int)->0;
                rgba_at(pixels@, pixel_offset(width as int, l, y)) == rgba_at(
                    pixels@,
                    pixel_offset(width as int, r, y),
                )
            },
{
    let n = width * height * 4;
    let mut pixels: Vec<u8> = vec![0u8; n];
    let mut y: usize = 0;
    while y < height
        invariant
            y <= height,
            n == width * height * 4,
            samples.len() >= width * height,
            n <= usize::MAX,
            forall|i: int| 0 <= i < samples.len() ==> 0 <= #[trigger] samples@[i].sep,
            pixels.len() == n,
            forall|yy: int| 0 <= yy < y ==> row_painted(pixels@, samples@, width as int, yy),
        decreases height - y,
    {
        proof {
            lemma_row_layout(width as int, y as int, height as int);
        }
        let start = y * width;
        assert forall|x: int| 0 <= x < width implies 0 <= #[trigger] samples@[start + x].sep by {
            assert(0 <= start + x < samples.len());
        }
        let links = link_row(samples, start, y, width);
        let draws = draw_root_colors(&links, rng);
        let row_start = start * 4;
        let ghost before = pixels@;
        paint_row(&mut pixels, row_start, &links, &draws);
        proof {
            let wi = width as int;
            let yi = y as int;
            let lab = row_labels(row_of(samples@, wi, yi), yi, wi, wi);
            assert(row_of(samples@, wi, yi) == samples@.subrange(start as int, start + width));
            assert forall|x: int| 0 <= x < wi implies pixel_offset(wi, x, yi) == row_start + 4 * x by {}
            assert forall|x: int| 0 <= x < wi implies in_palette(
                #[trigger] rgba_at(pixels@, pixel_offset(wi, x, yi)),
            ) by {
                lemma_root_bounds(links@, wi, x);
                let c = draws@[root_of(links@, x)] as int;
                assert(rgba_at(pixels@, pixel_offset(wi, x, yi)) == palette_spec(c));
            }
            assert forall|a: int, b: int|
                0 <= a < wi && 0 <= b < wi && lab[a] == lab[b] implies rgba_at(
                pixels@,
                pixel_offset(wi, a, yi),
            ) == rgba_at(pixels@, pixel_offset(wi, b, yi)) by {
                assert(labels_of(links@)[a] == root_of(links@, a));
                assert(labels_of(links@)[b] == root_of(links@, b));
            }
            assert(row_painted(pixels@, samples@, wi, yi));
            assert forall|yy: int| 0 <= yy < y implies row_painted(pixels@, samples@, wi, yy) by {
                lemma_row_layout(wi, yy, yi);
                lemma_row_painted_frame(before, pixels@, samples@, wi, yy);
            }
        }
        y = y + 1;
    }
    proof {
        let wi = width as int;
        assert forall|yy: int, x: int|
            0 <= yy < height && 0 <= x < width && eye_pair(row_of(samples@, wi, yy)[x], x, yy, wi)
                is Some implies {
            let (l, r) = eye_pair(row_of(samples@, wi, yy)[x], x, yy, wi)->0;
            rgba_at(pixels@, pixel_offset(wi, l, yy)) == rgba_at(pixels@, pixel_offset(wi, r, yy))
        } by {
            let row = row_of(samples@, wi, yy);
            lemma_row_seps(samples@, wi, height as int, yy);
            lemma_eye_pair_grouped(row, yy, wi, x, wi);
            assert(row_painted(pixels@, samples@, wi, yy));
        }
    }
    pixels
}

} // verus!
