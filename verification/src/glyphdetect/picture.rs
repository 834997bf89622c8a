//! The pixel grid: a row-major buffer of colors with a width and a height,
//! with sub-region extraction and 90-degree rotation.

use vstd::prelude::*;

use crate::glyphdetect::color::Color;
use crate::glyphdetect::point::{
    get_index, lemma_index_in_range, lemma_index_injective, spec_index_of, BoundingBox, Point,
};

verus! {

/// The color at column `a`, row `b` of a row-major buffer of width `w`.
pub open spec fn cell(v: Seq<Color>, w: int, a: int, b: int) -> Color {
    v[b * w + a]
}

/// A row-major pixel grid.
#[derive(Clone, Debug)]
pub struct Picture {
    pub pixels: Vec<Color>,
    pub width: i32,
    pub height: i32,
}

impl Picture {
    /// A picture is well formed when its buffer holds exactly width times
    /// height pixels and that product leaves room for row-major index
    /// arithmetic in `i32` and for the states of a machine built from it.
    pub open spec fn wf(self) -> bool {
        &&& 0 <= self.width
        &&& 0 <= self.height
        &&& self.pixels@.len() == self.width as int * self.height as int
        &&& self.width as int * self.height as int <= i32::MAX
        &&& 8 + 4 * (self.width as int * self.height as int) <= usize::MAX
    }

    /// The point lies on the grid.
    pub open spec fn in_bounds(self, p: Point) -> bool {
        &&& 0 <= p.x < self.width
        &&& 0 <= p.y < self.height
    }

    /// The color at a point of the grid.
    pub open spec fn pix(self, p: Point) -> Color {
        self.pixels@[spec_index_of(p, self.width as int)]
    }

    /// The color at column `a`, row `b` of the grid.
    pub open spec fn pix_xy(self, a: int, b: int) -> Color {
        cell(self.pixels@, self.width as int, a, b)
    }

    /// Reads the pixel at a point.
    pub fn get(&self, p: Point) -> (c: Color)
        requires
            self.wf(),
            self.in_bounds(p),
        ensures
            c == self.pix(p),
            c == self.pix_xy(p.x as int, p.y as int),
    {
        proof {
            lemma_index_in_range(p, self.width as int, self.height as int);
        }
        let i = get_index(p, self.width);
        self.pixels[i]
    }

    /// Overwrites the pixel at a point.
    pub fn set(&mut self, p: Point, c: Color)
        requires
            old(self).wf(),
            old(self).in_bounds(p),
        ensures
            final(self).wf(),
            final(self).width == old(self).width,
            final(self).height == old(self).height,
            final(self).pixels@ == old(self).pixels@.update(
                spec_index_of(p, old(self).width as int),
                c,
            ),
            final(self).pix(p) == c,
    {
        proof {
            lemma_index_in_range(p, self.width as int, self.height as int);
        }
        let i = get_index(p, self.width);
        self.pixels[i] = c;
    }

    /// Returns a copy of this picture with the same dimensions and pixels.
    pub fn duplicate(&self) -> (r: Picture)
        ensures
            r.pixels@ == self.pixels@,
            r.width == self.width,
            r.height == self.height,
    {
        Picture { pixels: copy_vec(&self.pixels), width: self.width, height: self.height }
    }
}

/// Packs a decoded image's raw bytes into a pixel grid: three bytes per
/// pixel, red then green then blue, in row-major order.
pub fn pack_rgb(data: &Vec<u8>, width: i32, height: i32) -> (p: Picture)
    requires
        0 <= width,
        0 <= height,
        width as int * height as int <= i32::MAX,
        8 + 4 * (width as int * height as int) <= usize::MAX,
        data@.len() >= 3 * (width as int * height as int),
    ensures
        p.wf(),
        p.width == width,
        p.height == height,
        forall|t: int|
            0 <= t < width as int * height as int ==> #[trigger] p.pixels@[t] == (Color {
                r: data@[3 * t],
                g: data@[3 * t + 1],
                b: data@[3 * t + 2],
            }),
{
    let total = (width * height) as usize;
    let mut pixels: Vec<Color> = Vec::new();
    let mut c: usize = 0;
    while c < total
        invariant
            total == width as int * height as int,
            data@.len() >= 3 * total,
            c <= total,
            pixels@.len() == c,
            forall|t: int|
                0 <= t < c ==> #[trigger] pixels@[t] == (Color {
                    r: data@[3 * t],
                    g: data@[3 * t + 1],
                    b: data@[3 * t + 2],
                }),
        decreases total - c,
    {
        proof {
            vstd::std_specs::vec::axiom_spec_len(data);
            assert(3 * (c as int) + 2 < 3 * (total as int));
            assert(3 * (total as int) <= data@.len());
        }
        let c3 = c * 3;
        pixels.push(Color { r: data[c3], g: data[c3 + 1], b: data[c3 + 2] });
        c += 1;
    }
    Picture { pixels, width, height }
}

/// Returns a fresh vector with the same elements as the given one.
pub fn copy_vec<T: Copy>(v: &Vec<T>) -> (out: Vec<T>)
    ensures
        out@ == v@,
{
    let mut out: Vec<T> = Vec::new();
    let mut i: usize = 0;
    while i < v.len()
        invariant
            i <= v@.len(),
            out@ == v@.subrange(0, i as int),
        decreases v@.len() - i,
    {
        out.push(v[i]);
        proof {
            assert(out@ =~= v@.subrange(0, i as int + 1));
        }
        i += 1;
    }
    proof {
        assert(out@ =~= v@);
    }
    out
}

/// Returns the sub-region of a picture spanned by the bounds, both corners
/// inclusive, read in row-major order. The pixels keep their colors; their
/// coordinates shift so that the upper-left bound becomes the origin.
pub fn subpicture(pic: &Picture, bounds: BoundingBox) -> (r: Picture)
    requires
        pic.wf(),
        0 <= bounds.u_left.x <= bounds.l_right.x < pic.width,
        0 <= bounds.u_left.y <= bounds.l_right.y < pic.height,
    ensures
        r.wf(),
        r.width == bounds.l_right.x - bounds.u_left.x + 1,
        r.height == bounds.l_right.y - bounds.u_left.y + 1,
        forall|a: int, b: int|
            0 <= a < r.width && 0 <= b < r.height ==> #[trigger] r.pix_xy(a, b) == pic.pix_xy(
                bounds.u_left.x + a,
                bounds.u_left.y + b,
            ),
{
    let w: i32 = bounds.l_right.x - bounds.u_left.x + 1;
    let h: i32 = bounds.l_right.y - bounds.u_left.y + 1;
    proof {
        lemma_mul_le(w as int, pic.width as int, h as int, pic.height as int);
    }
    let mut vec: Vec<Color> = Vec::new();
    let mut j: i32 = bounds.u_left.y;
    while j <= bounds.l_right.y
        invariant
            pic.wf(),
            0 <= bounds.u_left.x <= bounds.l_right.x < pic.width,
            0 <= bounds.u_left.y <= bounds.l_right.y < pic.height,
            w == bounds.l_right.x - bounds.u_left.x + 1,
            h == bounds.l_right.y - bounds.u_left.y + 1,
            bounds.u_left.y <= j <= bounds.l_right.y + 1,
            vec@.len() == (j - bounds.u_left.y) * w,
            forall|a: int, b: int|
                0 <= a < w && 0 <= b < j - bounds.u_left.y ==> #[trigger] cell(vec@, w as int, a, b)
                    == pic.pix_xy(bounds.u_left.x + a, bounds.u_left.y + b),
        decreases bounds.l_right.y + 1 - j,
    {
        let ghost rows_done: int = j - bounds.u_left.y;
        let mut i: i32 = bounds.u_left.x;
        while i <= bounds.l_right.x
            invariant
                pic.wf(),
                0 <= bounds.u_left.x <= bounds.l_right.x < pic.width,
                0 <= bounds.u_left.y <= bounds.l_right.y < pic.height,
                w == bounds.l_right.x - bounds.u_left.x + 1,
                h == bounds.l_right.y - bounds.u_left.y + 1,
                bounds.u_left.y <= j <= bounds.l_right.y,
                rows_done == j - bounds.u_left.y,
                bounds.u_left.x <= i <= bounds.l_right.x + 1,
                vec@.len() == rows_done * w + (i - bounds.u_left.x),
                forall|a: int, b: int|
                    0 <= a < w && 0 <= b < rows_done ==> #[trigger] cell(vec@, w as int, a, b)
                        == pic.pix_xy(bounds.u_left.x + a, bounds.u_left.y + b),
                forall|a: int|
                    0 <= a < i - bounds.u_left.x ==> #[trigger] cell(vec@, w as int, a, rows_done)
                        == pic.pix_xy(bounds.u_left.x + a, j as int),
            decreases bounds.l_right.x + 1 - i,
        {
            proof {
                lemma_row_index_bound(rows_done, i - bounds.u_left.x, w as int, h as int);
            }
            let ghost oldvec = vec@;
            vec.push(pic.get(Point { x: i, y: j }));
            proof {
                assert forall|a: int, b: int| 0 <= a < w && 0 <= b < rows_done implies #[trigger]
                    cell(vec@, w as int, a, b) == pic.pix_xy(
                    bounds.u_left.x + a,
                    bounds.u_left.y + b,
                ) by {
                    lemma_row_index_lt(b, a, rows_done, w as int);
                    assert(cell(vec@, w as int, a, b) == cell(oldvec, w as int, a, b));
                }
                assert forall|a: int| 0 <= a < i + 1 - bounds.u_left.x implies #[trigger] cell(
                    vec@,
                    w as int,
                    a,
                    rows_done,
                ) == pic.pix_xy(bounds.u_left.x + a, j as int) by {
                    lemma_row_index_bound(rows_done, a, w as int, h as int);
                    if a < i - bounds.u_left.x {
                        assert(cell(vec@, w as int, a, rows_done) == cell(
                            oldvec,
                            w as int,
                            a,
                            rows_done,
                        ));
                    } else {
                        assert(rows_done * w + a == oldvec.len());
                    }
                }
            }
            i = i + 1;
        }
        proof {
            assert((rows_done + 1) * w == rows_done * w + w) by (nonlinear_arith);
        }
        j = j + 1;
    }
    let r = Picture { pixels: vec, width: w, height: h };
    proof {
        assert(vec@.len() == h as int * w as int) by (nonlinear_arith)
            requires
                vec@.len() == (bounds.l_right.y + 1 - bounds.u_left.y) * (w as int),
                h == bounds.l_right.y + 1 - bounds.u_left.y,
        ;
        assert(w as int * h as int == h as int * w as int) by (nonlinear_arith);
        lemma_mul_le(w as int, pic.width as int, h as int, pic.height as int);
    }
    r
}

/// Products of component-wise smaller nonnegative factors are no larger.
proof fn lemma_mul_le(a: int, b: int, c: int, d: int)
    by (nonlinear_arith)
    requires
        0 <= a <= b,
        0 <= c <= d,
    ensures
        a * c <= b * d,
{
}

/// A row-major index built from an in-range row and column is in range.
proof fn lemma_row_index_bound(row: int, col: int, w: int, h: int)
    by (nonlinear_arith)
    requires
        0 <= row < h,
        0 <= col < w,
    ensures
        0 <= row * w + col < w * h,
        row * w + col < h * w,
{
}

/// Row-major indices from earlier rows stay below the current row's offset.
proof fn lemma_row_index_lt(b: int, a: int, rows_done: int, w: int)
    by (nonlinear_arith)
    requires
        0 <= a < w,
        0 <= b < rows_done,
    ensures
        0 <= b * w + a < rows_done * w,
{
}

/// Rotates a picture by 90 degrees: the pixel at (x, y) of the source lands
/// at (y, width - 1 - x) of the result, whose dimensions are swapped.
pub fn rotate(pic: Picture) -> (r: Picture)
    requires
        pic.wf(),
    ensures
        r.wf(),
        r.width == pic.height,
        r.height == pic.width,
        forall|a: int, b: int|
            0 <= a < pic.height && 0 <= b < pic.width ==> #[trigger] r.pix_xy(a, b) == pic.pix_xy(
                pic.width - 1 - b,
                a,
            ),
{
    let n: i32 = pic.width;
    let m: i32 = pic.height;
    let mut vec: Vec<Color> = Vec::new();
    let total: usize = pic.pixels.len();
    let mut k: usize = 0;
    while k < total
        invariant
            total == pic.pixels@.len(),
            k <= total,
            vec@.len() == k,
        decreases total - k,
    {
        vec.push(Color::white());
        k += 1;
    }
    let mut new_picture = Picture { pixels: vec, width: m, height: n };
    proof {
        assert(m as int * n as int == n as int * m as int) by (nonlinear_arith);
    }
    let mut i: i32 = 0;
    while i < n
        invariant
            pic.wf(),
            n == pic.width,
            m == pic.height,
            0 <= i <= n,
            new_picture.wf(),
            new_picture.width == m,
            new_picture.height == n,
            forall|i0: int, j0: int|
                0 <= i0 < i && 0 <= j0 < m ==> new_picture.pix_xy(j0, n - 1 - i0) == #[trigger]
                    pic.pix_xy(i0, j0),
        decreases n - i,
    {
        let mut j: i32 = 0;
        while j < m
            invariant
                pic.wf(),
                n == pic.width,
                m == pic.height,
                0 <= i < n,
                0 <= j <= m,
                new_picture.wf(),
                new_picture.width == m,
                new_picture.height == n,
                forall|i0: int, j0: int|
                    0 <= i0 < i && 0 <= j0 < m ==> new_picture.pix_xy(j0, n - 1 - i0) == #[trigger]
                        pic.pix_xy(i0, j0),
                forall|j0: int|
                    0 <= j0 < j ==> new_picture.pix_xy(j0, n - 1 - i) == #[trigger] pic.pix_xy(
                        i as int,
                        j0,
                    ),
            decreases m - j,
        {
            let v = pic.get(Point { x: i, y: j });
            let target = Point { x: j, y: n - 1 - i };
            let ghost prev = new_picture;
            new_picture.set(target, v);
            proof {
                lemma_index_in_range(target, m as int, n as int);
                assert(new_picture.pix_xy(j as int, n - 1 - i) == v);
                assert forall|i0: int, j0: int| 0 <= i0 < i && 0 <= j0 < m implies
                    new_picture.pix_xy(j0, n - 1 - i0) == #[trigger] pic.pix_xy(i0, j0) by {
                    let q = Point { x: j0 as i32, y: (n - 1 - i0) as i32 };
                    lemma_index_in_range(q, m as int, n as int);
                    if spec_index_of(q, m as int) == spec_index_of(target, m as int) {
                        lemma_index_injective(q, target, m as int);
                    }
                    assert(new_picture.pix_xy(j0, n - 1 - i0) == prev.pix_xy(j0, n - 1 - i0));
                }
                assert forall|j0: int| 0 <= j0 < j + 1 implies new_picture.pix_xy(j0, n - 1 - i)
                    == #[trigger] pic.pix_xy(i as int, j0) by {
                    if j0 < j {
                        let q = Point { x: j0 as i32, y: (n - 1 - i) as i32 };
                        lemma_index_in_range(q, m as int, n as int);
                        if spec_index_of(q, m as int) == spec_index_of(target, m as int) {
                            lemma_index_injective(q, target, m as int);
                        }
                        assert(new_picture.pix_xy(j0, n - 1 - i) == prev.pix_xy(j0, n - 1 - i));
                    }
                }
            }
            j = j + 1;
        }
        i = i + 1;
    }
    proof {
        assert forall|a: int, b: int| 0 <= a < m && 0 <= b < n implies #[trigger]
            new_picture.pix_xy(a, b) == pic.pix_xy(n - 1 - b, a) by {
            let i0 = n - 1 - b;
            let j0 = a;
            assert(new_picture.pix_xy(j0, n - 1 - i0) == pic.pix_xy(i0, j0));
        }
    }
    new_picture
}

} // verus!
