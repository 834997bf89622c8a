//! Connected-component extraction: an 8-connected flood fill over the pixels
//! the color ledger deems relevant, producing glyphs with bounding boxes.

use vstd::prelude::*;

use crate::glyphdetect::color::{Color, ColorLedger};
use crate::glyphdetect::picture::Picture;
use crate::glyphdetect::point::{
    adj8, get_index, get_pos, lemma_index_in_range, lemma_index_injective,
    lemma_surrounding_complete, spec_index_of, spec_surrounding, surrounding, BoundingBox, Point,
};

verus! {

/// A maximal 8-connected group of same-colored relevant pixels, together
/// with its inclusive bounding box.
#[derive(Clone, Debug)]
pub struct Glyph {
    pub color: Color,
    pub pixels: Vec<(Point, Color)>,
    pub b: BoundingBox,
}

impl Glyph {
    /// An empty black glyph at the origin.
    pub fn zero() -> (g: Self)
        ensures
            g.pixels@.len() == 0,
            g.color == (Color { r: 0, g: 0, b: 0 }),
            g.b == (BoundingBox {
                u_left: Point { x: 0, y: 0 },
                l_right: Point { x: 0, y: 0 },
            }),
    {
        Glyph {
            color: Color { r: 0, g: 0, b: 0 },
            pixels: Vec::new(),
            b: BoundingBox { u_left: Point { x: 0, y: 0 }, l_right: Point { x: 0, y: 0 } },
        }
    }

    /// Returns a copy of this glyph with the same members, color, and box.
    pub fn duplicate(&self) -> (g: Glyph)
        ensures
            g.pixels@ == self.pixels@,
            g.color == self.color,
            g.b == self.b,
    {
        Glyph {
            color: self.color,
            pixels: crate::glyphdetect::picture::copy_vec(&self.pixels),
            b: self.b,
        }
    }
}

/// The number of `false` entries of a boolean sequence.
pub open spec fn count_false(s: Seq<bool>) -> nat
    decreases s.len(),
{
    if s.len() == 0 {
        0
    } else {
        count_false(s.drop_last()) + if s.last() {
            0nat
        } else {
            1nat
        }
    }
}

/// Setting one `false` entry to `true` lowers the count of `false` entries by one.
pub proof fn lemma_count_false_update(s: Seq<bool>, i: int)
    requires
        0 <= i < s.len(),
        !s[i],
    ensures
        count_false(s.update(i, true)) + 1 == count_false(s),
    decreases s.len(),
{
    let t = s.update(i, true);
    if i == s.len() - 1 {
        assert(t.drop_last() =~= s.drop_last());
    } else {
        assert(t.drop_last() =~= s.drop_last().update(i, true));
        lemma_count_false_update(s.drop_last(), i);
    }
}

/// A pointwise-larger boolean sequence has no more `false` entries.
pub proof fn lemma_count_false_mono(s1: Seq<bool>, s2: Seq<bool>)
    requires
        s1.len() == s2.len(),
        forall|t: int| 0 <= t < s1.len() ==> s1[t] ==> s2[t],
    ensures
        count_false(s2) <= count_false(s1),
    decreases s1.len(),
{
    if s1.len() > 0 {
        lemma_count_false_mono(s1.drop_last(), s2.drop_last());
    }
}

/// A sequence has at most as many `false` entries as its length.
pub proof fn lemma_count_false_le(s: Seq<bool>)
    ensures
        count_false(s) <= s.len(),
    decreases s.len(),
{
    if s.len() > 0 {
        lemma_count_false_le(s.drop_last());
    }
}

/// The entry of a visited bitmap at a point of a grid of width `w`.
pub open spec fn vis(v: Seq<bool>, w: int, q: Point) -> bool {
    v[spec_index_of(q, w)]
}

/// The point one neighbor offset away from `a`.
pub open spec fn padd(a: Point, d: Point) -> Point {
    Point { x: (a.x + d.x) as i32, y: (a.y + d.y) as i32 }
}

/// `path` walks through in-bounds pixels of color `c`, each step 8-adjacent.
pub open spec fn is_path(pic: Picture, c: Color, path: Seq<Point>) -> bool {
    &&& path.len() >= 1
    &&& forall|k: int|
        0 <= k < path.len() ==> pic.in_bounds(#[trigger] path[k]) && pic.pix(path[k]) == c
    &&& forall|k: int| 0 <= k < path.len() - 1 ==> adj8(#[trigger] path[k], path[k + 1])
}

/// `b` can be reached from `a` through 8-adjacent in-bounds pixels of color `c`.
pub open spec fn reach(pic: Picture, c: Color, a: Point, b: Point) -> bool {
    exists|path: Seq<Point>| is_path(pic, c, path) && path.first() == a && path.last() == b
}

/// Reachability is symmetric.
pub proof fn lemma_reach_sym(pic: Picture, c: Color, a: Point, b: Point)
    requires
        reach(pic, c, a, b),
    ensures
        reach(pic, c, b, a),
{
    let path = choose|path: Seq<Point>|
        is_path(pic, c, path) && path.first() == a && path.last() == b;
    let n = path.len() as int;
    let rev = Seq::new(path.len(), |i: int| path[n - 1 - i]);
    assert forall|k: int| 0 <= k < rev.len() - 1 implies adj8(#[trigger] rev[k], rev[k + 1]) by {
        let j = n - 2 - k;
        assert(adj8(path[j], path[j + 1]));
    }
    assert(is_path(pic, c, rev) && rev.first() == b && rev.last() == a);
}

/// Reachability is transitive.
pub proof fn lemma_reach_trans(pic: Picture, c: Color, a: Point, b: Point, q: Point)
    requires
        reach(pic, c, a, b),
        reach(pic, c, b, q),
    ensures
        reach(pic, c, a, q),
{
    let p1 = choose|path: Seq<Point>|
        is_path(pic, c, path) && path.first() == a && path.last() == b;
    let p2 = choose|path: Seq<Point>|
        is_path(pic, c, path) && path.first() == b && path.last() == q;
    let cat = p1 + p2.subrange(1, p2.len() as int);
    assert forall|k: int| 0 <= k < cat.len() implies pic.in_bounds(#[trigger] cat[k]) && pic.pix(
        cat[k],
    ) == c by {
        if k < p1.len() {
            assert(cat[k] == p1[k]);
        } else {
            assert(cat[k] == p2[k - p1.len() + 1]);
        }
    }
    assert forall|k: int| 0 <= k < cat.len() - 1 implies adj8(#[trigger] cat[k], cat[k + 1]) by {
        if k + 1 < p1.len() {
            assert(cat[k] == p1[k] && cat[k + 1] == p1[k + 1]);
            assert(adj8(p1[k], p1[k + 1]));
        } else if k + 1 == p1.len() {
            assert(cat[k] == p1[k] && p1[k] == p2[0]);
            assert(cat[k + 1] == p2[1]);
            assert(adj8(p2[0], p2[1]));
        } else {
            let j = k - p1.len() + 1;
            assert(cat[k] == p2[j] && cat[k + 1] == p2[j + 1]);
            assert(adj8(p2[j], p2[j + 1]));
        }
    }
    assert(cat.first() == a && cat.last() == q);
    assert(is_path(pic, c, cat));
}

/// `path` walks through in-bounds pixels of color `c`, each unvisited in `v0`.
pub open spec fn is_path_unvisited(
    pic: Picture,
    c: Color,
    v0: Seq<bool>,
    path: Seq<Point>,
) -> bool {
    &&& is_path(pic, c, path)
    &&& forall|k: int| 0 <= k < path.len() ==> !vis(v0, pic.width as int, #[trigger] path[k])
}

/// `b` can be reached from `a` through 8-adjacent in-bounds pixels of color
/// `c`, none of them marked in `v0`.
pub open spec fn reach_unvisited(pic: Picture, c: Color, v0: Seq<bool>, a: Point, b: Point) -> bool {
    exists|path: Seq<Point>|
        is_path_unvisited(pic, c, v0, path) && path.first() == a && path.last() == b
}

/// An unvisited same-colored pixel reaches itself without marked pixels.
pub proof fn lemma_reach_unvisited_refl(pic: Picture, c: Color, v0: Seq<bool>, a: Point)
    requires
        pic.in_bounds(a),
        pic.pix(a) == c,
        !vis(v0, pic.width as int, a),
    ensures
        reach_unvisited(pic, c, v0, a, a),
{
    let path = seq![a];
    assert(is_path_unvisited(pic, c, v0, path) && path.first() == a && path.last() == a);
}

/// Unvisited reachability extends across one adjacent unvisited pixel.
pub proof fn lemma_reach_unvisited_step(
    pic: Picture,
    c: Color,
    v0: Seq<bool>,
    a: Point,
    b: Point,
    q: Point,
)
    requires
        reach_unvisited(pic, c, v0, a, b),
        adj8(b, q),
        pic.in_bounds(q),
        pic.pix(q) == c,
        !vis(v0, pic.width as int, q),
    ensures
        reach_unvisited(pic, c, v0, a, q),
{
    let path = choose|path: Seq<Point>|
        is_path_unvisited(pic, c, v0, path) && path.first() == a && path.last() == b;
    let path2 = path.push(q);
    assert forall|k: int| 0 <= k < path2.len() - 1 implies adj8(#[trigger] path2[k], path2[k + 1]) by {
        if k < path.len() - 1 {
            assert(adj8(path[k], path[k + 1]));
        }
    }
    assert(is_path_unvisited(pic, c, v0, path2) && path2.first() == a && path2.last() == q);
}

/// Every pixel an unvisited same-colored chain reaches from the seed belongs
/// to a collection that contains the seed, is closed under expansion into
/// newly marked pixels, and covers all newly marked pixels.
proof fn lemma_unvisited_chain_covered(
    pic: Picture,
    c: Color,
    v0: Seq<bool>,
    vf: Seq<bool>,
    found: Seq<(Point, Color)>,
    seed: Point,
    path: Seq<Point>,
)
    requires
        pic.wf(),
        v0.len() == pic.pixels@.len(),
        vf.len() == v0.len(),
        is_path_unvisited(pic, c, v0, path),
        path.first() == seed,
        exists|k: int| 0 <= k < found.len() && (#[trigger] found[k]).0 == seed,
        forall|k: int|
            0 <= k < found.len() ==> expanded(pic, c, vf, (#[trigger] found[k]).0),
        forall|q: Point|
            pic.in_bounds(q) && vis(vf, pic.width as int, q) && !vis(v0, pic.width as int, q)
                ==> exists|k: int| 0 <= k < found.len() && (#[trigger] found[k]).0 == q,
    ensures
        exists|k: int| 0 <= k < found.len() && (#[trigger] found[k]).0 == path.last(),
    decreases path.len(),
{
    if path.len() > 1 {
        let pre = path.drop_last();
        assert(is_path_unvisited(pic, c, v0, pre)) by {
            assert forall|k: int| 0 <= k < pre.len() - 1 implies adj8(
                #[trigger] pre[k],
                pre[k + 1],
            ) by {
                assert(adj8(path[k], path[k + 1]));
            }
        }
        lemma_unvisited_chain_covered(pic, c, v0, vf, found, seed, pre);
        let prev = pre.last();
        let q = path.last();
        let kp = choose|k: int| 0 <= k < found.len() && (#[trigger] found[k]).0 == prev;
        assert(adj8(path[path.len() - 2], path[path.len() - 1]));
        assert(expanded(pic, c, vf, prev));
        assert(vis(vf, pic.width as int, q));
    }
}

/// All in-bounds neighbors of `m` carrying color `c` are marked in `v`.
pub open spec fn expanded(pic: Picture, c: Color, v: Seq<bool>, m: Point) -> bool {
    forall|q: Point|
        pic.in_bounds(q) && pic.pix(q) == c && adj8(m, q) ==> #[trigger] vis(
            v,
            pic.width as int,
            q,
        )
}

/// Grows a glyph from a seed pixel: collects the whole 8-connected group of
/// pixels that share the seed's color, marking each collected pixel in the
/// visited bitmap. The glyph's color and box are left for the caller to fill.
pub fn flood_fill(pic: &Picture, glyph: Glyph, visited: &mut Vec<bool>, pixel: Point) -> (out:
    Glyph)
    requires
        pic.wf(),
        pic.in_bounds(pixel),
        old(visited)@.len() == pic.pixels@.len(),
        !vis(old(visited)@, pic.width as int, pixel),
    ensures
        final(visited)@.len() == old(visited)@.len(),
        forall|t: int| 0 <= t < old(visited)@.len() ==> old(visited)@[t] ==> final(visited)@[t],
        out.color == glyph.color,
        out.b == glyph.b,
        out.pixels@.len() > glyph.pixels@.len(),
        forall|k: int| 0 <= k < glyph.pixels@.len() ==> out.pixels@[k] == glyph.pixels@[k],
        out.pixels@[glyph.pixels@.len() as int].0 == pixel,
        forall|k: int|
            glyph.pixels@.len() <= k < out.pixels@.len() ==> {
                let m = (#[trigger] out.pixels@[k]).0;
                &&& pic.in_bounds(m)
                &&& pic.pix(m) == pic.pix(pixel)
                &&& out.pixels@[k].1 == pic.pix(pixel)
                &&& !vis(old(visited)@, pic.width as int, m)
                &&& vis(final(visited)@, pic.width as int, m)
                &&& reach_unvisited(*pic, pic.pix(pixel), old(visited)@, pixel, m)
            },
        forall|k: int, l: int|
            glyph.pixels@.len() <= k < l < out.pixels@.len() ==> (#[trigger] out.pixels@[k]).0 != (
            #[trigger] out.pixels@[l]).0,
        forall|q: Point|
            pic.in_bounds(q) && vis(final(visited)@, pic.width as int, q) && !vis(
                old(visited)@,
                pic.width as int,
                q,
            ) ==> exists|k: int|
                glyph.pixels@.len() <= k < out.pixels@.len() && (#[trigger] out.pixels@[k]).0 == q,
        forall|k: int|
            glyph.pixels@.len() <= k < out.pixels@.len() ==> expanded(
                *pic,
                pic.pix(pixel),
                final(visited)@,
                (#[trigger] out.pixels@[k]).0,
            ),
        forall|q: Point|
            reach_unvisited(*pic, pic.pix(pixel), old(visited)@, pixel, q) ==> exists|k: int|
                glyph.pixels@.len() <= k < out.pixels@.len() && (#[trigger] out.pixels@[k]).0 == q,
{
    let w = pic.width;
    let ghost ww = pic.width as int;
    let ghost v0 = visited@;
    let selected_color = pic.get(pixel);
    let mut g = Glyph { color: glyph.color, pixels: Vec::new(), b: glyph.b };
    proof {
        lemma_index_in_range(pixel, ww, pic.height as int);
    }
    let seed_index = get_index(pixel, w);
    visited[seed_index] = true;
    g.pixels.push((pixel, selected_color));
    let mut queue: Vec<Point> = Vec::new();
    queue.push(pixel);
    proof {
        lemma_reach_unvisited_refl(*pic, selected_color, v0, pixel);
        lemma_count_false_update(v0, spec_index_of(pixel, ww));
        assert(queue@[0] == pixel);
        assert(queue@.contains(pixel));
        assert forall|q: Point|
            pic.in_bounds(q) && vis(visited@, ww, q) && !vis(v0, ww, q) implies exists|k: int|
            0 <= k < g.pixels@.len() && (#[trigger] g.pixels@[k]).0 == q by {
            lemma_index_in_range(q, ww, pic.height as int);
            lemma_index_injective(q, pixel, ww);
            assert(g.pixels@[0].0 == q);
        }
    }
    while queue.len() > 0
        invariant
            pic.wf(),
            pic.in_bounds(pixel),
            w == pic.width,
            ww == pic.width as int,
            selected_color == pic.pix(pixel),
            visited@.len() == v0.len(),
            v0.len() == pic.pixels@.len(),
            !vis(v0, ww, pixel),
            g.color == glyph.color,
            g.b == glyph.b,
            g.pixels@.len() >= 1,
            g.pixels@[0].0 == pixel,
            forall|t: int| 0 <= t < v0.len() ==> v0[t] ==> visited@[t],
            forall|k: int|
                0 <= k < g.pixels@.len() ==> {
                    let m = (#[trigger] g.pixels@[k]).0;
                    &&& pic.in_bounds(m)
                    &&& pic.pix(m) == selected_color
                    &&& g.pixels@[k].1 == selected_color
                    &&& !vis(v0, ww, m)
                    &&& vis(visited@, ww, m)
                    &&& reach_unvisited(*pic, selected_color, v0, pixel, m)
                },
            forall|k: int, l: int|
                0 <= k < l < g.pixels@.len() ==> (#[trigger] g.pixels@[k]).0 != (
                #[trigger] g.pixels@[l]).0,
            forall|q: Point|
                pic.in_bounds(q) && vis(visited@, ww, q) && !vis(v0, ww, q) ==> exists|k: int|
                    0 <= k < g.pixels@.len() && (#[trigger] g.pixels@[k]).0 == q,
            forall|k: int|
                0 <= k < queue@.len() ==> exists|l: int|
                    0 <= l < g.pixels@.len() && (#[trigger] g.pixels@[l]).0 == (
                    #[trigger] queue@[k]),
            forall|k: int, l: int| 0 <= k < l < queue@.len() ==> queue@[k] != queue@[l],
            forall|k: int| 0 <= k < queue@.len() ==> vis(visited@, ww, #[trigger] queue@[k]),
            forall|k: int|
                0 <= k < g.pixels@.len() ==> queue@.contains((#[trigger] g.pixels@[k]).0)
                    || expanded(*pic, selected_color, visited@, g.pixels@[k].0),
        decreases count_false(visited@), queue@.len(),
    {
        let ghost vloop = visited@;
        let ghost qloop = queue@;
        let sel = queue.pop().unwrap();
        proof {
            assert(qloop.contains(sel)) by {
                assert(qloop[qloop.len() - 1] == sel);
            }
            let l = choose|l: int|
                0 <= l < g.pixels@.len() && (#[trigger] g.pixels@[l]).0 == sel;
            assert(pic.in_bounds(sel) && pic.pix(sel) == selected_color && reach_unvisited(
                *pic,
                selected_color,
                v0,
                pixel,
                sel,
            ));
            assert forall|k: int| 0 <= k < g.pixels@.len() implies g.pixels@[k].0 == sel
                || queue@.contains((#[trigger] g.pixels@[k]).0) || expanded(
                *pic,
                selected_color,
                visited@,
                g.pixels@[k].0,
            ) by {
                let m = g.pixels@[k].0;
                if m != sel && !expanded(*pic, selected_color, visited@, m) {
                    assert(qloop.contains(m));
                    let t = choose|t: int| 0 <= t < qloop.len() && qloop[t] == m;
                    assert(t < qloop.len() - 1);
                    assert(queue@[t] == m);
                }
            }
        }
        let mut ni: usize = 0;
        while ni < 8
            invariant
                pic.wf(),
                pic.in_bounds(pixel),
                w == pic.width,
                ww == pic.width as int,
                selected_color == pic.pix(pixel),
                visited@.len() == v0.len(),
                v0.len() == pic.pixels@.len(),
                !vis(v0, ww, pixel),
                g.color == glyph.color,
                g.b == glyph.b,
                g.pixels@.len() >= 1,
                g.pixels@[0].0 == pixel,
                ni <= 8,
                pic.in_bounds(sel),
                pic.pix(sel) == selected_color,
                reach_unvisited(*pic, selected_color, v0, pixel, sel),
                forall|t: int| 0 <= t < v0.len() ==> v0[t] ==> visited@[t],
                forall|t: int| 0 <= t < v0.len() ==> vloop[t] ==> visited@[t],
                forall|k: int|
                    0 <= k < g.pixels@.len() ==> {
                        let m = (#[trigger] g.pixels@[k]).0;
                        &&& pic.in_bounds(m)
                        &&& pic.pix(m) == selected_color
                        &&& g.pixels@[k].1 == selected_color
                        &&& !vis(v0, ww, m)
                        &&& vis(visited@, ww, m)
                        &&& reach_unvisited(*pic, selected_color, v0, pixel, m)
                    },
                forall|k: int, l: int|
                    0 <= k < l < g.pixels@.len() ==> (#[trigger] g.pixels@[k]).0 != (
                    #[trigger] g.pixels@[l]).0,
                forall|q: Point|
                    pic.in_bounds(q) && vis(visited@, ww, q) && !vis(v0, ww, q) ==> exists|k: int|
                        0 <= k < g.pixels@.len() && (#[trigger] g.pixels@[k]).0 == q,
                forall|k: int|
                    0 <= k < queue@.len() ==> exists|l: int|
                        0 <= l < g.pixels@.len() && (#[trigger] g.pixels@[l]).0 == (
                        #[trigger] queue@[k]),
                forall|k: int, l: int| 0 <= k < l < queue@.len() ==> queue@[k] != queue@[l],
                forall|k: int| 0 <= k < queue@.len() ==> vis(visited@, ww, #[trigger] queue@[k]),
                forall|k: int|
                    0 <= k < g.pixels@.len() ==> g.pixels@[k].0 == sel || queue@.contains(
                        (#[trigger] g.pixels@[k]).0,
                    ) || expanded(*pic, selected_color, visited@, g.pixels@[k].0),
                forall|t: int| #![trigger spec_surrounding(t)]
                    0 <= t < ni ==> {
                        let np = padd(sel, spec_surrounding(t));
                        !pic.in_bounds(np) || pic.pix(np) != selected_color || vis(
                            visited@,
                            ww,
                            np,
                        )
                    },
                count_false(visited@) <= count_false(vloop),
                count_false(visited@) < count_false(vloop) || queue@.len() < qloop.len(),
        decreases 8 - ni,
        {
            let off = surrounding(ni);
            let new_point = Point { x: sel.x + off.x, y: sel.y + off.y };
            proof {
                assert(new_point == padd(sel, spec_surrounding(ni as int)));
            }
            if new_point.x >= 0 && new_point.x < w && new_point.y >= 0 && new_point.y
                < pic.height {
                proof {
                    lemma_index_in_range(new_point, ww, pic.height as int);
                }
                let npi = get_index(new_point, w);
                if !visited[npi] {
                    let new_pixel = pic.get(new_point);
                    if new_pixel == selected_color {
                        let ghost vprev = visited@;
                        let ghost gprev = g.pixels@;
                        let ghost qpre = queue@;
                        visited[npi] = true;
                        g.pixels.push((new_point, selected_color));
                        queue.push(new_point);
                        proof {
                            lemma_count_false_update(vprev, spec_index_of(new_point, ww));
                            assert(adj8(sel, new_point));
                            assert(!vis(vprev, ww, new_point));
                            assert(!vis(v0, ww, new_point));
                            lemma_reach_unvisited_step(
                                *pic,
                                selected_color,
                                v0,
                                pixel,
                                sel,
                                new_point,
                            );
                            assert(vis(visited@, ww, new_point));
                            assert(g.pixels@[g.pixels@.len() - 1] == (new_point, selected_color));
                            assert forall|k: int| 0 <= k < g.pixels@.len() implies {
                                let m = (#[trigger] g.pixels@[k]).0;
                                &&& pic.in_bounds(m)
                                &&& pic.pix(m) == selected_color
                                &&& g.pixels@[k].1 == selected_color
                                &&& !vis(v0, ww, m)
                                &&& vis(visited@, ww, m)
                                &&& reach_unvisited(*pic, selected_color, v0, pixel, m)
                            } by {
                                if k < gprev.len() {
                                    assert(g.pixels@[k] == gprev[k]);
                                    lemma_index_in_range(gprev[k].0, ww, pic.height as int);
                                    assert(vis(vprev, ww, gprev[k].0));
                                } else {
                                    assert(g.pixels@[k] == (new_point, selected_color));
                                }
                            }
                            assert forall|k: int| 0 <= k < queue@.len() implies exists|l: int|
                                0 <= l < g.pixels@.len() && (#[trigger] g.pixels@[l]).0 == (
                                #[trigger] queue@[k]) by {
                                if k < qpre.len() {
                                    assert(queue@[k] == qpre[k]);
                                    let l = choose|l: int|
                                        0 <= l < gprev.len() && (#[trigger] gprev[l]).0
                                            == qpre[k];
                                    assert(g.pixels@[l].0 == queue@[k]);
                                } else {
                                    assert(queue@[k] == new_point);
                                    assert(g.pixels@[g.pixels@.len() - 1].0 == queue@[k]);
                                }
                            }
                            assert forall|q: Point|
                                pic.in_bounds(q) && vis(visited@, ww, q) && !vis(
                                    v0,
                                    ww,
                                    q,
                                ) implies exists|k: int|
                                0 <= k < g.pixels@.len() && (#[trigger] g.pixels@[k]).0
                                    == q by {
                                lemma_index_in_range(q, ww, pic.height as int);
                                if spec_index_of(q, ww) == spec_index_of(new_point, ww) {
                                    lemma_index_injective(q, new_point, ww);
                                    assert(g.pixels@[g.pixels@.len() - 1].0 == q);
                                } else {
                                    assert(vis(vprev, ww, q));
                                    let k = choose|k: int|
                                        0 <= k < gprev.len() && (#[trigger] gprev[k]).0 == q;
                                    assert(g.pixels@[k].0 == q);
                                }
                            }
                            assert forall|k: int| 0 <= k < g.pixels@.len() implies g.pixels@[k].0
                                == sel || queue@.contains((#[trigger] g.pixels@[k]).0)
                                || expanded(*pic, selected_color, visited@, g.pixels@[k].0) by {
                                if k < gprev.len() {
                                    if gprev[k].0 != sel && !expanded(
                                        *pic,
                                        selected_color,
                                        vprev,
                                        gprev[k].0,
                                    ) {
                                        assert(qpre.contains(gprev[k].0));
                                        let t = choose|t: int|
                                            0 <= t < qpre.len() && qpre[t] == gprev[k].0;
                                        assert(queue@[t] == gprev[k].0);
                                    } else if expanded(*pic, selected_color, vprev, gprev[k].0) {
                                        assert forall|q: Point|
                                            pic.in_bounds(q) && pic.pix(q) == selected_color
                                                && adj8(g.pixels@[k].0, q) implies #[trigger] vis(
                                            visited@,
                                            ww,
                                            q,
                                        ) by {
                                            lemma_index_in_range(q, ww, pic.height as int);
                                        }
                                    }
                                } else {
                                    assert(queue@[queue@.len() - 1] == new_point);
                                }
                            }
                        }
                    }
                }
            }
            ni += 1;
            proof {
                assert forall|t: int| #![trigger spec_surrounding(t)] 0 <= t < ni implies {
                    let np = padd(sel, spec_surrounding(t));
                    !pic.in_bounds(np) || pic.pix(np) != selected_color || vis(visited@, ww, np)
                } by {
                    let np = padd(sel, spec_surrounding(t));
                    if pic.in_bounds(np) {
                        lemma_index_in_range(np, ww, pic.height as int);
                    }
                }
            }
        }
        proof {
            assert(expanded(*pic, selected_color, visited@, sel)) by {
                assert forall|q: Point|
                    pic.in_bounds(q) && pic.pix(q) == selected_color && adj8(
                        sel,
                        q,
                    ) implies #[trigger] vis(visited@, ww, q) by {
                    lemma_surrounding_complete(sel, q);
                    let t = choose|t: int|
                        0 <= t < 8 && q.x - sel.x == spec_surrounding(t).x && q.y - sel.y
                            == spec_surrounding(t).y;
                    assert(q == padd(sel, spec_surrounding(t)));
                }
            }
            assert forall|k: int| 0 <= k < g.pixels@.len() implies queue@.contains(
                (#[trigger] g.pixels@[k]).0,
            ) || expanded(*pic, selected_color, visited@, g.pixels@[k].0) by {
                if g.pixels@[k].0 != sel && !expanded(
                    *pic,
                    selected_color,
                    visited@,
                    g.pixels@[k].0,
                ) {
                    assert(queue@.contains(g.pixels@[k].0));
                }
            }
        }
    }
    proof {
        assert forall|k: int| 0 <= k < g.pixels@.len() implies expanded(
            *pic,
            pic.pix(pixel),
            visited@,
            (#[trigger] g.pixels@[k]).0,
        ) by {
            assert(!queue@.contains(g.pixels@[k].0));
        }
        // Completeness: any pixel an unvisited same-colored chain reaches
        // from the seed was collected.
        assert forall|q: Point|
            reach_unvisited(*pic, pic.pix(pixel), v0, pixel, q) implies exists|k: int|
            0 <= k < g.pixels@.len() && (#[trigger] g.pixels@[k]).0 == q by {
            let path = choose|path: Seq<Point>|
                is_path_unvisited(*pic, pic.pix(pixel), v0, path) && path.first() == pixel
                    && path.last() == q;
            assert(g.pixels@[0].0 == pixel);
            lemma_unvisited_chain_covered(
                *pic,
                pic.pix(pixel),
                v0,
                visited@,
                g.pixels@,
                pixel,
                path,
            );
        }
    }
    let ghost found = g.pixels@;
    let mut out = glyph;
    let ghost base = out.pixels@.len() as int;
    out.pixels.append(&mut g.pixels);
    proof {
        assert(out.pixels@.len() == base + found.len());
        assert forall|k: int| base <= k < out.pixels@.len() implies #[trigger] out.pixels@[k]
            == found[k - base] by {}
        assert(out.pixels@[base].0 == pixel);
        assert forall|q: Point|
            pic.in_bounds(q) && vis(visited@, ww, q) && !vis(v0, ww, q) implies exists|k: int|
            base <= k < out.pixels@.len() && (#[trigger] out.pixels@[k]).0 == q by {
            let j = choose|j: int| 0 <= j < found.len() && (#[trigger] found[j]).0 == q;
            assert(out.pixels@[base + j].0 == q);
        }
        assert forall|q: Point|
            reach_unvisited(*pic, pic.pix(pixel), v0, pixel, q) implies exists|k: int|
            base <= k < out.pixels@.len() && (#[trigger] out.pixels@[k]).0 == q by {
            let j = choose|j: int| 0 <= j < found.len() && (#[trigger] found[j]).0 == q;
            assert(out.pixels@[base + j].0 == q);
        }
    }
    out
}

/// The glyph holds the point among its member pixels.
pub open spec fn glyph_has(g: Glyph, q: Point) -> bool {
    exists|k: int| 0 <= k < g.pixels@.len() && (#[trigger] g.pixels@[k]).0 == q
}

/// Every member pixel is an in-bounds pixel of the glyph's color, recorded
/// with that color, and no position is recorded twice.
pub open spec fn glyph_members_ok(pic: Picture, g: Glyph) -> bool {
    &&& g.pixels@.len() >= 1
    &&& forall|k: int|
        0 <= k < g.pixels@.len() ==> pic.in_bounds((#[trigger] g.pixels@[k]).0) && pic.pix(
            g.pixels@[k].0,
        ) == g.color && g.pixels@[k].1 == g.color
    &&& forall|k: int, l: int|
        0 <= k < l < g.pixels@.len() ==> (#[trigger] g.pixels@[k]).0 != (#[trigger] g.pixels@[l]).0
}

/// Every member pixel reaches every other member pixel through 8-adjacent
/// pixels of the glyph's color.
pub open spec fn glyph_connected(pic: Picture, g: Glyph) -> bool {
    forall|k: int, l: int|
        0 <= k < g.pixels@.len() && 0 <= l < g.pixels@.len() ==> reach(
            pic,
            g.color,
            (#[trigger] g.pixels@[k]).0,
            (#[trigger] g.pixels@[l]).0,
        )
}

/// No in-bounds pixel of the glyph's color adjacent to a member is excluded.
pub open spec fn glyph_maximal(pic: Picture, g: Glyph) -> bool {
    forall|k: int, q: Point|
        0 <= k < g.pixels@.len() && pic.in_bounds(q) && pic.pix(q) == g.color && #[trigger] adj8(
            (#[trigger] g.pixels@[k]).0,
            q,
        ) ==> glyph_has(g, q)
}

/// The bounding box is the inclusive per-axis minimum and maximum of the
/// member positions, each side attained by some member.
pub open spec fn glyph_bbox_ok(g: Glyph) -> bool {
    &&& forall|k: int|
        0 <= k < g.pixels@.len() ==> g.b.u_left.x <= (#[trigger] g.pixels@[k]).0.x
            <= g.b.l_right.x && g.b.u_left.y <= g.pixels@[k].0.y <= g.b.l_right.y
    &&& exists|k: int| 0 <= k < g.pixels@.len() && (#[trigger] g.pixels@[k]).0.x == g.b.u_left.x
    &&& exists|k: int| 0 <= k < g.pixels@.len() && (#[trigger] g.pixels@[k]).0.y == g.b.u_left.y
    &&& exists|k: int| 0 <= k < g.pixels@.len() && (#[trigger] g.pixels@[k]).0.x == g.b.l_right.x
    &&& exists|k: int| 0 <= k < g.pixels@.len() && (#[trigger] g.pixels@[k]).0.y == g.b.l_right.y
}

/// A glyph as `gather_glyphs` promises it: well-formed members, pairwise
/// connected, maximal, with a tight bounding box.
pub open spec fn glyph_ok(pic: Picture, g: Glyph) -> bool {
    &&& glyph_members_ok(pic, g)
    &&& glyph_connected(pic, g)
    &&& glyph_maximal(pic, g)
    &&& glyph_bbox_ok(g)
}

/// An in-bounds point's row index stays below the grid height.
pub proof fn lemma_pos_below_height(p: Point, w: int, h: int)
    by (nonlinear_arith)
    requires
        0 <= p.x < w,
        0 <= p.y,
        spec_index_of(p, w) < w * h,
    ensures
        p.y < h,
{
}

/// Gathers every maximal 8-connected group of same-colored pixels whose
/// color the ledger classifies, scanning seeds in row-major order. Each
/// relevant pixel lands in exactly one glyph.
#[verifier::rlimit(100)]
#[verifier::spinoff_prover]
pub fn gather_glyphs(pic: &Picture, ledger: ColorLedger) -> (glyphs: Vec<Glyph>)
    requires
        pic.wf(),
    ensures
        forall|gi: int|
            0 <= gi < glyphs@.len() ==> glyph_ok(*pic, #[trigger] glyphs@[gi])
                && ledger.classify(glyphs@[gi].color) is Some,
        forall|q: Point|
            pic.in_bounds(q) && ledger.classify(pic.pix(q)) is Some ==> exists|gi: int|
                0 <= gi < glyphs@.len() && glyph_has(#[trigger] glyphs@[gi], q),
        forall|gi: int, gj: int, k: int, l: int|
            0 <= gi < gj < glyphs@.len() && 0 <= k < glyphs@[gi].pixels@.len() && 0 <= l
                < glyphs@[gj].pixels@.len() ==> (#[trigger] glyphs@[gi].pixels@[k]).0 != (
            #[trigger] glyphs@[gj].pixels@[l]).0,
{
    let ghost ww = pic.width as int;
    let mut glyph_list: Vec<Glyph> = Vec::new();
    let mut visited: Vec<bool> = Vec::new();
    let total = pic.pixels.len();
    let mut t: usize = 0;
    while t < total
        invariant
            visited@.len() == t,
            t <= total,
            forall|u: int| 0 <= u < t ==> !visited@[u],
        decreases total - t,
    {
        visited.push(false);
        t += 1;
    }
    proof {
        assert forall|q: Point| pic.in_bounds(q) implies !vis(visited@, ww, q) by {
            lemma_index_in_range(q, ww, pic.height as int);
        }
    }
    let mut index: usize = 0;
    while index < total
        invariant
            pic.wf(),
            ww == pic.width as int,
            total == pic.pixels@.len(),
            index <= total,
            visited@.len() == total,
            forall|gi: int|
                0 <= gi < glyph_list@.len() ==> glyph_ok(*pic, #[trigger] glyph_list@[gi])
                    && ledger.classify(glyph_list@[gi].color) is Some,
            forall|q: Point|
                pic.in_bounds(q) ==> (vis(visited@, ww, q) <==> exists|gi: int|
                    0 <= gi < glyph_list@.len() && glyph_has(#[trigger] glyph_list@[gi], q)),
            forall|u: int|
                0 <= u < index ==> ledger.classify(pic.pixels@[u]) is Some ==> visited@[u],
            forall|gi: int, gj: int, k: int, l: int|
                0 <= gi < gj < glyph_list@.len() && 0 <= k < glyph_list@[gi].pixels@.len() && 0
                    <= l < glyph_list@[gj].pixels@.len() ==> (
                #[trigger] glyph_list@[gi].pixels@[k]).0 != (
                #[trigger] glyph_list@[gj].pixels@[l]).0,
        decreases total - index,
    {
        proof {
            assert(pic.width > 0) by (nonlinear_arith)
                requires
                    pic.pixels@.len() == pic.width as int * pic.height as int,
                    index < pic.pixels@.len(),
                    pic.width >= 0,
                    pic.height >= 0,
            ;
        }
        let pos = get_pos(index as i32, pic.width);
        proof {
            lemma_pos_below_height(pos, ww, pic.height as int);
            assert(pic.in_bounds(pos));
            assert(pic.pix(pos) == pic.pixels@[index as int]);
        }
        let pixel = pic.pixels[index];
        if ledger.identify(&pixel).is_some() {
            if !visited[index] {
                let ghost vpre = visited@;
                let ghost listpre = glyph_list@;
                let glyph = Glyph {
                    color: pixel,
                    pixels: Vec::new(),
                    b: BoundingBox {
                        u_left: Point { x: 0, y: 0 },
                        l_right: Point { x: 0, y: 0 },
                    },
                };
                let mut g = flood_fill(pic, glyph, &mut visited, pos);

                // Tighten the bounding box to the members' per-axis extremes.
                let mut min = Point { x: i32::MAX, y: i32::MAX };
                let mut max = Point { x: i32::MIN, y: i32::MIN };
                let mut k: usize = 0;
                while k < g.pixels.len()
                    invariant
                        pic.wf(),
                        k <= g.pixels@.len(),
                        forall|u: int|
                            0 <= u < g.pixels@.len() ==> pic.in_bounds(
                                (#[trigger] g.pixels@[u]).0,
                            ),
                        k == 0 ==> min.x == i32::MAX && min.y == i32::MAX && max.x == i32::MIN
                            && max.y == i32::MIN,
                        forall|u: int|
                            0 <= u < k ==> min.x <= (#[trigger] g.pixels@[u]).0.x <= max.x
                                && min.y <= g.pixels@[u].0.y <= max.y,
                        k > 0 ==> exists|u: int|
                            0 <= u < k && (#[trigger] g.pixels@[u]).0.x == min.x,
                        k > 0 ==> exists|u: int|
                            0 <= u < k && (#[trigger] g.pixels@[u]).0.y == min.y,
                        k > 0 ==> exists|u: int|
                            0 <= u < k && (#[trigger] g.pixels@[u]).0.x == max.x,
                        k > 0 ==> exists|u: int|
                            0 <= u < k && (#[trigger] g.pixels@[u]).0.y == max.y,
                    decreases g.pixels@.len() - k,
                {
                    let (p, _c) = g.pixels[k];
                    let ghost omin = min;
                    let ghost omax = max;
                    let ghost kk = k as int;
                    if p.x < min.x {
                        min.x = p.x;
                    }
                    if p.y < min.y {
                        min.y = p.y;
                    }
                    if p.x > max.x {
                        max.x = p.x;
                    }
                    if p.y > max.y {
                        max.y = p.y;
                    }
                    proof {
                        assert(exists|u: int|
                            0 <= u < kk + 1 && (#[trigger] g.pixels@[u]).0.x == min.x) by {
                            if min.x == p.x {
                                assert(g.pixels@[kk].0.x == min.x);
                            } else {
                                let u = choose|u: int|
                                    0 <= u < kk && (#[trigger] g.pixels@[u]).0.x == omin.x;
                                assert(g.pixels@[u].0.x == min.x);
                            }
                        }
                        assert(exists|u: int|
                            0 <= u < kk + 1 && (#[trigger] g.pixels@[u]).0.y == min.y) by {
                            if min.y == p.y {
                                assert(g.pixels@[kk].0.y == min.y);
                            } else {
                                let u = choose|u: int|
                                    0 <= u < kk && (#[trigger] g.pixels@[u]).0.y == omin.y;
                                assert(g.pixels@[u].0.y == min.y);
                            }
                        }
                        assert(exists|u: int|
                            0 <= u < kk + 1 && (#[trigger] g.pixels@[u]).0.x == max.x) by {
                            if max.x == p.x {
                                assert(g.pixels@[kk].0.x == max.x);
                            } else {
                                let u = choose|u: int|
                                    0 <= u < kk && (#[trigger] g.pixels@[u]).0.x == omax.x;
                                assert(g.pixels@[u].0.x == max.x);
                            }
                        }
                        assert(exists|u: int|
                            0 <= u < kk + 1 && (#[trigger] g.pixels@[u]).0.y == max.y) by {
                            if max.y == p.y {
                                assert(g.pixels@[kk].0.y == max.y);
                            } else {
                                let u = choose|u: int|
                                    0 <= u < kk && (#[trigger] g.pixels@[u]).0.y == omax.y;
                                assert(g.pixels@[u].0.y == max.y);
                            }
                        }
                    }
                    k += 1;
                }
                g.b = BoundingBox { u_left: min, l_right: max };

                proof {
                    let c = pic.pix(pos);
                    assert(g.color == c);
                    // Pairwise connectivity through the seed.
                    assert forall|k1: int, l1: int|
                        0 <= k1 < g.pixels@.len() && 0 <= l1 < g.pixels@.len() implies reach(
                        *pic,
                        g.color,
                        (#[trigger] g.pixels@[k1]).0,
                        (#[trigger] g.pixels@[l1]).0,
                    ) by {
                        lemma_reach_sym(*pic, c, pos, g.pixels@[k1].0);
                        lemma_reach_trans(
                            *pic,
                            c,
                            g.pixels@[k1].0,
                            pos,
                            g.pixels@[l1].0,
                        );
                    }
                    // Maximality: a same-colored neighbor of a member belongs
                    // to this very glyph. Were it in an earlier glyph, that
                    // glyph's own maximality would have claimed the member
                    // first, yet the member was unvisited before this fill.
                    assert forall|k1: int, q: Point|
                        0 <= k1 < g.pixels@.len() && pic.in_bounds(q) && pic.pix(q) == g.color
                            && #[trigger] adj8(
                            (#[trigger] g.pixels@[k1]).0,
                            q,
                        ) implies glyph_has(g, q) by {
                        let m = g.pixels@[k1].0;
                        assert(expanded(*pic, c, visited@, m));
                        assert(vis(visited@, ww, q));
                        if vis(vpre, ww, q) {
                            let gi = choose|gi: int|
                                0 <= gi < listpre.len() && glyph_has(
                                    #[trigger] listpre[gi],
                                    q,
                                );
                            let og = listpre[gi];
                            let kq = choose|kq: int|
                                0 <= kq < og.pixels@.len() && (#[trigger] og.pixels@[kq]).0
                                    == q;
                            assert(og.color == pic.pix(q));
                            assert(adj8(q, m));
                            assert(glyph_maximal(*pic, og));
                            assert(glyph_has(og, m));
                            assert(vis(vpre, ww, m));
                            assert(false);
                        }
                    }
                }
                glyph_list.push(g);
                proof {
                    assert forall|q: Point| pic.in_bounds(q) implies (vis(visited@, ww, q)
                        <==> exists|gi: int|
                        0 <= gi < glyph_list@.len() && glyph_has(
                            #[trigger] glyph_list@[gi],
                            q,
                        )) by {
                        if vis(visited@, ww, q) {
                            if vis(vpre, ww, q) {
                                let gi = choose|gi: int|
                                    0 <= gi < listpre.len() && glyph_has(
                                        #[trigger] listpre[gi],
                                        q,
                                    );
                                assert(glyph_list@[gi] == listpre[gi]);
                                assert(glyph_has(glyph_list@[gi], q));
                            } else {
                                assert(glyph_has(g, q));
                                assert(glyph_list@[glyph_list@.len() - 1] == g);
                            }
                        }
                        if exists|gi: int|
                            0 <= gi < glyph_list@.len() && glyph_has(
                                #[trigger] glyph_list@[gi],
                                q,
                            ) {
                            let gi = choose|gi: int|
                                0 <= gi < glyph_list@.len() && glyph_has(
                                    #[trigger] glyph_list@[gi],
                                    q,
                                );
                            if gi < listpre.len() {
                                assert(glyph_has(listpre[gi], q));
                                assert(vis(vpre, ww, q));
                                lemma_index_in_range(q, ww, pic.height as int);
                            } else {
                                assert(glyph_list@[gi] == g);
                                let kq = choose|kq: int|
                                    0 <= kq < g.pixels@.len() && (#[trigger] g.pixels@[kq]).0
                                        == q;
                                assert(vis(visited@, ww, q));
                            }
                        }
                    }
                    assert(vis(visited@, ww, pos)) by {
                        assert(g.pixels@[0].0 == pos);
                    }
                    assert forall|gi: int, gj: int, k1: int, l1: int|
                        0 <= gi < gj < glyph_list@.len() && 0 <= k1
                            < glyph_list@[gi].pixels@.len() && 0 <= l1
                            < glyph_list@[gj].pixels@.len() implies (
                    #[trigger] glyph_list@[gi].pixels@[k1]).0 != (
                    #[trigger] glyph_list@[gj].pixels@[l1]).0 by {
                        if gj < listpre.len() {
                            assert(glyph_list@[gi] == listpre[gi]);
                            assert(glyph_list@[gj] == listpre[gj]);
                        } else {
                            assert(glyph_list@[gj] == g);
                            assert(glyph_list@[gi] == listpre[gi]);
                            let m = glyph_list@[gi].pixels@[k1].0;
                            assert(glyph_has(listpre[gi], m));
                            assert(vis(vpre, ww, m));
                            assert(!vis(vpre, ww, g.pixels@[l1].0));
                        }
                    }
                }
            }
        }
        proof {
            if ledger.classify(pic.pixels@[index as int]) is Some {
                assert(vis(visited@, ww, pos));
            }
        }
        index += 1;
    }
    proof {
        assert forall|q: Point|
            pic.in_bounds(q) && ledger.classify(pic.pix(q)) is Some implies exists|gi: int|
            0 <= gi < glyph_list@.len() && glyph_has(#[trigger] glyph_list@[gi], q) by {
            lemma_index_in_range(q, ww, pic.height as int);
            assert(pic.pixels@[spec_index_of(q, ww)] == pic.pix(q));
            assert(vis(visited@, ww, q));
        }
    }
    glyph_list
}

} // verus!
