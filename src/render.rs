use vstd::prelude::*;
use crate::bitmap::Bitmap;
use crate::fill::{draw_filled_triangle, draw_triangle_outline, fill_covers, outline_covers, Point2};
use crate::pixel::{opaque, Pixel, Rgb};

verus! {

/// A triangle projected to screen space, ready to be drawn.
///
/// `depth` orders faces from far (small) to near (large); `facing_camera`
/// tells whether the face's normal points toward the viewer, and `shade` is
/// the brightness of its fill.
#[derive(Copy, Clone, Debug, PartialEq, Eq, Structural)]
pub struct ScreenFace {
    pub v0: Point2,
    pub v1: Point2,
    pub v2: Point2,
    pub depth: i64,
    pub facing_camera: bool,
    pub shade: u8,
}

impl ScreenFace {
    pub fn new(v0: Point2, v1: Point2, v2: Point2, depth: i64, facing_camera: bool, shade: u8) -> (f: Self)
        ensures
            f == (ScreenFace { v0, v1, v2, depth, facing_camera, shade }),
    {
        ScreenFace { v0, v1, v2, depth, facing_camera, shade }
    }
}

/// Colour of the fill of a face of the given brightness: yellow scaled by it.
pub open spec fn shade_pixel(shade: u8) -> Pixel {
    opaque(shade, shade, 0)
}

/// Colour of the outline of every face.
pub open spec fn outline_pixel() -> Pixel {
    opaque(0, 0, 0)
}

/// Whether every vertex of the face is a pixel of `bitmap`.
pub open spec fn face_on_screen(bitmap: Bitmap, f: ScreenFace) -> bool {
    &&& bitmap.in_bounds(f.v0.x as int, f.v0.y as int)
    &&& bitmap.in_bounds(f.v1.x as int, f.v1.y as int)
    &&& bitmap.in_bounds(f.v2.x as int, f.v2.y as int)
}

/// The pixel at (x, y) after drawing face `f`, outline first and fill over
/// it, on a pixel that was `below`.
pub open spec fn face_paint(f: ScreenFace, below: Pixel, x: int, y: int) -> Pixel {
    if fill_covers(f.v0, f.v1, f.v2, x, y) {
        shade_pixel(f.shade)
    } else if outline_covers(f.v0, f.v1, f.v2, x, y) {
        outline_pixel()
    } else {
        below
    }
}

/// The pixel at (x, y) after drawing the faces listed by `order`, in that
/// order, on a pixel that was `base`; faces that turn away from the camera
/// are skipped.
pub open spec fn painted_at(faces: Seq<ScreenFace>, order: Seq<int>, base: Pixel, x: int, y: int) -> Pixel
    decreases order.len(),
{
    if order.len() == 0 {
        base
    } else {
        let below = painted_at(faces, order.drop_last(), base, x, y);
        let f = faces[order.last()];
        if f.facing_camera { face_paint(f, below, x, y) } else { below }
    }
}

/// Face `i` is drawn before face `j`: it is farther, or as far and listed
/// earlier.
pub open spec fn drawn_before(faces: Seq<ScreenFace>, i: int, j: int) -> bool {
    faces[i].depth < faces[j].depth || (faces[i].depth == faces[j].depth && i < j)
}

/// `order` lists every face exactly once, from far to near, faces of equal
/// depth in their given order.
pub open spec fn is_depth_order(faces: Seq<ScreenFace>, order: Seq<int>) -> bool {
    &&& order.len() == faces.len()
    &&& forall|p: int| 0 <= p < order.len() ==> 0 <= #[trigger] order[p] < faces.len()
    &&& forall|p: int, q: int| 0 <= p < q < order.len() ==> drawn_before(faces, #[trigger] order[p], #[trigger] order[q])
    &&& forall|i: int| 0 <= i < faces.len() ==> #[trigger] order.contains(i)
}

/// The faces' indices sorted from far to near, faces of equal depth kept in
/// their given order.
pub fn depth_order(faces: &Vec<ScreenFace>) -> (order: Vec<usize>)
    ensures
        is_depth_order(faces@, order@.map_values(|i: usize| i as int)),
{
    let n = faces.len();
    let mut order: Vec<usize> = Vec::new();
    let mut i: usize = 0;
    while i < n
        invariant
            n == faces@.len(),
            i <= n,
            order@.len() == i,
            forall|p: int| 0 <= p < order@.len() ==> #[trigger] order@[p] < i,
            forall|p: int, q: int| 0 <= p < q < order@.len()
                ==> drawn_before(faces@, #[trigger] order@[p] as int, #[trigger] order@[q] as int),
            forall|k: int| 0 <= k < i ==> #[trigger] order@.contains(k as usize),
        decreases n - i,
    {
        let d = faces[i].depth;
        let mut p: usize = 0;
        while p < order.len() && faces[order[p]].depth <= d
            invariant
                n == faces@.len(),
                i < n,
                d == faces@[i as int].depth,
                p <= order@.len(),
                forall|q: int| 0 <= q < order@.len() ==> #[trigger] order@[q] < i,
                forall|q: int| 0 <= q < p ==> faces@[#[trigger] order@[q] as int].depth <= d,
            decreases order@.len() - p,
        {
            p = p + 1;
        }
        let ghost before = order@;
        order.insert(p, i);
        proof {
            assert forall|a: int, b: int| 0 <= a < b < order@.len() implies drawn_before(
                faces@,
                #[trigger] order@[a] as int,
                #[trigger] order@[b] as int,
            ) by {
                if b == p as int {
                    assert(order@[a] == before[a]);
                } else if a == p as int {
                    assert(order@[b] == before[b - 1]);
                    if b - 1 > p as int {
                        assert(drawn_before(faces@, before[p as int] as int, before[b - 1] as int));
                    }
                } else if a < p as int && b < p as int {
                    assert(order@[a] == before[a]);
                    assert(order@[b] == before[b]);
                } else if a < p as int {
                    assert(order@[a] == before[a]);
                    assert(order@[b] == before[b - 1]);
                } else {
                    assert(order@[a] == before[a - 1]);
                    assert(order@[b] == before[b - 1]);
                }
            }
            assert forall|k: int| 0 <= k < i + 1 implies #[trigger] order@.contains(k as usize) by {
                if k == i as int {
                    assert(order@[p as int] == k);
                } else {
                    assert(before.contains(k as usize));
                    let q0 = choose|q: int| 0 <= q < before.len() && before[q] == k as usize;
                    if q0 < p as int {
                        assert(order@[q0] == k);
                    } else {
                        assert(order@[q0 + 1] == k);
                    }
                }
            }
            assert forall|q: int| 0 <= q < order@.len() implies #[trigger] order@[q] < i + 1 by {
                if q < p as int {
                    assert(order@[q] == before[q]);
                } else if q > p as int {
                    assert(order@[q] == before[q - 1]);
                }
            }
        }
        i = i + 1;
    }
    proof {
        let o = order@.map_values(|i: usize| i as int);
        assert forall|k: int| 0 <= k < faces@.len() implies #[trigger] o.contains(k) by {
            assert(order@.contains(k as usize));
            let q0 = choose|q: int| 0 <= q < order@.len() && order@[q] == k as usize;
            assert(o[q0] == k);
        }
    }
    order
}

/// Draws the faces by the painter's algorithm: from far to near, faces of
/// equal depth in their given order, so that nearer faces cover farther
/// ones. A face turned away from the camera is not drawn, and its vertices
/// may lie anywhere; any other gets a black outline and then a fill of its
/// shade, and must lie on the bitmap. Returns the drawing order.
pub fn render_faces(bitmap: &mut Bitmap, faces: &Vec<ScreenFace>) -> (order: Vec<usize>)
    requires
        old(bitmap).wf(),
        forall|i: int| 0 <= i < faces@.len() && (#[trigger] faces@[i]).facing_camera ==> face_on_screen(*old(bitmap), faces@[i]),
    ensures
        is_depth_order(faces@, order@.map_values(|i: usize| i as int)),
        final(bitmap).wf(),
        final(bitmap).width() == old(bitmap).width(),
        final(bitmap).height() == old(bitmap).height(),
        forall|x: int, y: int| #[trigger] final(bitmap).in_bounds(x, y) ==> final(bitmap).at(x, y)
            == painted_at(faces@, order@.map_values(|i: usize| i as int), old(bitmap).at(x, y), x, y),
{
    let ghost start = *bitmap;
    let order = depth_order(faces);
    let ghost o = order@.map_values(|i: usize| i as int);
    let black: Rgb = (0, 0, 0);
    let mut t: usize = 0;
    while t < order.len()
        invariant
            start == *old(bitmap),
            o == order@.map_values(|i: usize| i as int),
            is_depth_order(faces@, o),
            forall|i: int| 0 <= i < faces@.len() && (#[trigger] faces@[i]).facing_camera ==> face_on_screen(start, faces@[i]),
            black == (0u8, 0u8, 0u8),
            t <= order@.len(),
            bitmap.wf(),
            bitmap.width() == start.width(),
            bitmap.height() == start.height(),
            forall|x: int, y: int| #[trigger] bitmap.in_bounds(x, y) ==> bitmap.at(x, y)
                == painted_at(faces@, o.take(t as int), start.at(x, y), x, y),
        decreases order@.len() - t,
    {
        proof {
            assert(o[t as int] == order@[t as int] as int);
        }
        let f = faces[order[t]];
        proof {
            assert(o.take(t + 1).drop_last() =~= o.take(t as int));
            assert(o.take(t + 1).last() == o[t as int]);
        }
        if f.facing_camera {
            proof {
                assert(face_on_screen(start, faces@[o[t as int]]));
            }
            let ghost prev = *bitmap;
            draw_triangle_outline(bitmap, f.v0.x, f.v0.y, f.v1.x, f.v1.y, f.v2.x, f.v2.y, &black);
            let ghost mid = *bitmap;
            let color: Rgb = (f.shade, f.shade, 0);
            draw_filled_triangle(bitmap, f.v0.x, f.v0.y, f.v1.x, f.v1.y, f.v2.x, f.v2.y, &color);
            proof {
                assert forall|x: int, y: int| #[trigger] bitmap.in_bounds(x, y) implies bitmap.at(x, y)
                    == painted_at(faces@, o.take(t + 1), start.at(x, y), x, y) by {
                    assert(mid.in_bounds(x, y));
                    assert(prev.in_bounds(x, y));
                    assert(f.v0 == Point2 { x: f.v0.x, y: f.v0.y });
                    assert(f.v1 == Point2 { x: f.v1.x, y: f.v1.y });
                    assert(f.v2 == Point2 { x: f.v2.x, y: f.v2.y });
                }
            }
        } else {
            proof {
                assert forall|x: int, y: int| #[trigger] bitmap.in_bounds(x, y) implies bitmap.at(x, y)
                    == painted_at(faces@, o.take(t + 1), start.at(x, y), x, y) by {
                }
            }
        }
        t = t + 1;
    }
    proof {
        assert(o.take(order@.len() as int) =~= o);
    }
    order
}

/// Back-face culling: a face turned away from the camera takes no part in
/// the picture. Replacing it by any other face turned away, of the same
/// depth, changes no pixel and keeps every drawing order valid.
pub proof fn lemma_turned_away_face_draws_nothing(
    faces: Seq<ScreenFace>,
    order: Seq<int>,
    k: int,
    g: ScreenFace,
    base: Pixel,
    x: int,
    y: int,
)
    requires
        0 <= k < faces.len(),
        !faces[k].facing_camera,
        !g.facing_camera,
        forall|p: int| 0 <= p < order.len() ==> 0 <= #[trigger] order[p] < faces.len(),
    ensures
        painted_at(faces.update(k, g), order, base, x, y) == painted_at(faces, order, base, x, y),
        g.depth == faces[k].depth ==> (is_depth_order(faces, order) <==> is_depth_order(faces.update(k, g), order)),
    decreases order.len(),
{
    if order.len() > 0 {
        let rest = order.drop_last();
        assert forall|p: int| 0 <= p < rest.len() implies 0 <= #[trigger] rest[p] < faces.len() by {
            assert(rest[p] == order[p]);
        }
        lemma_turned_away_face_draws_nothing(faces, rest, k, g, base, x, y);
    }
    if g.depth == faces[k].depth {
        let h = faces.update(k, g);
        assert forall|i: int, j: int| 0 <= i < faces.len() && 0 <= j < faces.len()
            implies drawn_before(faces, i, j) == drawn_before(h, i, j) by {
            assert(faces[i].depth == h[i].depth);
            assert(faces[j].depth == h[j].depth);
        }
    }
}

/// A pixel that no face facing the camera outlines or fills keeps its
/// colour, whatever the order of drawing.
pub proof fn lemma_uncovered_pixel_kept(faces: Seq<ScreenFace>, order: Seq<int>, base: Pixel, x: int, y: int)
    requires
        forall|p: int| 0 <= p < order.len() ==> 0 <= #[trigger] order[p] < faces.len(),
        forall|i: int| 0 <= i < faces.len() && (#[trigger] faces[i]).facing_camera ==> !fill_covers(
            faces[i].v0,
            faces[i].v1,
            faces[i].v2,
            x,
            y,
        ) && !outline_covers(faces[i].v0, faces[i].v1, faces[i].v2, x, y),
    ensures
        painted_at(faces, order, base, x, y) == base,
    decreases order.len(),
{
    if order.len() > 0 {
        let rest = order.drop_last();
        assert forall|p: int| 0 <= p < rest.len() implies 0 <= #[trigger] rest[p] < faces.len() by {
            assert(rest[p] == order[p]);
        }
        lemma_uncovered_pixel_kept(faces, rest, base, x, y);
        assert(0 <= order.last() < faces.len());
    }
}

/// Depth ordering: where the nearest face faces the camera and fills a
/// pixel, that pixel ends with the shade of that face, whatever the farther
/// faces drew there.
pub proof fn lemma_nearest_face_wins(faces: Seq<ScreenFace>, order: Seq<int>, j: int, base: Pixel, x: int, y: int)
    requires
        is_depth_order(faces, order),
        0 <= j < faces.len(),
        faces[j].facing_camera,
        fill_covers(faces[j].v0, faces[j].v1, faces[j].v2, x, y),
        forall|k: int| 0 <= k < faces.len() && k != j ==> (#[trigger] faces[k]).depth < faces[j].depth,
    ensures
        painted_at(faces, order, base, x, y) == shade_pixel(faces[j].shade),
{
    assert(order.contains(j));
    let p = choose|p: int| 0 <= p < order.len() && order[p] == j;
    let q = order.len() - 1;
    if p < q {
        assert(drawn_before(faces, order[p], order[q]));
        assert(0 <= order[q] < faces.len());
        if order[q] != j {
            assert(faces[order[q]].depth < faces[j].depth);
        }
    }
    assert(order.last() == j);
}

/// `order` with every entry `k` left out.
pub open spec fn without(order: Seq<int>, k: int) -> Seq<int>
    decreases order.len(),
{
    if order.len() == 0 {
        order
    } else if order.last() == k {
        without(order.drop_last(), k)
    } else {
        without(order.drop_last(), k).push(order.last())
    }
}

/// Indices of `faces.remove(k)` written as indices of `faces`.
pub open spec fn reindexed(order: Seq<int>, k: int) -> Seq<int> {
    order.map_values(|i: int| if i >= k { i + 1 } else { i })
}

/// Every later entry is drawn after every earlier one.
pub open spec fn sorted_for(faces: Seq<ScreenFace>, order: Seq<int>) -> bool {
    forall|p: int, q: int| 0 <= p < q < order.len() ==> drawn_before(faces, #[trigger] order[p], #[trigger] order[q])
}

proof fn lemma_without_members(faces: Seq<ScreenFace>, order: Seq<int>, k: int)
    requires
        sorted_for(faces, order),
    ensures
        sorted_for(faces, without(order, k)),
        forall|x: int| #[trigger] without(order, k).contains(x) <==> (order.contains(x) && x != k),
    decreases order.len(),
{
    if order.len() > 0 {
        let rest = order.drop_last();
        assert(sorted_for(faces, rest)) by {
            assert forall|p: int, q: int| 0 <= p < q < rest.len() implies drawn_before(faces, #[trigger] rest[p], #[trigger] rest[q]) by {
                assert(rest[p] == order[p] && rest[q] == order[q]);
            }
        }
        lemma_without_members(faces, rest, k);
        let w = without(rest, k);
        assert forall|x: int| order.contains(x) <==> (rest.contains(x) || x == order.last()) by {
            if order.contains(x) {
                let p = choose|p: int| 0 <= p < order.len() && order[p] == x;
                if p < order.len() - 1 {
                    assert(rest[p] == x);
                }
            }
            if rest.contains(x) {
                let p = choose|p: int| 0 <= p < rest.len() && rest[p] == x;
                assert(order[p] == x);
            }
            if x == order.last() {
                assert(order[order.len() - 1] == x);
            }
        }
        if order.last() != k {
            let v = w.push(order.last());
            assert forall|x: int| #[trigger] v.contains(x) <==> (w.contains(x) || x == order.last()) by {
                if v.contains(x) {
                    let p = choose|p: int| 0 <= p < v.len() && v[p] == x;
                    if p < w.len() {
                        assert(w[p] == x);
                    }
                }
                if w.contains(x) {
                    let p = choose|p: int| 0 <= p < w.len() && w[p] == x;
                    assert(v[p] == x);
                }
                if x == order.last() {
                    assert(v[w.len() as int] == x);
                }
            }
            assert forall|p: int, q: int| 0 <= p < q < v.len() implies drawn_before(faces, #[trigger] v[p], #[trigger] v[q]) by {
                if q == w.len() {
                    assert(w.contains(v[p]));
                    let r = choose|r: int| 0 <= r < rest.len() && rest[r] == v[p];
                    assert(order[r] == v[p]);
                    assert(order[order.len() - 1] == v[q]);
                } else {
                    assert(v[p] == w[p] && v[q] == w[q]);
                }
            }
        }
    }
}

/// Two orders that list the same faces, each from far to near, are equal.
proof fn lemma_depth_order_unique(faces: Seq<ScreenFace>, a: Seq<int>, b: Seq<int>)
    requires
        sorted_for(faces, a),
        sorted_for(faces, b),
        forall|x: int| #[trigger] a.contains(x) <==> b.contains(x),
    ensures
        a == b,
    decreases a.len(),
{
    if a.len() == 0 {
        if b.len() > 0 {
            assert(b.contains(b[0]));
            assert(a.contains(b[0]));
        }
        assert(a =~= b);
    } else {
        assert(a.contains(a.last()));
        assert(b.contains(a.last()));
        assert(b.len() > 0);
        assert(b.contains(b.last()));
        assert(a.contains(b.last()));
        let la = a.last();
        let lb = b.last();
        if la != lb {
            let q = choose|q: int| 0 <= q < b.len() && b[q] == la;
            let p = choose|p: int| 0 <= p < a.len() && a[p] == lb;
            assert(drawn_before(faces, b[q], b[b.len() - 1]));
            assert(drawn_before(faces, a[p], a[a.len() - 1]));
            assert(false);
        }
        let ra = a.drop_last();
        let rb = b.drop_last();
        assert(sorted_for(faces, ra)) by {
            assert forall|p: int, q: int| 0 <= p < q < ra.len() implies drawn_before(faces, #[trigger] ra[p], #[trigger] ra[q]) by {
                assert(ra[p] == a[p] && ra[q] == a[q]);
            }
        }
        assert(sorted_for(faces, rb)) by {
            assert forall|p: int, q: int| 0 <= p < q < rb.len() implies drawn_before(faces, #[trigger] rb[p], #[trigger] rb[q]) by {
                assert(rb[p] == b[p] && rb[q] == b[q]);
            }
        }
        assert forall|x: int| #[trigger] ra.contains(x) <==> rb.contains(x) by {
            if ra.contains(x) {
                let p = choose|p: int| 0 <= p < ra.len() && ra[p] == x;
                assert(a[p] == x);
                assert(drawn_before(faces, a[p], a[a.len() - 1]));
                assert(a.contains(x));
                assert(b.contains(x));
                let q = choose|q: int| 0 <= q < b.len() && b[q] == x;
                if q == b.len() - 1 {
                    assert(x == la);
                } else {
                    assert(rb[q] == x);
                }
            }
            if rb.contains(x) {
                let q = choose|q: int| 0 <= q < rb.len() && rb[q] == x;
                assert(b[q] == x);
                assert(drawn_before(faces, b[q], b[b.len() - 1]));
                assert(b.contains(x));
                assert(a.contains(x));
                let p = choose|p: int| 0 <= p < a.len() && a[p] == x;
                if p == a.len() - 1 {
                    assert(x == lb);
                } else {
                    assert(ra[p] == x);
                }
            }
        }
        lemma_depth_order_unique(faces, ra, rb);
        assert(a =~= ra.push(la));
        assert(b =~= rb.push(lb));
    }
}

proof fn lemma_skip_turned_away(faces: Seq<ScreenFace>, order: Seq<int>, k: int, base: Pixel, x: int, y: int)
    requires
        0 <= k < faces.len(),
        !faces[k].facing_camera,
    ensures
        painted_at(faces, without(order, k), base, x, y) == painted_at(faces, order, base, x, y),
    decreases order.len(),
{
    if order.len() > 0 {
        lemma_skip_turned_away(faces, order.drop_last(), k, base, x, y);
        if order.last() != k {
            let w = without(order.drop_last(), k);
            assert(w.push(order.last()).drop_last() =~= w);
        }
    }
}

proof fn lemma_reindexed_paint(faces: Seq<ScreenFace>, order: Seq<int>, k: int, base: Pixel, x: int, y: int)
    requires
        0 <= k < faces.len(),
        forall|p: int| 0 <= p < order.len() ==> 0 <= #[trigger] order[p] < faces.len() - 1,
    ensures
        painted_at(faces.remove(k), order, base, x, y) == painted_at(faces, reindexed(order, k), base, x, y),
    decreases order.len(),
{
    if order.len() > 0 {
        let rest = order.drop_last();
        assert forall|p: int| 0 <= p < rest.len() implies 0 <= #[trigger] rest[p] < faces.len() - 1 by {
            assert(rest[p] == order[p]);
        }
        lemma_reindexed_paint(faces, rest, k, base, x, y);
        assert(reindexed(order, k).drop_last() =~= reindexed(rest, k));
        let i = order.last();
        assert(0 <= i < faces.len() - 1);
        assert(faces.remove(k)[i] == faces[if i >= k { i + 1 } else { i }]);
    }
}

/// Back-face culling: a face turned away from the camera takes no part in
/// the picture. Drawing the faces without it, in their own depth order,
/// gives every pixel the colour that drawing all of them gives.
pub proof fn lemma_removing_turned_away_face(
    faces: Seq<ScreenFace>,
    order: Seq<int>,
    k: int,
    order2: Seq<int>,
    base: Pixel,
    x: int,
    y: int,
)
    requires
        is_depth_order(faces, order),
        0 <= k < faces.len(),
        !faces[k].facing_camera,
        is_depth_order(faces.remove(k), order2),
    ensures
        painted_at(faces.remove(k), order2, base, x, y) == painted_at(faces, order, base, x, y),
{
    let h = faces.remove(k);
    let r = reindexed(order2, k);
    lemma_reindexed_paint(faces, order2, k, base, x, y);
    lemma_skip_turned_away(faces, order, k, base, x, y);
    lemma_without_members(faces, order, k);
    assert(sorted_for(faces, order));
    assert(sorted_for(faces, r)) by {
        assert forall|p: int, q: int| 0 <= p < q < r.len() implies drawn_before(faces, #[trigger] r[p], #[trigger] r[q]) by {
            assert(drawn_before(h, order2[p], order2[q]));
            let i = order2[p];
            let j = order2[q];
            assert(h[i] == faces[r[p]]);
            assert(h[j] == faces[r[q]]);
        }
    }
    assert forall|v: int| #[trigger] r.contains(v) <==> (order.contains(v) && v != k) by {
        if r.contains(v) {
            let p = choose|p: int| 0 <= p < r.len() && r[p] == v;
            assert(0 <= order2[p] < h.len());
            assert(order.contains(v));
        }
        if order.contains(v) && v != k {
            let p = choose|p: int| 0 <= p < order.len() && order[p] == v;
            assert(0 <= v < faces.len());
            let i = if v > k { v - 1 } else { v };
            assert(order2.contains(i));
            let q = choose|q: int| 0 <= q < order2.len() && order2[q] == i;
            assert(r[q] == v);
        }
    }
    lemma_depth_order_unique(faces, r, without(order, k));
}

/// With every face turned away from the camera, no pixel changes.
pub proof fn lemma_all_turned_away_draw_nothing(faces: Seq<ScreenFace>, order: Seq<int>, base: Pixel, x: int, y: int)
    requires
        forall|p: int| 0 <= p < order.len() ==> 0 <= #[trigger] order[p] < faces.len(),
        forall|i: int| 0 <= i < faces.len() ==> !(#[trigger] faces[i]).facing_camera,
    ensures
        painted_at(faces, order, base, x, y) == base,
{
    lemma_uncovered_pixel_kept(faces, order, base, x, y);
}

} // verus!
