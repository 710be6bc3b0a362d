//! Fixed-point planar geometry: multi-polygons with integer coordinates,
//! bounding boxes, even-odd point containment, and signed areas.
//!
//! A multi-polygon is a list of polygons; each polygon is a list of rings
//! (the first is the outer boundary, the rest are holes); each ring is a
//! list of vertices and is implicitly closed (the last vertex connects back
//! to the first). Containment follows the even-odd rule over all rings of a
//! polygon, with edges half-open in `y`, so a point on the lower or left
//! boundary of an axis-aligned rectangle counts as inside while one on the
//! upper or right boundary does not.

use vstd::prelude::*;

verus! {

/// A vertex in fixed-point coordinates. The scale (units per degree) is the
/// caller's choice; this crate never interprets it.
#[derive(Clone, Copy, PartialEq, Eq, Structural, Debug)]
pub struct Pt {
    pub x: i64,
    pub y: i64,
}

/// An axis-aligned bounding box, inclusive on all four sides.
#[derive(Clone, Copy, PartialEq, Eq, Structural, Debug)]
pub struct BBox {
    pub min_x: i64,
    pub min_y: i64,
    pub max_x: i64,
    pub max_y: i64,
}

/// A multi-polygon: polygons, of rings, of vertices.
#[derive(Clone, Debug)]
pub struct MultiPolygon {
    pub polygons: Vec<Vec<Vec<Pt>>>,
}

impl View for MultiPolygon {
    type V = Seq<Seq<Seq<Pt>>>;

    open spec fn view(&self) -> Seq<Seq<Seq<Pt>>> {
        self.polygons@.map_values(|poly: Vec<Vec<Pt>>| poly@.map_values(|ring: Vec<Pt>| ring@))
    }
}

/// A box is well-formed when its lower bounds do not exceed its upper
/// bounds.
pub open spec fn bbox_wf(b: BBox) -> bool {
    b.min_x <= b.max_x && b.min_y <= b.max_y
}

impl BBox {
    /// Whether the box contains the point, boundary included.
    pub open spec fn spec_contains_pt(self, p: Pt) -> bool {
        self.min_x <= p.x <= self.max_x && self.min_y <= p.y <= self.max_y
    }

    /// Whether two boxes share at least one point, boundaries included.
    pub open spec fn spec_intersects(self, other: BBox) -> bool {
        self.min_x <= other.max_x && other.min_x <= self.max_x
            && self.min_y <= other.max_y && other.min_y <= self.max_y
    }

    /// Exact intersection test between two boxes, boundary touching included.
    pub fn intersects(&self, other: &BBox) -> (r: bool)
        ensures
            r == self.spec_intersects(*other),
    {
        self.min_x <= other.max_x && other.min_x <= self.max_x && self.min_y <= other.max_y
            && other.min_y <= self.max_y
    }

    /// Exact point-in-box test, boundary included.
    pub fn contains_pt(&self, p: &Pt) -> (r: bool)
        ensures
            r == self.spec_contains_pt(*p),
    {
        self.min_x <= p.x && p.x <= self.max_x && self.min_y <= p.y && p.y <= self.max_y
    }
}

/// Whether `p` occurs as a vertex of some ring of the multi-polygon view.
pub open spec fn mp_has_vertex(sh: Seq<Seq<Seq<Pt>>>, p: Pt) -> bool {
    exists|i: int| 0 <= i < sh.len() && poly_has_vertex(sh[i], p)
}

/// Whether `p` occurs as a vertex of some ring of the polygon view.
pub open spec fn poly_has_vertex(poly: Seq<Seq<Pt>>, p: Pt) -> bool {
    exists|j: int| 0 <= j < poly.len() && poly[j].contains(p)
}

/// Collects every vertex of the multi-polygon into one flat vector.
pub fn collect_vertices(mp: &MultiPolygon) -> (out: Vec<Pt>)
    ensures
        forall|p: Pt| #[trigger] out@.contains(p) <==> mp_has_vertex(mp@, p),
{
    let mut out: Vec<Pt> = Vec::new();
    let n = mp.polygons.len();
    for i in 0..n
        invariant
            forall|p: Pt| #[trigger] out@.contains(p) <==> mp_has_vertex(mp@.take(i as int), p),
    {
        let poly = &mp.polygons[i];
        let m = poly.len();
        for j in 0..m
            invariant
                forall|p: Pt| #[trigger] out@.contains(p) <==> mp_has_vertex(mp@.take(i as int), p)
                    || poly_has_vertex(mp@[i as int].take(j as int), p),
        {
            let ring = &poly[j];
            let l = ring.len();
            for k in 0..l
                invariant
                    forall|p: Pt| #[trigger] out@.contains(p) <==> mp_has_vertex(
                        mp@.take(i as int),
                        p,
                    ) || poly_has_vertex(mp@[i as int].take(j as int), p) || mp@[i as int][j as int]
                        .take(k as int).contains(p),
            {
                let p = ring[k];
                let ghost out_pre = out@;
                out.push(p);
                proof {
                    assert forall|q: Pt| #[trigger] out@.contains(q) implies out_pre.contains(q)
                        || q == p by {
                        let idx = choose|idx: int| 0 <= idx < out@.len() && #[trigger] out@[idx]
                            == q;
                        if idx < out_pre.len() {
                            assert(out_pre[idx] == q);
                        }
                    }
                    assert forall|q: Pt| out_pre.contains(q) || q == p implies #[trigger] out@
                        .contains(q) by {
                        if out_pre.contains(q) {
                            let idx = choose|idx: int|
                                0 <= idx < out_pre.len() && #[trigger] out_pre[idx] == q;
                            assert(out@[idx] == q);
                        } else {
                            assert(out@[out@.len() - 1] == q);
                        }
                    }
                    let ringv = mp@[i as int][j as int];
                    assert(ringv.take(k + 1 as int).drop_last() =~= ringv.take(k as int));
                    assert(ringv.take(k + 1 as int).last() == p);
                    assert forall|q: Pt| #[trigger] ringv.take(k + 1 as int).contains(q) implies
                        ringv.take(k as int).contains(q) || q == p by {
                        let idx = choose|idx: int|
                            0 <= idx < k + 1 && #[trigger] ringv.take(k + 1 as int)[idx] == q;
                        if idx < k {
                            assert(ringv.take(k as int)[idx] == q);
                        }
                    }
                    assert forall|q: Pt|
                        ringv.take(k as int).contains(q) || q == p implies #[trigger] ringv.take(
                        k + 1 as int).contains(q) by {
                        if ringv.take(k as int).contains(q) {
                            let idx = choose|idx: int|
                                0 <= idx < k && #[trigger] ringv.take(k as int)[idx] == q;
                            assert(ringv.take(k + 1 as int)[idx] == q);
                        } else {
                            assert(ringv.take(k + 1 as int)[k as int] == q);
                        }
                    }
                }
            }
            proof {
                let polyv = mp@[i as int];
                assert(polyv[j as int].take(ring@.len() as int) =~= polyv[j as int]);
                assert forall|p: Pt| poly_has_vertex(polyv.take(j + 1 as int), p) implies
                    poly_has_vertex(polyv.take(j as int), p) || polyv[j as int].contains(p) by {
                    let jj = choose|jj: int|
                        0 <= jj < j + 1 && #[trigger] polyv.take(j + 1 as int)[jj].contains(p);
                    if jj < j {
                        assert(polyv.take(j as int)[jj].contains(p));
                    }
                }
                assert forall|p: Pt|
                    poly_has_vertex(polyv.take(j as int), p) || polyv[j as int].contains(
                    p) implies poly_has_vertex(polyv.take(j + 1 as int), p) by {
                    if poly_has_vertex(polyv.take(j as int), p) {
                        let jj = choose|jj: int|
                            0 <= jj < j && #[trigger] polyv.take(j as int)[jj].contains(p);
                        assert(polyv.take(j + 1 as int)[jj].contains(p));
                    } else {
                        assert(polyv.take(j + 1 as int)[j as int].contains(p));
                    }
                }
            }
        }
        proof {
            assert(mp@[i as int].take(mp@[i as int].len() as int) =~= mp@[i as int]);
            assert forall|p: Pt| mp_has_vertex(mp@.take(i + 1 as int), p) implies
                mp_has_vertex(mp@.take(i as int), p) || poly_has_vertex(mp@[i as int], p) by {
                let ii = choose|ii: int|
                    0 <= ii < i + 1 && poly_has_vertex(#[trigger] mp@.take(i + 1 as int)[ii], p);
                if ii < i {
                    assert(poly_has_vertex(mp@.take(i as int)[ii], p));
                }
            }
            assert forall|p: Pt|
                mp_has_vertex(mp@.take(i as int), p) || poly_has_vertex(mp@[i as int],
                p) implies mp_has_vertex(mp@.take(i + 1 as int), p) by {
                if mp_has_vertex(mp@.take(i as int), p) {
                    let ii = choose|ii: int|
                        0 <= ii < i && poly_has_vertex(#[trigger] mp@.take(i as int)[ii], p);
                    assert(poly_has_vertex(mp@.take(i + 1 as int)[ii], p));
                } else {
                    assert(poly_has_vertex(mp@.take(i + 1 as int)[i as int], p));
                }
            }
        }
    }
    proof {
        assert(mp@.take(mp@.len() as int) =~= mp@);
    }
    out
}

/// Whether `b` is the (unique) tightest box around the geometry's
/// vertices: well-formed, containing every vertex, each of its four
/// bounds attained by one.
pub open spec fn is_bbox_of(b: BBox, g: Seq<Seq<Seq<Pt>>>) -> bool {
    &&& bbox_wf(b)
    &&& forall|p: Pt| #[trigger] mp_has_vertex(g, p) ==> b.spec_contains_pt(p)
    &&& exists|p: Pt| mp_has_vertex(g, p) && p.x == b.min_x
    &&& exists|p: Pt| mp_has_vertex(g, p) && p.x == b.max_x
    &&& exists|p: Pt| mp_has_vertex(g, p) && p.y == b.min_y
    &&& exists|p: Pt| mp_has_vertex(g, p) && p.y == b.max_y
}

/// The tightest box around the multi-polygon's vertices: every vertex lies
/// inside it and each of its four bounds is attained by some vertex. Returns
/// `None` exactly when the geometry has no vertices.
pub fn bounding_box(mp: &MultiPolygon) -> (r: Option<BBox>)
    ensures
        r is Some <==> exists|p: Pt| mp_has_vertex(mp@, p),
        r matches Some(b) ==> is_bbox_of(b, mp@),
        r matches Some(b) ==> {
            &&& bbox_wf(b)
            &&& forall|p: Pt| #[trigger] mp_has_vertex(mp@, p) ==> b.spec_contains_pt(p)
            &&& exists|p: Pt| mp_has_vertex(mp@, p) && p.x == b.min_x
            &&& exists|p: Pt| mp_has_vertex(mp@, p) && p.x == b.max_x
            &&& exists|p: Pt| mp_has_vertex(mp@, p) && p.y == b.min_y
            &&& exists|p: Pt| mp_has_vertex(mp@, p) && p.y == b.max_y
        },
{
    let pts = collect_vertices(mp);
    if pts.len() == 0 {
        proof {
            assert forall|p: Pt| !mp_has_vertex(mp@, p) by {
                assert(!pts@.contains(p));
            }
        }
        return None;
    }
    let first = pts[0];
    assert(pts@.contains(first));
    let mut b = BBox { min_x: first.x, min_y: first.y, max_x: first.x, max_y: first.y };
    let n = pts.len();
    for k in 1..n
        invariant
            n == pts@.len(),
            forall|t: int| 0 <= t < k ==> b.spec_contains_pt(#[trigger] pts@[t]),
            exists|t: int| 0 <= t < k && #[trigger] pts@[t].x == b.min_x,
            exists|t: int| 0 <= t < k && #[trigger] pts@[t].x == b.max_x,
            exists|t: int| 0 <= t < k && #[trigger] pts@[t].y == b.min_y,
            exists|t: int| 0 <= t < k && #[trigger] pts@[t].y == b.max_y,
    {
        let p = pts[k];
        if p.x < b.min_x {
            b.min_x = p.x;
        }
        if p.x > b.max_x {
            b.max_x = p.x;
        }
        if p.y < b.min_y {
            b.min_y = p.y;
        }
        if p.y > b.max_y {
            b.max_y = p.y;
        }
    }
    proof {
        assert forall|p: Pt| #[trigger] mp_has_vertex(mp@, p) implies b.spec_contains_pt(p) by {
            assert(pts@.contains(p));
            let t = choose|t: int| 0 <= t < pts@.len() && #[trigger] pts@[t] == p;
            assert(b.spec_contains_pt(pts@[t]));
        }
        assert(exists|p: Pt| mp_has_vertex(mp@, p)) by {
            assert(pts@.contains(pts@[0]));
        }
        let t1 = choose|t: int| 0 <= t < pts@.len() && #[trigger] pts@[t].x == b.min_x;
        assert(pts@.contains(pts@[t1]));
        assert(mp_has_vertex(mp@, pts@[t1]) && pts@[t1].x == b.min_x);
        let t2 = choose|t: int| 0 <= t < pts@.len() && #[trigger] pts@[t].x == b.max_x;
        assert(pts@.contains(pts@[t2]));
        assert(mp_has_vertex(mp@, pts@[t2]) && pts@[t2].x == b.max_x);
        let t3 = choose|t: int| 0 <= t < pts@.len() && #[trigger] pts@[t].y == b.min_y;
        assert(pts@.contains(pts@[t3]));
        assert(mp_has_vertex(mp@, pts@[t3]) && pts@[t3].y == b.min_y);
        let t4 = choose|t: int| 0 <= t < pts@.len() && #[trigger] pts@[t].y == b.max_y;
        assert(pts@.contains(pts@[t4]));
        assert(mp_has_vertex(mp@, pts@[t4]) && pts@[t4].y == b.max_y);
    }
    Some(b)
}

/// Largest coordinate magnitude the exact predicates accept; chosen so that
/// every intermediate product in the containment test fits in 128 bits.
pub const COORD_LIMIT: i64 = 0x3fff_ffff_ffff_ffff;

/// Whether one vertex is within the accepted coordinate range.
pub open spec fn pt_in_range(p: Pt) -> bool {
    -COORD_LIMIT <= p.x <= COORD_LIMIT && -COORD_LIMIT <= p.y <= COORD_LIMIT
}

/// Whether every vertex of the multi-polygon view is within range.
pub open spec fn mp_in_range(sh: Seq<Seq<Seq<Pt>>>) -> bool {
    forall|p: Pt| #[trigger] mp_has_vertex(sh, p) ==> pt_in_range(p)
}

/// Checks that every vertex is within the accepted coordinate range.
pub fn check_in_range(mp: &MultiPolygon) -> (r: bool)
    ensures
        r == mp_in_range(mp@),
{
    let pts = collect_vertices(mp);
    let n = pts.len();
    for k in 0..n
        invariant
            n == pts@.len(),
            forall|t: int| 0 <= t < k ==> pt_in_range(#[trigger] pts@[t]),
    {
        let p = pts[k];
        if p.x < -COORD_LIMIT || p.x > COORD_LIMIT || p.y < -COORD_LIMIT || p.y > COORD_LIMIT {
            proof {
                assert(pts@.contains(pts@[k as int]));
            }
            return false;
        }
    }
    proof {
        assert forall|p: Pt| #[trigger] mp_has_vertex(mp@, p) implies pt_in_range(p) by {
            assert(pts@.contains(p));
            let t = choose|t: int| 0 <= t < pts@.len() && #[trigger] pts@[t] == p;
            assert(pt_in_range(pts@[t]));
        }
    }
    true
}

/// The vertex that follows `ring[k]` along the ring, wrapping back to the
/// first vertex after the last.
pub open spec fn ring_next(ring: Seq<Pt>, k: int) -> Pt {
    if k + 1 == ring.len() {
        ring[0]
    } else {
        ring[k + 1]
    }
}

/// Whether the ring edge from `a` to `b` crosses the horizontal ray that
/// starts at `p` and extends towards positive `x`. Edges are half-open in
/// `y`: an endpoint exactly at the ray's height counts as below it.
pub open spec fn edge_crosses(a: Pt, b: Pt, p: Pt) -> bool {
    ((a.y > p.y) != (b.y > p.y)) && {
        let cross = (p.y - a.y) * (b.x - a.x) - (p.x - a.x) * (b.y - a.y);
        if b.y > a.y {
            cross > 0
        } else {
            cross < 0
        }
    }
}

/// How many of the first `k` edges of the ring cross the ray from `p`.
pub open spec fn ring_crossings(ring: Seq<Pt>, p: Pt, k: int) -> nat
    decreases k,
{
    if k <= 0 {
        0
    } else {
        ring_crossings(ring, p, k - 1) + if edge_crosses(ring[k - 1], ring_next(ring, k - 1), p) {
            1nat
        } else {
            0nat
        }
    }
}

/// Crossings of the ray from `p` summed over the first `j` rings.
pub open spec fn poly_crossings(poly: Seq<Seq<Pt>>, p: Pt, j: int) -> nat
    decreases j,
{
    if j <= 0 {
        0
    } else {
        poly_crossings(poly, p, j - 1) + ring_crossings(poly[j - 1], p, poly[j - 1].len() as int)
    }
}

/// Even-odd containment for one polygon: the ray from `p` crosses the
/// polygon's rings (outer boundary and holes together) an odd number of
/// times.
pub open spec fn poly_contains(poly: Seq<Seq<Pt>>, p: Pt) -> bool {
    poly_crossings(poly, p, poly.len() as int) % 2 == 1
}

/// Containment for a multi-polygon: some member polygon contains the point.
pub open spec fn mp_contains(sh: Seq<Seq<Seq<Pt>>>, p: Pt) -> bool {
    exists|i: int| 0 <= i < sh.len() && poly_contains(#[trigger] sh[i], p)
}

/// Bounds the product of two bounded factors.
proof fn lemma_mul_bound(a: int, b: int, m: int)
    by (nonlinear_arith)
    requires
        0 <= m,
        -m <= a <= m,
        -m <= b <= m,
    ensures
        -(m * m) <= a * b <= m * m,
{
}

/// Exact edge/ray crossing test in 128-bit arithmetic.
fn edge_crosses_exec(a: Pt, b: Pt, p: Pt) -> (r: bool)
    requires
        pt_in_range(a),
        pt_in_range(b),
        pt_in_range(p),
    ensures
        r == edge_crosses(a, b, p),
{
    if (a.y > p.y) != (b.y > p.y) {
        let dx: i128 = (b.x as i128) - (a.x as i128);
        let dy: i128 = (b.y as i128) - (a.y as i128);
        proof {
            lemma_mul_bound(p.y - a.y, dx as int, 2 * COORD_LIMIT);
            lemma_mul_bound(p.x - a.x, dy as int, 2 * COORD_LIMIT);
        }
        let cross: i128 = ((p.y as i128) - (a.y as i128)) * dx - ((p.x as i128) - (a.x as i128))
            * dy;
        if b.y > a.y {
            cross > 0
        } else {
            cross < 0
        }
    } else {
        false
    }
}

/// Exact even-odd point-in-multi-polygon test.
pub fn mp_contains_exec(mp: &MultiPolygon, p: &Pt) -> (r: bool)
    requires
        mp_in_range(mp@),
        pt_in_range(*p),
    ensures
        r == mp_contains(mp@, *p),
{
    let n = mp.polygons.len();
    for i in 0..n
        invariant
            forall|ii: int| 0 <= ii < i ==> !poly_contains(#[trigger] mp@[ii], *p),
    {
        let poly = &mp.polygons[i];
        let m = poly.len();
        let mut odd: bool = false;
        assert(poly_crossings(mp@[i as int], *p, 0) % 2 == 0);
        for j in 0..m
            invariant
                odd == (poly_crossings(mp@[i as int], *p, j as int) % 2 == 1),
        {
            let ring = &poly[j];
            let l = ring.len();
            let mut ring_odd: bool = false;
            for k in 0..l
                invariant
                    l == ring@.len(),
                    ring_odd == (ring_crossings(mp@[i as int][j as int], *p, k as int) % 2 == 1),
            {
                let a = ring[k];
                let b = if k + 1 == l {
                    ring[0]
                } else {
                    ring[k + 1]
                };
                proof {
                    let ringv = mp@[i as int][j as int];
                    assert(ringv.contains(ringv[k as int]));
                    assert(mp_has_vertex(mp@, ringv[k as int])) by {
                        assert(poly_has_vertex(mp@[i as int], ringv[k as int]));
                    }
                    assert(ringv.contains(ring_next(ringv, k as int)));
                    assert(mp_has_vertex(mp@, ring_next(ringv, k as int))) by {
                        assert(poly_has_vertex(mp@[i as int], ring_next(ringv, k as int)));
                    }
                    assert(a == ringv[k as int]);
                    assert(b == ring_next(ringv, k as int));
                }
                if edge_crosses_exec(a, b, *p) {
                    ring_odd = !ring_odd;
                }
            }
            if ring_odd {
                odd = !odd;
            }
        }
        if odd {
            assert(poly_contains(mp@[i as int], *p));
            return true;
        }
    }
    false
}

/// A crossing edge brackets the ray's height: one endpoint is strictly above
/// it and the other is at or below it.
proof fn lemma_cross_y(a: Pt, b: Pt, p: Pt)
    requires
        edge_crosses(a, b, p),
    ensures
        (a.y <= p.y < b.y) || (b.y <= p.y < a.y),
{
}

/// A crossing edge has an endpoint strictly to the right of the ray origin.
proof fn lemma_cross_x(a: Pt, b: Pt, p: Pt)
    requires
        edge_crosses(a, b, p),
    ensures
        p.x < a.x || p.x < b.x,
{
    let cross = (p.y - a.y) * (b.x - a.x) - (p.x - a.x) * (b.y - a.y);
    assert((p.y - a.y) * (b.x - a.x) - (p.x - a.x) * (b.y - a.y) == (p.y - a.y) * (b.x - p.x) + (
    p.x - a.x) * (p.y - b.y)) by (nonlinear_arith);
    if p.x >= a.x && p.x >= b.x {
        if b.y > a.y {
            assert((p.y - a.y) * (b.x - p.x) <= 0) by (nonlinear_arith)
                requires
                    p.y - a.y >= 0,
                    b.x - p.x <= 0,
            ;
            assert((p.x - a.x) * (p.y - b.y) <= 0) by (nonlinear_arith)
                requires
                    p.x - a.x >= 0,
                    p.y - b.y < 0,
            ;
        } else {
            assert((p.y - a.y) * (b.x - p.x) >= 0) by (nonlinear_arith)
                requires
                    p.y - a.y < 0,
                    b.x - p.x <= 0,
            ;
            assert((p.x - a.x) * (p.y - b.y) >= 0) by (nonlinear_arith)
                requires
                    p.x - a.x >= 0,
                    p.y - b.y >= 0,
            ;
        }
    }
}

/// An edge whose endpoints both lie strictly to the right of the ray origin
/// crosses the ray exactly when its endpoints bracket the ray's height.
proof fn lemma_cross_when_left(a: Pt, b: Pt, p: Pt)
    requires
        p.x < a.x,
        p.x < b.x,
    ensures
        edge_crosses(a, b, p) == ((a.y > p.y) != (b.y > p.y)),
{
    let cross = (p.y - a.y) * (b.x - a.x) - (p.x - a.x) * (b.y - a.y);
    assert((p.y - a.y) * (b.x - a.x) - (p.x - a.x) * (b.y - a.y) == (p.y - a.y) * (b.x - p.x) + (
    p.x - a.x) * (p.y - b.y)) by (nonlinear_arith);
    if (a.y > p.y) != (b.y > p.y) {
        if b.y > a.y {
            assert((p.y - a.y) * (b.x - p.x) >= 0) by (nonlinear_arith)
                requires
                    p.y - a.y >= 0,
                    b.x - p.x > 0,
            ;
            assert((p.x - a.x) * (p.y - b.y) > 0) by (nonlinear_arith)
                requires
                    p.x - a.x < 0,
                    p.y - b.y < 0,
            ;
        } else {
            assert((p.y - a.y) * (b.x - p.x) < 0) by (nonlinear_arith)
                requires
                    p.y - a.y < 0,
                    b.x - p.x > 0,
            ;
            assert((p.x - a.x) * (p.y - b.y) <= 0) by (nonlinear_arith)
                requires
                    p.x - a.x < 0,
                    p.y - b.y >= 0,
            ;
        }
    }
}

/// If the first `k` edges cross the ray an odd number of times, one of them
/// crosses it.
proof fn lemma_crossings_pos(ring: Seq<Pt>, p: Pt, k: int)
    requires
        ring_crossings(ring, p, k) > 0,
    ensures
        exists|t: int| 0 <= t < k && edge_crosses(ring[t], #[trigger] ring_next(ring, t), p),
    decreases k,
{
    if k > 0 {
        if edge_crosses(ring[k - 1], ring_next(ring, k - 1), p) {
            assert(0 <= k - 1 < k && edge_crosses(ring[k - 1], ring_next(ring, k - 1), p));
        } else {
            lemma_crossings_pos(ring, p, k - 1);
            let t = choose|t: int|
                0 <= t < k - 1 && edge_crosses(ring[t], #[trigger] ring_next(ring, t), p);
            assert(0 <= t < k && edge_crosses(ring[t], ring_next(ring, t), p));
        }
    }
}

/// When the ray origin lies strictly to the left of every vertex of the
/// ring, the first `k` non-closing edges cross the ray with the parity of a
/// height-bracket check between the first and the `k`-th vertex.
proof fn lemma_left_prefix_parity(ring: Seq<Pt>, p: Pt, k: int)
    requires
        0 <= k < ring.len(),
        forall|t: int| 0 <= t < ring.len() ==> p.x < #[trigger] ring[t].x,
    ensures
        ring_crossings(ring, p, k) % 2 == (if (ring[0].y > p.y) != (ring[k].y > p.y) {
            1int
        } else {
            0int
        }),
    decreases k,
{
    if k > 0 {
        lemma_left_prefix_parity(ring, p, k - 1);
        assert(ring_next(ring, k - 1) == ring[k]);
        lemma_cross_when_left(ring[k - 1], ring[k], p);
    }
}

/// When the ray origin lies strictly to the left of every vertex of the
/// ring, the ray crosses the ring's edges an even number of times.
proof fn lemma_left_ring_even(ring: Seq<Pt>, p: Pt)
    requires
        forall|t: int| 0 <= t < ring.len() ==> p.x < #[trigger] ring[t].x,
    ensures
        ring_crossings(ring, p, ring.len() as int) % 2 == 0,
{
    let n = ring.len() as int;
    if n > 0 {
        lemma_left_prefix_parity(ring, p, n - 1);
        assert(ring_next(ring, n - 1) == ring[0]);
        lemma_cross_when_left(ring[n - 1], ring[0], p);
    }
}

/// A contained point lies inside every box that bounds the vertices.
pub proof fn lemma_contains_in_bbox(sh: Seq<Seq<Seq<Pt>>>, b: BBox, p: Pt)
    requires
        mp_contains(sh, p),
        forall|q: Pt| #[trigger] mp_has_vertex(sh, q) ==> b.spec_contains_pt(q),
    ensures
        b.spec_contains_pt(p),
{
    let i = choose|i: int| 0 <= i < sh.len() && poly_contains(#[trigger] sh[i], p);
    let poly = sh[i];
    // An odd total means some ring has a crossing edge; its endpoints bound
    // the point from above, below, and the right.
    lemma_poly_cross_exists(poly, p, poly.len() as int);
    let (j, t) = choose|j: int, t: int|
        0 <= j < poly.len() && 0 <= t < poly[j].len() && edge_crosses(
            #[trigger] poly[j][t],
            ring_next(poly[j], t),
            p,
        );
    let a = poly[j][t];
    let c = ring_next(poly[j], t);
    assert(poly[j].contains(a));
    assert(poly[j].contains(c));
    assert(mp_has_vertex(sh, a)) by {
        assert(poly_has_vertex(sh[i], a));
    }
    assert(mp_has_vertex(sh, c)) by {
        assert(poly_has_vertex(sh[i], c));
    }
    lemma_cross_y(a, c, p);
    lemma_cross_x(a, c, p);
    // The left bound needs the parity argument: were the point strictly left
    // of every vertex, each ring would be crossed an even number of times.
    if p.x < b.min_x {
        lemma_poly_left_even(poly, p, poly.len() as int, sh, b, i);
        assert(false);
    }
}

/// If the first `j` rings of the polygon cross the ray an odd number of
/// times in total, some edge of some of those rings crosses it.
proof fn lemma_poly_cross_exists(poly: Seq<Seq<Pt>>, p: Pt, j: int)
    requires
        poly_crossings(poly, p, j) % 2 == 1,
    ensures
        exists|jj: int, t: int|
            0 <= jj < j && 0 <= t < poly[jj].len() && edge_crosses(
                #[trigger] poly[jj][t],
                ring_next(poly[jj], t),
                p,
            ),
    decreases j,
{
    if j > 0 {
        let rc = ring_crossings(poly[j - 1], p, poly[j - 1].len() as int);
        if rc > 0 {
            lemma_crossings_pos(poly[j - 1], p, poly[j - 1].len() as int);
            let t = choose|t: int|
                0 <= t < poly[j - 1].len() && edge_crosses(
                    poly[j - 1][t],
                    #[trigger] ring_next(poly[j - 1], t),
                    p,
                );
            assert(0 <= j - 1 < j && 0 <= t < poly[j - 1].len() && edge_crosses(
                poly[j - 1][t],
                ring_next(poly[j - 1], t),
                p,
            ));
        } else {
            lemma_poly_cross_exists(poly, p, j - 1);
            let (jj, t) = choose|jj: int, t: int|
                0 <= jj < j - 1 && 0 <= t < poly[jj].len() && edge_crosses(
                    #[trigger] poly[jj][t],
                    ring_next(poly[jj], t),
                    p,
                );
            assert(0 <= jj < j && 0 <= t < poly[jj].len() && edge_crosses(
                poly[jj][t],
                ring_next(poly[jj], t),
                p,
            ));
        }
    }
}

/// A point strictly left of a box that bounds the vertices of polygon `i`
/// of `sh` is crossed an even number of times by its first `j` rings.
proof fn lemma_poly_left_even(
    poly: Seq<Seq<Pt>>,
    p: Pt,
    j: int,
    sh: Seq<Seq<Seq<Pt>>>,
    b: BBox,
    i: int,
)
    requires
        0 <= i < sh.len(),
        poly == sh[i],
        0 <= j <= poly.len(),
        forall|q: Pt| #[trigger] mp_has_vertex(sh, q) ==> b.spec_contains_pt(q),
        p.x < b.min_x,
    ensures
        poly_crossings(poly, p, j) % 2 == 0,
    decreases j,
{
    if j > 0 {
        lemma_poly_left_even(poly, p, j - 1, sh, b, i);
        let ring = poly[j - 1];
        assert forall|t: int| 0 <= t < ring.len() implies p.x < #[trigger] ring[t].x by {
            assert(ring.contains(ring[t]));
            assert(mp_has_vertex(sh, ring[t])) by {
                assert(poly_has_vertex(sh[i], ring[t]));
            }
        }
        lemma_left_ring_even(ring, p);
    }
}

/// Largest coordinate magnitude the area computation accepts. Covers the
/// whole longitude range at a fixed-point scale of ten million units per
/// degree.
pub const AREA_COORD_LIMIT: i64 = 0x7fff_ffff;

/// Largest vertex count the area computation accepts. A vertex occupies
/// sixteen bytes, so no geometry held in memory on a 64-bit machine can
/// exceed it.
pub const AREA_VERTEX_LIMIT: u64 = 0x1000_0000_0000_0000;

/// The shoelace contribution of the edge from `a` to `b`.
pub open spec fn edge_area_term(a: Pt, b: Pt) -> int {
    a.x * b.y - b.x * a.y
}

/// Twice the signed area swept by the first `k` edges of the ring.
pub open spec fn ring_double_area(ring: Seq<Pt>, k: int) -> int
    decreases k,
{
    if k <= 0 {
        0
    } else {
        ring_double_area(ring, k - 1) + edge_area_term(ring[k - 1], ring_next(ring, k - 1))
    }
}

/// Twice the signed area summed over the first `j` rings of the polygon.
pub open spec fn poly_double_area(poly: Seq<Seq<Pt>>, j: int) -> int
    decreases j,
{
    if j <= 0 {
        0
    } else {
        poly_double_area(poly, j - 1) + ring_double_area(poly[j - 1], p_len(poly, j - 1))
    }
}

/// The length of ring `j` of the polygon, as an `int`.
pub open spec fn p_len(poly: Seq<Seq<Pt>>, j: int) -> int {
    poly[j].len() as int
}

/// Twice the signed area summed over the first `i` polygons.
pub open spec fn mp_double_area(sh: Seq<Seq<Seq<Pt>>>, i: int) -> int
    decreases i,
{
    if i <= 0 {
        0
    } else {
        mp_double_area(sh, i - 1) + poly_double_area(sh[i - 1], sh[i - 1].len() as int)
    }
}

/// Twice the signed area of the whole multi-polygon: the shoelace sum over
/// every ring, counter-clockwise rings counting positive and clockwise rings
/// negative. With outer boundaries counter-clockwise and holes clockwise this
/// is twice the enclosed area.
pub open spec fn mp_signed_double_area(sh: Seq<Seq<Seq<Pt>>>) -> int {
    mp_double_area(sh, sh.len() as int)
}

/// Vertices in the first `j` rings of the polygon.
pub open spec fn poly_vertex_count(poly: Seq<Seq<Pt>>, j: int) -> int
    decreases j,
{
    if j <= 0 {
        0
    } else {
        poly_vertex_count(poly, j - 1) + poly[j - 1].len()
    }
}

/// Vertices in the first `i` polygons.
pub open spec fn mp_vertex_count(sh: Seq<Seq<Seq<Pt>>>, i: int) -> int
    decreases i,
{
    if i <= 0 {
        0
    } else {
        mp_vertex_count(sh, i - 1) + poly_vertex_count(sh[i - 1], sh[i - 1].len() as int)
    }
}

/// Whether the multi-polygon is small enough for the exact area computation.
pub open spec fn mp_area_safe(sh: Seq<Seq<Seq<Pt>>>) -> bool {
    &&& forall|p: Pt| #[trigger] mp_has_vertex(sh, p) ==> -AREA_COORD_LIMIT <= p.x
        <= AREA_COORD_LIMIT && -AREA_COORD_LIMIT <= p.y <= AREA_COORD_LIMIT
    &&& mp_vertex_count(sh, sh.len() as int) <= AREA_VERTEX_LIMIT
}

proof fn lemma_poly_vc_nonneg_mono(poly: Seq<Seq<Pt>>, j1: int, j2: int)
    requires
        0 <= j1 <= j2,
    ensures
        0 <= poly_vertex_count(poly, j1) <= poly_vertex_count(poly, j2),
    decreases j2,
{
    if j2 > 0 {
        if j1 == j2 {
            lemma_poly_vc_nonneg_mono(poly, j1 - 1, j2 - 1);
        } else {
            lemma_poly_vc_nonneg_mono(poly, j1, j2 - 1);
        }
    }
}

proof fn lemma_mp_vc_nonneg_mono(sh: Seq<Seq<Seq<Pt>>>, i1: int, i2: int)
    requires
        0 <= i1 <= i2,
    ensures
        0 <= mp_vertex_count(sh, i1) <= mp_vertex_count(sh, i2),
    decreases i2,
{
    if i2 > 0 {
        if i1 == i2 {
            lemma_mp_vc_nonneg_mono(sh, i1 - 1, i2 - 1);
            lemma_poly_vc_nonneg_mono(sh[i2 - 1], 0, sh[i2 - 1].len() as int);
        } else {
            lemma_mp_vc_nonneg_mono(sh, i1, i2 - 1);
            lemma_poly_vc_nonneg_mono(sh[i2 - 1], 0, sh[i2 - 1].len() as int);
        }
    }
}

/// Twice the signed shoelace area of the multi-polygon, computed exactly.
#[verifier::rlimit(60)]
pub fn signed_double_area(mp: &MultiPolygon) -> (r: i128)
    requires
        mp_area_safe(mp@),
    ensures
        r == mp_signed_double_area(mp@),
{
    let ghost total = mp_vertex_count(mp@, mp@.len() as int);
    proof {
        lemma_mp_vc_nonneg_mono(mp@, 0, mp@.len() as int);
    }
    let mut acc: i128 = 0;
    let ghost bound: int = 0x8000_0000_0000_0000;
    let n = mp.polygons.len();
    for i in 0..n
        invariant
            acc == mp_double_area(mp@, i as int),
            -mp_vertex_count(mp@, i as int) * bound <= acc <= mp_vertex_count(mp@, i as int)
                * bound,
            mp_vertex_count(mp@, i as int) <= total <= AREA_VERTEX_LIMIT,
            bound == 0x8000_0000_0000_0000,
    {
        let poly = &mp.polygons[i];
        let m = poly.len();
        proof {
            lemma_mp_vc_nonneg_mono(mp@, i as int, mp@.len() as int);
        }
        let ghost base = mp_vertex_count(mp@, i as int);
        for j in 0..m
            invariant
                m == mp@[i as int].len(),
                acc == mp_double_area(mp@, i as int) + poly_double_area(mp@[i as int], j as int),
                base == mp_vertex_count(mp@, i as int),
                -(base + poly_vertex_count(mp@[i as int], j as int)) * bound <= acc <= (base
                    + poly_vertex_count(mp@[i as int], j as int)) * bound,
                0 <= base + poly_vertex_count(mp@[i as int], j as int) <= total
                    <= AREA_VERTEX_LIMIT,
                bound == 0x8000_0000_0000_0000,
        {
            let ring = &poly[j];
            let l = ring.len();
            let ghost rbase = base + poly_vertex_count(mp@[i as int], j as int);
            proof {
                lemma_poly_vc_nonneg_mono(mp@[i as int], j + 1 as int, mp@[i as int].len() as int);
                lemma_mp_vc_nonneg_mono(mp@, i + 1 as int, mp@.len() as int);
                assert(mp_vertex_count(mp@, i + 1 as int) == base + poly_vertex_count(
                    mp@[i as int],
                    mp@[i as int].len() as int,
                ));
                assert(poly_vertex_count(mp@[i as int], j + 1 as int) == poly_vertex_count(
                    mp@[i as int],
                    j as int,
                ) + l);
            }
            for k in 0..l
                invariant
                    l == mp@[i as int][j as int].len(),
                    acc == mp_double_area(mp@, i as int) + poly_double_area(
                        mp@[i as int],
                        j as int,
                    ) + ring_double_area(mp@[i as int][j as int], k as int),
                    rbase == base + poly_vertex_count(mp@[i as int], j as int),
                    -(rbase + k) * bound <= acc <= (rbase + k) * bound,
                    0 <= rbase + l <= total <= AREA_VERTEX_LIMIT,
                    bound == 0x8000_0000_0000_0000,
            {
                let a = ring[k];
                let b = if k + 1 == l {
                    ring[0]
                } else {
                    ring[k + 1]
                };
                proof {
                    let ringv = mp@[i as int][j as int];
                    assert(ringv.contains(ringv[k as int]));
                    assert(mp_has_vertex(mp@, ringv[k as int])) by {
                        assert(poly_has_vertex(mp@[i as int], ringv[k as int]));
                    }
                    assert(ringv.contains(ring_next(ringv, k as int)));
                    assert(mp_has_vertex(mp@, ring_next(ringv, k as int))) by {
                        assert(poly_has_vertex(mp@[i as int], ring_next(ringv, k as int)));
                    }
                    assert(a == ringv[k as int]);
                    assert(b == ring_next(ringv, k as int));
                    lemma_mul_bound(a.x as int, b.y as int, AREA_COORD_LIMIT as int);
                    lemma_mul_bound(b.x as int, a.y as int, AREA_COORD_LIMIT as int);
                }
                let term: i128 = (a.x as i128) * (b.y as i128) - (b.x as i128) * (a.y as i128);
                acc = acc + term;
            }
            proof {
                assert(ring_double_area(mp@[i as int][j as int], l as int) == poly_double_area(
                    mp@[i as int],
                    j + 1 as int,
                ) - poly_double_area(mp@[i as int], j as int));
            }
        }
        proof {
            assert(poly_double_area(mp@[i as int], mp@[i as int].len() as int) == mp_double_area(
                mp@,
                i + 1 as int,
            ) - mp_double_area(mp@, i as int));
        }
    }
    acc
}

} // verus!
