//! Water masking: subtracts water polygons from each area's geometry so
//! that no dot is ever placed on water.
//!
//! Water polygons are indexed once by bounding box. For each area, the
//! index yields the water polygons whose box meets the area's box — a
//! pure optimisation, as the authoritative test is the exact polygon
//! intersection — and each truly intersecting one is subtracted from the
//! area's geometry in turn. An area may shrink to nothing; that is a valid
//! outcome, not an error.

use crate::geom::{
    bbox_wf, bounding_box, check_in_range, is_bbox_of, mp_in_range, BBox, MultiPolygon, Pt,
    COORD_LIMIT,
};
use crate::types::SmallArea;
use i_overlay::i_float::int::point::IntPoint as Ip;
use rstar::primitives::{GeomWithData, Rectangle};
use rstar::AABB;
use vstd::prelude::*;

verus! {

/// The view of one polygon held as a vector of rings.
pub open spec fn rings_view(p: Vec<Vec<Pt>>) -> Seq<Seq<Pt>> {
    p@.map_values(|ring: Vec<Pt>| ring@)
}

/// Whether every vertex of a single polygon is within the accepted range.
pub open spec fn rings_in_range(p: Seq<Seq<Pt>>) -> bool {
    forall|j: int, k: int|
        0 <= j < p.len() && 0 <= k < p[j].len() ==> crate::geom::pt_in_range(#[trigger] p[j][k])
}

/// What subtracting one water polygon from a region given by its rings
/// leaves, under the even-odd fill rule: the rings of the difference.
pub uninterp spec fn difference_of(subject: Seq<Seq<Pt>>, clip: Seq<Seq<Pt>>) -> Seq<Seq<Pt>>;

/// The rings of a multi-polygon, taken together: under the even-odd rule
/// they describe the same region.
pub open spec fn flat_rings(g: Seq<Seq<Seq<Pt>>>, i: int) -> Seq<Seq<Pt>>
    decreases i,
{
    if i <= 0 {
        Seq::empty()
    } else {
        flat_rings(g, i - 1) + g[i - 1]
    }
}

/// Copies one ring.
fn clone_ring(r: &Vec<Pt>) -> (o: Vec<Pt>)
    ensures
        o@ == r@,
{
    let mut o: Vec<Pt> = Vec::new();
    let n = r.len();
    for i in 0..n
        invariant
            o@ =~= r@.take(i as int),
    {
        o.push(r[i]);
        proof {
            assert(o@ =~= r@.take(i + 1 as int));
        }
    }
    proof {
        assert(o@ =~= r@);
    }
    o
}

/// Collects every ring of the multi-polygon into one flat vector.
fn flatten_mp(mp: &MultiPolygon) -> (out: Vec<Vec<Pt>>)
    ensures
        rings_view(out) == flat_rings(mp@, mp@.len() as int),
{
    let mut out: Vec<Vec<Pt>> = Vec::new();
    let n = mp.polygons.len();
    for i in 0..n
        invariant
            rings_view(out) =~= flat_rings(mp@, i as int),
    {
        let poly = &mp.polygons[i];
        let l = poly.len();
        for j in 0..l
            invariant
                l == mp@[i as int].len(),
                rings_view(out) =~= flat_rings(mp@, i as int) + mp@[i as int].take(j as int),
        {
            let ghost out_pre = out@;
            out.push(clone_ring(&poly[j]));
            proof {
                assert(forall|q: int| 0 <= q < out_pre.len() ==> #[trigger] out@[q] == out_pre[q]);
                assert(out@.last()@ == mp@[i as int][j as int]);
                assert(mp@[i as int].take(j + 1 as int).drop_last() =~= mp@[i as int].take(
                    j as int,
                ));
                assert(rings_view(out) =~= (flat_rings(mp@, i as int) + mp@[i as int].take(
                    j as int,
                )).push(mp@[i as int][j as int]));
                assert((flat_rings(mp@, i as int) + mp@[i as int].take(j as int)).push(
                    mp@[i as int][j as int],
                ) =~= flat_rings(mp@, i as int) + mp@[i as int].take(j + 1 as int));
            }
        }
        proof {
            assert(mp@[i as int].take(mp@[i as int].len() as int) =~= mp@[i as int]);
            assert(rings_view(out) =~= flat_rings(mp@, i + 1 as int));
        }
    }
    out
}

/// Copies one polygon, ring by ring.
fn clone_poly(p: &Vec<Vec<Pt>>) -> (o: Vec<Vec<Pt>>)
    ensures
        rings_view(o) == rings_view(*p),
{
    let mut o: Vec<Vec<Pt>> = Vec::new();
    let n = p.len();
    for i in 0..n
        invariant
            n == p@.len(),
            o@.len() == i,
            forall|q: int| 0 <= q < i ==> (#[trigger] o@[q])@ == p@[q]@,
    {
        o.push(clone_ring(&p[i]));
    }
    proof {
        assert(rings_view(o) =~= rings_view(*p));
    }
    o
}

/// The polygons of the first `n` water features, flattened in order.
pub open spec fn features_flat(features: Seq<MultiPolygon>, n: int) -> Seq<Seq<Seq<Pt>>>
    decreases n,
{
    if n <= 0 {
        Seq::empty()
    } else {
        features_flat(features, n - 1) + features[n - 1]@
    }
}

/// Flattens water features into individual polygons: the result holds, in
/// order, every polygon of every feature.
pub fn flatten_water(features: Vec<MultiPolygon>) -> (polys: Vec<Vec<Vec<Pt>>>)
    ensures
        polys@.map_values(|p: Vec<Vec<Pt>>| rings_view(p)) == features_flat(
            features@,
            features@.len() as int,
        ),
{
    let mut polys: Vec<Vec<Vec<Pt>>> = Vec::new();
    let n = features.len();
    for i in 0..n
        invariant
            n == features@.len(),
            polys@.map_values(|p: Vec<Vec<Pt>>| rings_view(p)) =~= features_flat(
                features@,
                i as int,
            ),
    {
        let feature = &features[i];
        let m = feature.polygons.len();
        for j in 0..m
            invariant
                m == features@[i as int]@.len(),
                feature == features@[i as int],
                polys@.map_values(|p: Vec<Vec<Pt>>| rings_view(p)) =~= features_flat(
                    features@,
                    i as int,
                ) + features@[i as int]@.take(j as int),
        {
            let ghost pre = polys@;
            polys.push(clone_poly(&feature.polygons[j]));
            proof {
                assert(forall|q: int| 0 <= q < pre.len() ==> #[trigger] polys@[q] == pre[q]);
                assert(rings_view(polys@.last()) == features@[i as int]@[j as int]) by {
                    assert(rings_view(feature.polygons@[j as int]) == features@[i as int]@[
                    j as int]);
                }
                assert(features@[i as int]@.take(j + 1 as int).drop_last()
                    =~= features@[i as int]@.take(j as int));
                assert(polys@.map_values(|p: Vec<Vec<Pt>>| rings_view(p)) =~= (features_flat(
                    features@,
                    i as int,
                ) + features@[i as int]@.take(j as int)).push(features@[i as int]@[j as int]));
                assert((features_flat(features@, i as int) + features@[i as int]@.take(
                    j as int,
                )).push(features@[i as int]@[j as int]) =~= features_flat(features@, i as int)
                    + features@[i as int]@.take(j + 1 as int));
            }
        }
        proof {
            assert(features@[i as int]@.take(features@[i as int]@.len() as int)
                =~= features@[i as int]@);
            assert(polys@.map_values(|p: Vec<Vec<Pt>>| rings_view(p)) =~= features_flat(
                features@,
                i + 1 as int,
            ));
        }
    }
    polys
}

/// The overlap of a region given by its rings and one polygon, under the
/// even-odd fill rule; empty exactly when they do not overlap.
pub uninterp spec fn intersection_of(subject: Seq<Seq<Pt>>, clip: Seq<Seq<Pt>>) -> Seq<
    Seq<Seq<Pt>>,
>;

/// Relies on i_overlay's `SingleIntOverlay::overlay` with the difference
/// rule and the even-odd fill rule, every ring handed over as one contour
/// list: the returned shapes are the subject region minus the clip
/// polygon. Coordinates must keep the 64-bit engine's
/// accepted range; the result depends on the arguments alone.
#[verifier::external_body]
fn overlay_difference(subject: &Vec<Vec<Pt>>, clip: &Vec<Vec<Pt>>) -> (r: Vec<Vec<Pt>>)
    requires
        rings_in_range(rings_view(*subject)),
        rings_in_range(rings_view(*clip)),
    ensures
        rings_view(r) == difference_of(rings_view(*subject), rings_view(*clip)),
{
    let s: Vec<Vec<Ip<i64>>> = subject.iter().map(|c| c.iter().map(|q| Ip::new(q.x, q.y)).collect()).collect();
    i_overlay::core::single::SingleIntOverlay::overlay(&s, &clip.iter().map(|c| c.iter().map(|q| Ip::new(q.x, q.y)).collect()).collect::<Vec<Vec<Ip<i64>>>>(), i_overlay::core::overlay_rule::OverlayRule::Difference, i_overlay::core::fill_rule::FillRule::EvenOdd).into_iter().flatten().map(|c| c.into_iter().map(|q| Pt { x: q.x, y: q.y }).collect()).collect()
}

/// Relies on i_overlay's `SingleIntOverlay::overlay` with the intersect
/// rule and the even-odd fill rule: the returned shapes are the overlap of
/// the subject and the clip polygon, and there are none exactly when the
/// two do not overlap. Coordinates must keep the 64-bit engine's accepted
/// range; the result depends on the arguments alone.
#[verifier::external_body]
fn overlay_intersects(subject: &Vec<Vec<Pt>>, clip: &Vec<Vec<Pt>>) -> (r: bool)
    requires
        rings_in_range(rings_view(*subject)),
        rings_in_range(rings_view(*clip)),
    ensures
        r == (intersection_of(rings_view(*subject), rings_view(*clip)).len() > 0),
{
    let s: Vec<Vec<Ip<i64>>> = subject.iter().map(|c| c.iter().map(|q| Ip::new(q.x, q.y)).collect()).collect();
    !i_overlay::core::single::SingleIntOverlay::overlay(&s, &clip.iter().map(|c| c.iter().map(|q| Ip::new(q.x, q.y)).collect()).collect::<Vec<Vec<Ip<i64>>>>(), i_overlay::core::overlay_rule::OverlayRule::Intersect, i_overlay::core::fill_rule::FillRule::EvenOdd).is_empty()
}

/// An r-tree over inclusive boxes, each entry tagged with its position in
/// the vector it was built from. Holds an `rstar::RTree` of
/// `GeomWithData<Rectangle<[i64; 2]>, usize>` entries, which Verus sees
/// only through `tree_boxes` and the wrappers below.
#[verifier::external_body]
pub struct BoxTree {
    tree: rstar::RTree<rstar::primitives::GeomWithData<rstar::primitives::Rectangle<[i64; 2]>, usize>>,
}

/// The rectangles a box tree stores, by their tag.
pub uninterp spec fn tree_boxes(t: BoxTree) -> Map<int, BBox>;

/// Relies on rstar::RTree::bulk_load: the tree stores exactly the given
/// boxes, entry `i` carrying the box at position `i`. The boxes must be
/// well-formed, as rstar normalizes a rectangle's corners componentwise
/// and would store an inverted box under different bounds.
#[verifier::external_body]
pub(crate) fn bulk_load_boxes(boxes: &Vec<BBox>) -> (t: BoxTree)
    requires
        forall|i: int| 0 <= i < boxes@.len() ==> bbox_wf(#[trigger] boxes@[i]),
    ensures
        tree_boxes(t) == Map::new(
            (|i: int| 0 <= i < boxes@.len()),
            (|i: int| boxes@[i]),
        ),
{
    let items: Vec<GeomWithData<Rectangle<[i64; 2]>, usize>> = boxes.iter().enumerate().map(|(i, b)| GeomWithData::new(Rectangle::from_corners([b.min_x, b.min_y], [b.max_x, b.max_y]), i)).collect();
    BoxTree { tree: rstar::RTree::bulk_load(items) }
}

/// Relies on rstar::RTree::locate_in_envelope_intersecting: it yields,
/// once each, exactly the stored entries whose rectangle meets the query
/// box; rstar compares envelope bounds inclusively, as
/// `BBox::spec_intersects` does. Both the stored boxes and the query box
/// must be well-formed, as rstar normalizes corners componentwise.
#[verifier::external_body]
pub(crate) fn locate_intersecting(t: &BoxTree, q: &BBox) -> (r: Vec<usize>)
    requires
        bbox_wf(*q),
        forall|i: int| tree_boxes(*t).dom().contains(i) ==> bbox_wf(#[trigger] tree_boxes(*t)[i]),
    ensures
        r@.no_duplicates(),
        forall|i: usize|
            (#[trigger] r@.contains(i)) == (tree_boxes(*t).dom().contains(i as int)
                && tree_boxes(*t)[i as int].spec_intersects(*q)),
{
    let env = AABB::from_corners([q.min_x, q.min_y], [q.max_x, q.max_y]);
    t.tree.locate_in_envelope_intersecting(env).map(|e| e.data).collect()
}

/// The indexed set of water polygons: each polygon's rings, its bounding
/// box, and the box tree over them.
pub struct WaterMask {
    pub polygons: Vec<Vec<Vec<Pt>>>,
    pub boxes: Vec<BBox>,
    pub tree: BoxTree,
}

impl WaterMask {
    /// The index is well-formed: one box per polygon, each bounding its
    /// polygon's vertices, and the tree storing exactly those boxes.
    pub open spec fn wf(self) -> bool {
        &&& self.boxes@.len() == self.polygons@.len()
        &&& forall|i: int| 0 <= i < self.boxes@.len() ==> bbox_wf(#[trigger] self.boxes@[i])
        &&& tree_boxes(self.tree) == Map::new(
            (|i: int| 0 <= i < self.boxes@.len()),
            (|i: int| self.boxes@[i]),
        )
        &&& forall|i: int, j: int, k: int|
            0 <= i < self.polygons@.len() && 0 <= j < self.polygons@[i]@.len() && 0 <= k
                < self.polygons@[i]@[j]@.len() ==> self.boxes@[i].spec_contains_pt(
                #[trigger] self.polygons@[i]@[j]@[k],
            )
    }

    /// Builds the water index from flattened polygons: every polygon is
    /// kept, under a box that bounds its vertices (an empty polygon gets a
    /// degenerate box at the origin).
    pub fn build(polygons: Vec<Vec<Vec<Pt>>>) -> (m: WaterMask)
        ensures
            m.wf(),
            m.polygons@ == polygons@,
    {
        let mut boxes: Vec<BBox> = Vec::new();
        let n = polygons.len();
        for i in 0..n
            invariant
                n == polygons@.len(),
                boxes@.len() == i,
                forall|t: int| 0 <= t < i ==> bbox_wf(#[trigger] boxes@[t]),
                forall|t: int, j: int, k: int|
                    0 <= t < i && 0 <= j < polygons@[t]@.len() && 0 <= k
                        < polygons@[t]@[j]@.len() ==> boxes@[t].spec_contains_pt(
                        #[trigger] polygons@[t]@[j]@[k],
                    ),
        {
            let single = MultiPolygon { polygons: vec![polygons[i].clone()] };
            let b = match bounding_box(&single) {
                Some(b) => b,
                None => BBox { min_x: 0, min_y: 0, max_x: 0, max_y: 0 },
            };
            proof {
                assert forall|j: int, k: int|
                    0 <= j < polygons@[i as int]@.len() && 0 <= k
                        < polygons@[i as int]@[j]@.len() implies b.spec_contains_pt(
                    polygons@[i as int]@[j]@[k],
                ) by {
                    let p = polygons@[i as int]@[j]@[k];
                    assert(single@[0][j].contains(p)) by {
                        assert(single@[0][j] == polygons@[i as int]@[j]@);
                    }
                    assert(crate::geom::poly_has_vertex(single@[0], p));
                    assert(crate::geom::mp_has_vertex(single@, p));
                }
            }
            boxes.push(b);
        }
        let tree = bulk_load_boxes(&boxes);
        WaterMask { polygons, boxes, tree }
    }

    /// The water polygons whose box meets the query box: exactly those, by
    /// index, each once.
    pub fn candidates(&self, q: &BBox) -> (r: Vec<usize>)
        requires
            self.wf(),
            bbox_wf(*q),
        ensures
            r@.no_duplicates(),
            forall|i: usize| #[trigger]
                r@.contains(i) <==> 0 <= i < self.boxes@.len() && self.boxes@[
                    i as int
                ].spec_intersects(*q),
    {
        proof {
            assert forall|i: int| tree_boxes(self.tree).dom().contains(i) implies bbox_wf(
                #[trigger] tree_boxes(self.tree)[i],
            ) by {
                assert(tree_boxes(self.tree)[i] == self.boxes@[i]);
            }
        }
        locate_intersecting(&self.tree, q)
    }
}

/// One masking step: where the area's geometry is in range and truly
/// overlaps the water polygon, the water is subtracted from the region
/// its rings describe; anywhere else the geometry is kept unchanged.
pub open spec fn mask_step(g: Seq<Seq<Seq<Pt>>>, w: Seq<Seq<Pt>>) -> Seq<Seq<Seq<Pt>>> {
    let rings = flat_rings(g, g.len() as int);
    if rings_in_range(rings) && rings_in_range(w) && intersection_of(rings, w).len() > 0 {
        seq![difference_of(rings, w)]
    } else {
        g
    }
}

/// The geometry after subtracting, in order, the water polygons named by
/// the first `k` candidate indices.
pub open spec fn mask_fold(
    g: Seq<Seq<Seq<Pt>>>,
    waters: Seq<Seq<Seq<Pt>>>,
    cands: Seq<usize>,
    k: int,
) -> Seq<Seq<Seq<Pt>>>
    decreases k,
{
    if k <= 0 {
        g
    } else {
        mask_step(mask_fold(g, waters, cands, k - 1), waters[cands[k - 1] as int])
    }
}

/// The view of every water polygon of the mask.
pub open spec fn waters_view(m: WaterMask) -> Seq<Seq<Seq<Pt>>> {
    m.polygons@.map_values(|p: Vec<Vec<Pt>>| rings_view(p))
}

/// Whether `g_new` is `g_old` with exactly the water polygons whose
/// stored box meets `g_old`'s bounding box subtracted in turn, in some
/// order without repetition. A geometry without vertices has no bounding
/// box and is untouched.
pub open spec fn masked_geometry(
    g_old: Seq<Seq<Seq<Pt>>>,
    g_new: Seq<Seq<Seq<Pt>>>,
    mask: WaterMask,
) -> bool {
    if exists|p: Pt| crate::geom::mp_has_vertex(g_old, p) {
        exists|cands: Seq<usize>, b: BBox|
            {
                &&& is_bbox_of(b, g_old)
                &&& cands.no_duplicates()
                &&& (forall|i: usize|
                    #[trigger] cands.contains(i) <==> 0 <= i < mask.boxes@.len() && mask.boxes@[
                        i as int
                    ].spec_intersects(b))
                &&& g_new == mask_fold(g_old, waters_view(mask), cands, cands.len() as int)
            }
    } else {
        g_new == g_old
    }
}

/// Masks every area in place: each area's geometry becomes the fold of
/// `mask_step` over the water polygons whose box meets the area's box, in
/// some candidate order without repetition; identifiers and population
/// data are untouched. An area with no vertices is left as it is.
pub fn mask_small_areas(areas: &mut Vec<SmallArea>, mask: &WaterMask)
    requires
        mask.wf(),
    ensures
        final(areas)@.len() == old(areas)@.len(),
        forall|a: int|
            0 <= a < old(areas)@.len() ==> (#[trigger] final(areas)@[a]).id
                == old(areas)@[a].id && final(areas)@[a].population_data
                == old(areas)@[a].population_data,
        forall|a: int|
            0 <= a < old(areas)@.len() ==> masked_geometry(
                old(areas)@[a].geometry@,
                (#[trigger] final(areas)@[a]).geometry@,
                *mask,
            ),
{
    let n = areas.len();
    for a in 0..n
        invariant
            mask.wf(),
            n == areas@.len(),
            areas@.len() == old(areas)@.len(),
            forall|t: int| a <= t < areas@.len() ==> #[trigger] areas@[t] == old(areas)@[t],
            forall|t: int|
                0 <= t < a ==> (#[trigger] areas@[t]).id == old(areas)@[t].id
                    && areas@[t].population_data == old(areas)@[t].population_data,
            forall|t: int|
                0 <= t < a ==> masked_geometry(
                    old(areas)@[t].geometry@,
                    (#[trigger] areas@[t]).geometry@,
                    *mask,
                ),
    {
        let area_box = match bounding_box(&areas[a].geometry) {
            Some(b) => Some(b),
            None => None,
        };
        match area_box {
            None => {
                // An area with no vertices has nothing to mask.
                proof {
                    assert(!(exists|p: Pt|
                        crate::geom::mp_has_vertex(old(areas)@[a as int].geometry@, p)));
                    assert(masked_geometry(
                        old(areas)@[a as int].geometry@,
                        areas@[a as int].geometry@,
                        *mask,
                    ));
                }
            },
            Some(b) => {
                let cands = mask.candidates(&b);
                let nc = cands.len();
                let ghost g0 = areas@[a as int].geometry@;
                for c in 0..nc
                    invariant
                        mask.wf(),
                        n == areas@.len(),
                        areas@.len() == old(areas)@.len(),
                        nc == cands@.len(),
                        cands@.no_duplicates(),
                        forall|i: usize| #[trigger]
                            cands@.contains(i) ==> 0 <= i < mask.polygons@.len(),
                        0 <= a < areas@.len(),
                        g0 == old(areas)@[a as int].geometry@,
                        areas@[a as int].geometry@ == mask_fold(
                            g0,
                            waters_view(*mask),
                            cands@,
                            c as int,
                        ),
                        areas@[a as int].id == old(areas)@[a as int].id,
                        areas@[a as int].population_data == old(
                            areas,
                        )@[a as int].population_data,
                        forall|t: int|
                            a < t < areas@.len() ==> #[trigger] areas@[t] == old(areas)@[t],
                        forall|t: int|
                            0 <= t < a ==> (#[trigger] areas@[t]).id == old(areas)@[t].id
                                && areas@[t].population_data == old(areas)@[t].population_data,
                        forall|t: int|
                            0 <= t < a ==> masked_geometry(
                                old(areas)@[t].geometry@,
                                (#[trigger] areas@[t]).geometry@,
                                *mask,
                            ),
                {
                    let wi = cands[c];
                    proof {
                        assert(cands@.contains(cands@[c as int]));
                    }
                    let water = &mask.polygons[wi];
                    let ghost gc = areas@[a as int].geometry@;
                    proof {
                        assert(waters_view(*mask)[wi as int] == rings_view(*water));
                    }
                    let rings = flatten_mp(&areas[a].geometry);
                    proof {
                        assert(rings_view(rings) == flat_rings(gc, gc.len() as int));
                    }
                    let geom_ok = check_rings_in_range(&rings);
                    let water_ok = check_rings_in_range(water);
                    if geom_ok && water_ok {
                        if overlay_intersects(&rings, water) {
                            let diff = overlay_difference(&rings, water);
                            let new_geom = MultiPolygon { polygons: vec![diff] };
                            proof {
                                assert(intersection_of(rings_view(rings), rings_view(*water)).len()
                                    > 0);
                                assert(new_geom@ =~= seq![
                                    difference_of(rings_view(rings), rings_view(*water)),
                                ]);
                                assert(new_geom@ == mask_step(gc, rings_view(*water)));
                            }
                            let slot = &mut areas[a];
                            slot.geometry = new_geom;
                        } else {
                            proof {
                                assert(areas@[a as int].geometry@ == mask_step(
                                    gc,
                                    rings_view(*water),
                                ));
                            }
                        }
                    } else {
                        proof {
                            assert(areas@[a as int].geometry@ == mask_step(
                                gc,
                                rings_view(*water),
                            ));
                        }
                    }
                }
                proof {
                    assert(areas@[a as int].geometry@ == mask_fold(
                        g0,
                        waters_view(*mask),
                        cands@,
                        cands@.len() as int,
                    ));
                    assert(is_bbox_of(b, g0));
                    assert(masked_geometry(
                        old(areas)@[a as int].geometry@,
                        areas@[a as int].geometry@,
                        *mask,
                    ));
                }
            },
        }
    }
}

/// Checks that every vertex of one polygon is within range.
fn check_rings_in_range(p: &Vec<Vec<Pt>>) -> (r: bool)
    ensures
        r == rings_in_range(rings_view(*p)),
{
    let single = MultiPolygon { polygons: vec![p.clone()] };
    let ok = check_in_range(&single);
    proof {
        assert(single@[0] =~= rings_view(*p));
        if ok {
            assert forall|j: int, k: int|
                0 <= j < rings_view(*p).len() && 0 <= k
                    < rings_view(*p)[j].len() implies crate::geom::pt_in_range(
                #[trigger] rings_view(*p)[j][k],
            ) by {
                let q = rings_view(*p)[j][k];
                assert(single@[0][j].contains(q));
                assert(crate::geom::poly_has_vertex(single@[0], q));
                assert(crate::geom::mp_has_vertex(single@, q));
            }
        } else {
            let q = choose|q: Pt| crate::geom::mp_has_vertex(single@, q) && !crate::geom::pt_in_range(q);
            assert(!rings_in_range(rings_view(*p))) by {
                let jj = choose|j: int| 0 <= j < single@.len() && crate::geom::poly_has_vertex(#[trigger] single@[j], q);
                let j = choose|j: int| 0 <= j < single@[0].len() && (#[trigger] single@[0][j]).contains(q);
                let k = choose|k: int| 0 <= k < single@[0][j].len() && #[trigger] single@[0][j][k] == q;
                assert(rings_view(*p)[j][k] == q);
            }
        }
    }
    ok
}

} // verus!
