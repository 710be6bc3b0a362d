//! Point-location queries: which area contains a given point.
//!
//! The service state is built once: an r-tree over each area's bounding
//! box, keyed by the area's position. A query walks the candidate areas
//! whose box covers the point and returns the first one whose geometry
//! truly contains it; with no containing area at all it answers "not
//! found". Which of several overlapping areas answers first follows the
//! index's order and is deliberately unspecified.

use crate::geom::{
    bbox_wf, bounding_box, is_bbox_of, lemma_contains_in_bbox, mp_contains, mp_contains_exec,
    mp_has_vertex, mp_in_range, pt_in_range, BBox, Pt,
};
use crate::masking::{bulk_load_boxes, locate_intersecting, tree_boxes, BoxTree};
use crate::types::{counts_view, pop_view, CategoryCount, DatasetCounts, SmallArea};
use vstd::prelude::*;

verus! {

/// A successful query: the containing area's identifier and its full
/// population data.
#[derive(Clone, Debug)]
pub struct QueryResponse {
    pub id: String,
    pub population_data: Vec<DatasetCounts>,
}

/// The read-only query state: the areas and the box index over them.
pub struct AppState {
    pub areas: Vec<SmallArea>,
    pub tree: BoxTree,
}

/// What the index stores for an area: the exact bounding box of its
/// geometry, or the degenerate box at the origin when the geometry has no
/// vertices.
pub open spec fn stored_box_exact(b: BBox, g: Seq<Seq<Seq<Pt>>>) -> bool {
    if exists|p: Pt| mp_has_vertex(g, p) {
        is_bbox_of(b, g)
    } else {
        b == (BBox { min_x: 0, min_y: 0, max_x: 0, max_y: 0 })
    }
}

impl AppState {
    /// The state is well-formed: the tree stores one box per area, each
    /// bounding its area's vertices (an area without vertices gets a
    /// degenerate box at the origin).
    pub open spec fn wf(self) -> bool {
        &&& tree_boxes(self.tree).dom() =~= Set::new(|i: int| 0 <= i < self.areas@.len())
        &&& forall|i: int|
            tree_boxes(self.tree).dom().contains(i) ==> bbox_wf(
                #[trigger] tree_boxes(self.tree)[i],
            )
        &&& forall|a: int, p: Pt|
            0 <= a < self.areas@.len() && #[trigger] mp_has_vertex(self.areas@[a].geometry@, p)
                ==> tree_boxes(self.tree)[a].spec_contains_pt(p)
    }

    /// Builds the query state over the given areas: the stored box for
    /// each area is the exact bounding box of its geometry, or the
    /// degenerate box at the origin when the geometry has no vertices.
    pub fn build(areas: Vec<SmallArea>) -> (s: AppState)
        ensures
            s.wf(),
            s.areas@ == areas@,
            forall|a: int|
                0 <= a < areas@.len() ==> stored_box_exact(
                    tree_boxes(s.tree)[a],
                    (#[trigger] areas@[a]).geometry@,
                ),
    {
        let mut boxes: Vec<BBox> = Vec::new();
        let n = areas.len();
        for i in 0..n
            invariant
                n == areas@.len(),
                boxes@.len() == i,
                forall|a: int| 0 <= a < i ==> bbox_wf(#[trigger] boxes@[a]),
                forall|a: int, p: Pt|
                    0 <= a < i && #[trigger] mp_has_vertex(areas@[a].geometry@, p)
                        ==> boxes@[a].spec_contains_pt(p),
                forall|a: int|
                    0 <= a < i ==> stored_box_exact(boxes@[a], (#[trigger] areas@[a]).geometry@),
        {
            let ob = bounding_box(&areas[i].geometry);
            let b = match ob {
                Some(bb) => bb,
                None => BBox { min_x: 0, min_y: 0, max_x: 0, max_y: 0 },
            };
            let ghost pre = boxes@;
            boxes.push(b);
            proof {
                assert(forall|a: int| 0 <= a < pre.len() ==> #[trigger] boxes@[a] == pre[a]);
                assert(boxes@[i as int] == b);
                if exists|p: Pt| mp_has_vertex(areas@[i as int].geometry@, p) {
                    assert(ob is Some);
                    assert(is_bbox_of(boxes@[i as int], areas@[i as int].geometry@));
                } else {
                    assert(ob is None);
                }
                assert(stored_box_exact(boxes@[i as int], areas@[i as int].geometry@));
            }
        }
        let tree = bulk_load_boxes(&boxes);
        let s = AppState { areas, tree };
        proof {
            assert(tree_boxes(s.tree).dom() =~= Set::new(|i: int| 0 <= i < s.areas@.len()));
            assert forall|a: int, p: Pt|
                0 <= a < s.areas@.len() && #[trigger] mp_has_vertex(
                    s.areas@[a].geometry@,
                    p,
                ) implies tree_boxes(s.tree)[a].spec_contains_pt(p) by {
                assert(tree_boxes(s.tree)[a] == boxes@[a]);
            }
            assert forall|a: int| 0 <= a < s.areas@.len() implies stored_box_exact(
                tree_boxes(s.tree)[a],
                (#[trigger] s.areas@[a]).geometry@,
            ) by {
                assert(tree_boxes(s.tree)[a] == boxes@[a]);
                assert(stored_box_exact(boxes@[a], areas@[a].geometry@));
            }
        }
        s
    }

    /// Answers which area contains the point: the identifier and
    /// population data of a containing area, or `None` exactly when no
    /// area's geometry contains the point. With overlapping areas the
    /// answering one follows the index's unspecified candidate order.
    pub fn query(&self, p: &Pt) -> (r: Option<QueryResponse>)
        requires
            self.wf(),
            pt_in_range(*p),
            forall|a: int|
                0 <= a < self.areas@.len() ==> mp_in_range((#[trigger] self.areas@[a]).geometry@),
        ensures
            r matches Some(resp) ==> exists|a: int|
                0 <= a < self.areas@.len() && mp_contains(
                    (#[trigger] self.areas@[a]).geometry@,
                    *p,
                ) && resp.id@ == self.areas@[a].id@ && pop_view(resp.population_data@)
                    == pop_view(self.areas@[a].population_data@),
            r is None ==> forall|a: int|
                0 <= a < self.areas@.len() ==> !mp_contains(
                    (#[trigger] self.areas@[a]).geometry@,
                    *p,
                ),
    {
        let n_areas = self.areas.len();
        let point_box = BBox { min_x: p.x, min_y: p.y, max_x: p.x, max_y: p.y };
        let cands = locate_intersecting(&self.tree, &point_box);
        let nc = cands.len();
        for c in 0..nc
            invariant
                self.wf(),
                pt_in_range(*p),
                n_areas == self.areas@.len(),
                forall|a: int|
                    0 <= a < self.areas@.len() ==> mp_in_range(
                        (#[trigger] self.areas@[a]).geometry@,
                    ),
                nc == cands@.len(),
                point_box == (BBox { min_x: p.x, min_y: p.y, max_x: p.x, max_y: p.y }),
                forall|i: usize|
                    (#[trigger] cands@.contains(i)) == (tree_boxes(self.tree).dom().contains(
                        i as int,
                    ) && tree_boxes(self.tree)[i as int].spec_intersects(point_box)),
                forall|k: int|
                    0 <= k < c ==> !mp_contains(
                        (#[trigger] self.areas@[cands@[k] as int]).geometry@,
                        *p,
                    ),
        {
            let idx = cands[c];
            proof {
                assert(cands@.contains(cands@[c as int]));
            }
            let area = &self.areas[idx];
            if mp_contains_exec(&area.geometry, p) {
                let resp = QueryResponse {
                    id: area.id.clone(),
                    population_data: clone_population(&area.population_data),
                };
                proof {
                    assert(mp_contains(self.areas@[idx as int].geometry@, *p));
                }
                return Some(resp);
            }
        }
        proof {
            assert forall|a: int| 0 <= a < self.areas@.len() implies !mp_contains(
                (#[trigger] self.areas@[a]).geometry@,
                *p,
            ) by {
                assert((a as usize) as int == a);
                if cands@.contains(a as usize) {
                    let k = choose|k: int|
                        0 <= k < cands@.len() && #[trigger] cands@[k] == a as usize;
                    assert(!mp_contains(self.areas@[cands@[k] as int].geometry@, *p));
                } else {
                    // The area's box misses the point, so the geometry
                    // cannot contain it.
                    assert(!(tree_boxes(self.tree).dom().contains(a) && tree_boxes(self.tree)[
                        a
                    ].spec_intersects(point_box)));
                    assert(tree_boxes(self.tree).dom().contains(a));
                    let b = tree_boxes(self.tree)[a];
                    if mp_contains(self.areas@[a].geometry@, *p) {
                        lemma_contains_in_bbox(self.areas@[a].geometry@, b, *p);
                        assert(b.spec_contains_pt(*p));
                        assert(b.spec_intersects(point_box));
                        assert(false);
                    }
                }
            }
        }
        None
    }
}

/// Copies one category count.
fn clone_category(c: &CategoryCount) -> (r: CategoryCount)
    ensures
        r == *c,
{
    CategoryCount { name: c.name.clone(), count: c.count }
}

/// Copies one dataset's counts.
fn clone_dataset_counts(dc: &DatasetCounts) -> (r: DatasetCounts)
    ensures
        r.dataset@ == dc.dataset@,
        counts_view(r.counts@) == counts_view(dc.counts@),
        r.not_stated == dc.not_stated,
{
    let mut counts: Vec<CategoryCount> = Vec::new();
    let n = dc.counts.len();
    for i in 0..n
        invariant
            n == dc.counts@.len(),
            counts@ =~= dc.counts@.take(i as int),
    {
        counts.push(clone_category(&dc.counts[i]));
        proof {
            assert(counts@ =~= dc.counts@.take(i + 1 as int));
        }
    }
    proof {
        assert(counts@ =~= dc.counts@);
    }
    let not_stated = match dc.not_stated {
        Some(v) => Some(v),
        None => None,
    };
    DatasetCounts { dataset: dc.dataset.clone(), counts, not_stated }
}

/// Copies a whole population table, preserving its value content.
pub fn clone_population(pd: &Vec<DatasetCounts>) -> (r: Vec<DatasetCounts>)
    ensures
        pop_view(r@) == pop_view(pd@),
{
    let mut out: Vec<DatasetCounts> = Vec::new();
    let n = pd.len();
    for i in 0..n
        invariant
            n == pd@.len(),
            out@.len() == i,
            forall|t: int|
                0 <= t < i ==> (#[trigger] out@[t]).dataset@ == pd@[t].dataset@ && counts_view(
                    out@[t].counts@,
                ) == counts_view(pd@[t].counts@) && out@[t].not_stated == pd@[t].not_stated,
    {
        out.push(clone_dataset_counts(&pd[i]));
    }
    proof {
        assert(pop_view(out@) =~= pop_view(pd@));
    }
    out
}

} // verus!
