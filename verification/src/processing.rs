//! Dot generation: redistributes not-stated counts and places one random
//! dot per population unit inside its area's geometry.
//!
//! Placement is rejection sampling: a uniform point is drawn from the
//! area's bounding box and kept if the geometry contains it; after one
//! hundred misses the dot is dropped, so very thin polygons may lose dots.
//! The finished collection is shuffled once, so that no category is always
//! drawn on top when dots collide in a pixel.

use crate::config::{AppConfig, DatasetConfig};
use crate::counts::{final_count, final_count_spec};
use crate::geom::{mp_contains, mp_contains_exec, mp_in_range, BBox, MultiPolygon, Pt, bounding_box, COORD_LIMIT};
use rand::seq::SliceRandom;
use rand::Rng;
use crate::types::{category_count, find_dataset, lookup_category, lookup_dataset, DatasetCounts, Dot, SmallArea};
use vstd::prelude::*;

verus! {

/// Relies on rand::thread_rng: a handle to the thread-local generator.
#[verifier::external_type_specification]
#[verifier::external_body]
pub struct ExThreadRng(rand::rngs::ThreadRng);

/// Relies on rand::thread_rng: the handle it returns draws from an
/// unseeded generator, so nothing is promised about the values drawn.
#[verifier::external_body]
pub fn fresh_rng() -> rand::rngs::ThreadRng {
    rand::thread_rng()
}

/// Relies on rand::Rng::gen_range: a value uniformly drawn from the
/// half-open range, which must be non-empty; only the bounds are promised,
/// as the draw is random.
#[verifier::external_body]
fn rng_range(rng: &mut rand::rngs::ThreadRng, lo: i64, hi: i64) -> (r: i64)
    requires
        lo < hi,
    ensures
        lo <= r < hi,
{
    rng.gen_range(lo..hi)
}

/// Relies on rand::seq::SliceRandom::shuffle: a uniform in-place
/// permutation, so the elements are conserved and nothing is promised
/// about their order.
#[verifier::external_body]
fn shuffle_dots(rng: &mut rand::rngs::ThreadRng, dots: &mut Vec<Dot>)
    ensures
        final(dots)@.to_multiset() == old(dots)@.to_multiset(),
        final(dots)@.len() == old(dots)@.len(),
{
    dots.shuffle(rng)
}

/// Draws up to one hundred uniform points from the box until one lies
/// inside the geometry; a returned point is always contained. `None` after
/// exhausting the budget, or when the box is degenerate and holds no
/// half-open sample space.
pub fn sample_point_in(geometry: &MultiPolygon, bbox: &BBox, rng: &mut rand::rngs::ThreadRng) -> (r:
    Option<Pt>)
    requires
        mp_in_range(geometry@),
        -COORD_LIMIT <= bbox.min_x,
        bbox.max_x <= COORD_LIMIT,
        -COORD_LIMIT <= bbox.min_y,
        bbox.max_y <= COORD_LIMIT,
    ensures
        r matches Some(p) ==> mp_contains(geometry@, p) && bbox.min_x <= p.x < bbox.max_x
            && bbox.min_y <= p.y < bbox.max_y,
{
    if bbox.min_x >= bbox.max_x || bbox.min_y >= bbox.max_y {
        return None;
    }
    for attempt in 0..100usize
        invariant
            mp_in_range(geometry@),
            bbox.min_x < bbox.max_x,
            bbox.min_y < bbox.max_y,
            -COORD_LIMIT <= bbox.min_x,
            bbox.max_x <= COORD_LIMIT,
            -COORD_LIMIT <= bbox.min_y,
            bbox.max_y <= COORD_LIMIT,
    {
        let x = rng_range(rng, bbox.min_x, bbox.max_x);
        let y = rng_range(rng, bbox.min_y, bbox.max_y);
        let p = Pt { x, y };
        if mp_contains_exec(geometry, &p) {
            return Some(p);
        }
    }
    None
}

/// The not-stated count in play for a dataset: the stored value when the
/// dataset is configured with a not-stated source, zero otherwise.
pub open spec fn effective_not_stated(cfg: DatasetConfig, dc: DatasetCounts) -> u32 {
    if cfg.not_stated is Some {
        match dc.not_stated {
            Some(v) => v,
            None => 0,
        }
    } else {
        0
    }
}

/// The sum of the known counts over the first `j` configured categories.
pub open spec fn total_known(cfg: DatasetConfig, dc: DatasetCounts, j: int) -> int
    decreases j,
{
    if j <= 0 {
        0
    } else {
        total_known(cfg, dc, j - 1) + category_count(dc.counts@, cfg.categories@[j - 1].name@)
    }
}

/// Whether a dot's dataset and category name a configured category whose
/// final count, after redistribution within `area`'s stored counts, is
/// positive. Every emitted dot traces to such a pairing.
pub open spec fn dot_traceable(d: Dot, config: AppConfig, area: SmallArea) -> bool {
    exists|di: int, ci: int|
        {
            &&& 0 <= di < config.processing.datasets@.len()
            &&& d.dataset@ == (#[trigger] config.processing.datasets@[di]).0@
            &&& 0 <= ci < config.processing.datasets@[di].1.categories@.len()
            &&& d.category@ == (#[trigger] config.processing.datasets@[di].1.categories@[ci]).name@
            &&& match find_dataset(area.population_data@, d.dataset@) {
                Some(dc) => {
                    let cfg = config.processing.datasets@[di].1;
                    final_count_spec(
                        category_count(dc.counts@, d.category@) as int,
                        total_known(cfg, dc, cfg.categories@.len() as int),
                        effective_not_stated(cfg, dc) as int,
                    ) > 0
                },
                None => false,
            }
        }
}

/// How many dots of the collection carry the given dataset and category
/// names.
pub open spec fn count_pair(dots: Seq<Dot>, ds: Seq<char>, cat: Seq<char>) -> int
    decreases dots.len(),
{
    if dots.len() == 0 {
        0
    } else {
        count_pair(dots.drop_last(), ds, cat) + if dots.last().dataset@ == ds
            && dots.last().category@ == cat {
            1int
        } else {
            0int
        }
    }
}

proof fn lemma_count_push(dots: Seq<Dot>, d: Dot, ds: Seq<char>, cat: Seq<char>)
    ensures
        count_pair(dots.push(d), ds, cat) == count_pair(dots, ds, cat) + if d.dataset@ == ds
            && d.category@ == cat {
            1int
        } else {
            0int
        },
{
    assert(dots.push(d).drop_last() =~= dots);
    assert(dots.push(d).last() == d);
}

/// No two configured datasets share a name, and no two categories of one
/// dataset share a name: the configuration is name-keyed, as a map-backed
/// source makes it.
pub open spec fn distinct_config_names(p: crate::config::ProcessingConfig) -> bool {
    &&& forall|a: int, b: int|
        0 <= a < b < p.datasets@.len() ==> (#[trigger] p.datasets@[a]).0@ != (
        #[trigger] p.datasets@[b]).0@
    &&& forall|d: int, a: int, b: int|
        #![trigger p.datasets@[d].1.categories@[a], p.datasets@[d].1.categories@[b]]
        0 <= d < p.datasets@.len() && 0 <= a < b < p.datasets@[d].1.categories@.len()
            ==> p.datasets@[d].1.categories@[a].name@ != p.datasets@[d].1.categories@[b].name@
}

/// The most dots one (dataset, category) pairing may receive: its
/// redistributed final count when the dataset's counts are present in the
/// area, and none otherwise.
pub open spec fn pair_budget(config: AppConfig, area: SmallArea, di: int, ci: int) -> int {
    let cfg = config.processing.datasets@[di].1;
    match find_dataset(area.population_data@, config.processing.datasets@[di].0@) {
        Some(dc) => final_count_spec(
            category_count(dc.counts@, cfg.categories@[ci].name@) as int,
            total_known(cfg, dc, cfg.categories@.len() as int),
            effective_not_stated(cfg, dc) as int,
        ),
        None => 0,
    }
}

/// No configured pairing receives more dots than its budget.
pub open spec fn dots_counts_bounded(dots: Seq<Dot>, config: AppConfig, area: SmallArea) -> bool {
    forall|di: int, ci: int|
        #![trigger config.processing.datasets@[di].1.categories@[ci]]
        0 <= di < config.processing.datasets@.len() && 0 <= ci
            < config.processing.datasets@[di].1.categories@.len() ==> count_pair(
            dots,
            config.processing.datasets@[di].0@,
            config.processing.datasets@[di].1.categories@[ci].name@,
        ) <= pair_budget(config, area, di, ci)
}

/// Everything one area's generation promises of its dots: each lies in
/// the area's geometry, each traces to a configured pairing, and no
/// pairing exceeds its redistributed final count.
pub open spec fn area_dots_ok(part: Seq<Dot>, config: AppConfig, area: SmallArea) -> bool {
    &&& forall|k: int|
        0 <= k < part.len() ==> mp_contains(area.geometry@, (#[trigger] part[k]).point)
    &&& forall|k: int| 0 <= k < part.len() ==> dot_traceable(#[trigger] part[k], config, area)
    &&& dots_counts_bounded(part, config, area)
}

/// A pairing's budget is never negative.
proof fn lemma_pair_budget_nonneg(config: AppConfig, area: SmallArea, di: int, ci: int)
    requires
        0 <= di < config.processing.datasets@.len(),
        0 <= ci < config.processing.datasets@[di].1.categories@.len(),
    ensures
        pair_budget(config, area, di, ci) >= 0,
{
    let cfg = config.processing.datasets@[di].1;
    match find_dataset(area.population_data@, config.processing.datasets@[di].0@) {
        Some(dc) => {
            let k = category_count(dc.counts@, cfg.categories@[ci].name@) as int;
            let t = total_known(cfg, dc, cfg.categories@.len() as int);
            lemma_total_known_mono(cfg, dc, ci + 1, cfg.categories@.len() as int);
            lemma_total_known_mono(cfg, dc, ci, ci + 1);
            assert(total_known(cfg, dc, ci + 1) == total_known(cfg, dc, ci) + k);
            if t > 0 {
                crate::counts::lemma_rounded_share_le(
                    k,
                    t,
                    effective_not_stated(cfg, dc) as int,
                );
            }
        },
        None => {},
    }
}

proof fn lemma_total_known_mono(cfg: DatasetConfig, dc: DatasetCounts, j1: int, j2: int)
    requires
        0 <= j1 <= j2,
    ensures
        0 <= total_known(cfg, dc, j1) <= total_known(cfg, dc, j2),
    decreases j2,
{
    if j2 > 0 {
        if j1 == j2 {
            lemma_total_known_mono(cfg, dc, j1 - 1, j2 - 1);
        } else {
            lemma_total_known_mono(cfg, dc, j1, j2 - 1);
        }
    }
}

/// Generates the dots for one area: per configured dataset present in the
/// area's data, each category receives its redistributed final count of
/// dots, every one placed inside the area's geometry.
#[verifier::rlimit(100)]
pub fn generate_dots_for_area(
    config: &AppConfig,
    area: &SmallArea,
    rng: &mut rand::rngs::ThreadRng,
) -> (dots: Vec<Dot>)
    requires
        mp_in_range(area.geometry@),
        distinct_config_names(config.processing),
        forall|di: int|
            0 <= di < config.processing.datasets@.len()
                ==> (#[trigger] config.processing.datasets@[di]).1.categories@.len()
                < 0x1_0000_0000,
    ensures
        area_dots_ok(dots@, *config, *area),
        forall|k: int|
            0 <= k < dots@.len() ==> mp_contains(area.geometry@, (#[trigger] dots@[k]).point),
        forall|k: int| 0 <= k < dots@.len() ==> dot_traceable(#[trigger] dots@[k], *config, *area),
{
    let mut dots: Vec<Dot> = Vec::new();
    proof {
        assert forall|dj: int, cj: int|
            #![trigger config.processing.datasets@[dj].1.categories@[cj]]
            0 <= dj < config.processing.datasets@.len() && 0 <= cj
                < config.processing.datasets@[dj].1.categories@.len() implies count_pair(
            dots@,
            config.processing.datasets@[dj].0@,
            config.processing.datasets@[dj].1.categories@[cj].name@,
        ) == 0 by {}
    }
    let bbox = match bounding_box(&area.geometry) {
        Some(b) => b,
        None => {
            // An area whose geometry has no vertices (it may have been
            // masked away entirely) yields no dots.
            proof {
                assert forall|dj: int, cj: int|
                    #![trigger config.processing.datasets@[dj].1.categories@[cj]]
                    0 <= dj < config.processing.datasets@.len() && 0 <= cj
                        < config.processing.datasets@[dj].1.categories@.len() implies count_pair(
                    dots@,
                    config.processing.datasets@[dj].0@,
                    config.processing.datasets@[dj].1.categories@[cj].name@,
                ) <= pair_budget(*config, *area, dj, cj) by {
                    lemma_pair_budget_nonneg(*config, *area, dj, cj);
                }
            }
            return dots;
        },
    };
    proof {
        let w = choose|p: Pt| crate::geom::mp_has_vertex(area.geometry@, p);
        assert(bbox.spec_contains_pt(w));
    }
    let nd = config.processing.datasets.len();
    for di in 0..nd
        invariant
            mp_in_range(area.geometry@),
            -COORD_LIMIT <= bbox.min_x,
            bbox.max_x <= COORD_LIMIT,
            -COORD_LIMIT <= bbox.min_y,
            bbox.max_y <= COORD_LIMIT,
            forall|dj: int|
                0 <= dj < config.processing.datasets@.len()
                    ==> (#[trigger] config.processing.datasets@[dj]).1.categories@.len()
                    < 0x1_0000_0000,
            forall|k: int|
                0 <= k < dots@.len() ==> mp_contains(area.geometry@, (#[trigger] dots@[k]).point),
            forall|k: int|
                0 <= k < dots@.len() ==> dot_traceable(#[trigger] dots@[k], *config, *area),
            forall|dj: int, cj: int|
                #![trigger config.processing.datasets@[dj].1.categories@[cj]]
                0 <= dj < di && 0 <= cj
                    < config.processing.datasets@[dj].1.categories@.len() ==> count_pair(
                    dots@,
                    config.processing.datasets@[dj].0@,
                    config.processing.datasets@[dj].1.categories@[cj].name@,
                ) <= pair_budget(*config, *area, dj, cj),
            forall|dj: int, cj: int|
                #![trigger config.processing.datasets@[dj].1.categories@[cj]]
                di <= dj < config.processing.datasets@.len() && 0 <= cj
                    < config.processing.datasets@[dj].1.categories@.len() ==> count_pair(
                    dots@,
                    config.processing.datasets@[dj].0@,
                    config.processing.datasets@[dj].1.categories@[cj].name@,
                ) == 0,
    {
        let entry = &config.processing.datasets[di];
        let dataset_name = &entry.0;
        let cfg = &entry.1;
        let found = lookup_dataset(&area.population_data, dataset_name.as_str());
        if let Some(dc) = found {
        let not_stated: u32 = if cfg.not_stated.is_some() {
            match dc.not_stated {
                Some(v) => v,
                None => 0,
            }
        } else {
            0
        };
        proof {
            assert(not_stated == effective_not_stated(*cfg, *dc));
        }
        let ncats = cfg.categories.len();
        let mut total: u64 = 0;
        for ci in 0..ncats
            invariant
                ncats == cfg.categories@.len(),
                ncats < 0x1_0000_0000,
                total == total_known(*cfg, *dc, ci as int),
                total <= (ci as int) * 0xffff_ffff,
        {
            let known = lookup_category(&dc.counts, cfg.categories[ci].name.as_str());
            total = total + (known as u64);
        }
        let ghost full_total = total_known(*cfg, *dc, ncats as int);
        for ci in 0..ncats
            invariant
                mp_in_range(area.geometry@),
                -COORD_LIMIT <= bbox.min_x,
                bbox.max_x <= COORD_LIMIT,
                -COORD_LIMIT <= bbox.min_y,
                bbox.max_y <= COORD_LIMIT,
                ncats == cfg.categories@.len(),
                total == full_total,
                full_total == total_known(*cfg, *dc, ncats as int),
                0 <= di < config.processing.datasets@.len(),
                *cfg == config.processing.datasets@[di as int].1,
                *dataset_name == config.processing.datasets@[di as int].0,
                find_dataset(area.population_data@, dataset_name@) == Some(*dc),
                not_stated == effective_not_stated(*cfg, *dc),
                forall|k: int|
                    0 <= k < dots@.len() ==> mp_contains(
                        area.geometry@,
                        (#[trigger] dots@[k]).point,
                    ),
                forall|k: int|
                    0 <= k < dots@.len() ==> dot_traceable(#[trigger] dots@[k], *config, *area),
                forall|dj: int, cj: int|
                    #![trigger config.processing.datasets@[dj].1.categories@[cj]]
                    0 <= dj < di && 0 <= cj
                        < config.processing.datasets@[dj].1.categories@.len() ==> count_pair(
                        dots@,
                        config.processing.datasets@[dj].0@,
                        config.processing.datasets@[dj].1.categories@[cj].name@,
                    ) <= pair_budget(*config, *area, dj, cj),
                forall|dj: int, cj: int|
                    #![trigger config.processing.datasets@[dj].1.categories@[cj]]
                    di < dj < config.processing.datasets@.len() && 0 <= cj
                        < config.processing.datasets@[dj].1.categories@.len() ==> count_pair(
                        dots@,
                        config.processing.datasets@[dj].0@,
                        config.processing.datasets@[dj].1.categories@[cj].name@,
                    ) == 0,
                forall|cj: int|
                    0 <= cj < ci ==> count_pair(
                        dots@,
                        config.processing.datasets@[di as int].0@,
                        (#[trigger] config.processing.datasets@[di as int].1.categories@[cj]).name@,
                    ) <= pair_budget(*config, *area, di as int, cj),
                forall|cj: int|
                    ci <= cj < ncats ==> count_pair(
                        dots@,
                        config.processing.datasets@[di as int].0@,
                        (#[trigger] config.processing.datasets@[di as int].1.categories@[cj]).name@,
                    ) == 0,
        {
            let cat = &cfg.categories[ci];
            let known = lookup_category(&dc.counts, cat.name.as_str());
            proof {
                lemma_total_known_mono(*cfg, *dc, ci as int, ncats as int);
                lemma_total_known_mono(*cfg, *dc, ci + 1 as int, ncats as int);
                assert(total_known(*cfg, *dc, ci + 1) == total_known(*cfg, *dc, ci as int)
                    + known);
            }
            let final_n = final_count(known, total, not_stated);
            let mut emitted: u64 = 0;
            while emitted < final_n
                invariant
                    mp_in_range(area.geometry@),
                    -COORD_LIMIT <= bbox.min_x,
                    bbox.max_x <= COORD_LIMIT,
                    -COORD_LIMIT <= bbox.min_y,
                    bbox.max_y <= COORD_LIMIT,
                    final_n == final_count_spec(
                        category_count(dc.counts@, cat.name@) as int,
                        full_total,
                        not_stated as int,
                    ),
                    emitted <= final_n,
                    ncats == cfg.categories@.len(),
                    full_total == total_known(*cfg, *dc, ncats as int),
                    0 <= di < config.processing.datasets@.len(),
                    0 <= ci < cfg.categories@.len(),
                    *cat == cfg.categories@[ci as int],
                    *cfg == config.processing.datasets@[di as int].1,
                    *dataset_name == config.processing.datasets@[di as int].0,
                    find_dataset(area.population_data@, dataset_name@) == Some(*dc),
                    not_stated == effective_not_stated(*cfg, *dc),
                    forall|k: int|
                        0 <= k < dots@.len() ==> mp_contains(
                            area.geometry@,
                            (#[trigger] dots@[k]).point,
                        ),
                    forall|k: int|
                        0 <= k < dots@.len() ==> dot_traceable(#[trigger] dots@[k], *config, *area),
                    forall|dj: int, cj: int|
                        #![trigger config.processing.datasets@[dj].1.categories@[cj]]
                        0 <= dj < di && 0 <= cj
                            < config.processing.datasets@[dj].1.categories@.len() ==> count_pair(
                            dots@,
                            config.processing.datasets@[dj].0@,
                            config.processing.datasets@[dj].1.categories@[cj].name@,
                        ) <= pair_budget(*config, *area, dj, cj),
                    forall|dj: int, cj: int|
                        #![trigger config.processing.datasets@[dj].1.categories@[cj]]
                        di < dj < config.processing.datasets@.len() && 0 <= cj
                            < config.processing.datasets@[dj].1.categories@.len() ==> count_pair(
                            dots@,
                            config.processing.datasets@[dj].0@,
                            config.processing.datasets@[dj].1.categories@[cj].name@,
                        ) == 0,
                    forall|cj: int|
                        0 <= cj < ci ==> count_pair(
                            dots@,
                            config.processing.datasets@[di as int].0@,
                            (#[trigger] config.processing.datasets@[di as int].1.categories@[
                            cj]).name@,
                        ) <= pair_budget(*config, *area, di as int, cj),
                    forall|cj: int|
                        ci < cj < ncats ==> count_pair(
                            dots@,
                            config.processing.datasets@[di as int].0@,
                            (#[trigger] config.processing.datasets@[di as int].1.categories@[
                            cj]).name@,
                        ) == 0,
                    count_pair(
                        dots@,
                        config.processing.datasets@[di as int].0@,
                        config.processing.datasets@[di as int].1.categories@[ci as int].name@,
                    ) <= emitted,
                decreases final_n - emitted,
            {
                match sample_point_in(&area.geometry, &bbox, rng) {
                    Some(p) => {
                        let d = Dot {
                            point: p,
                            dataset: dataset_name.clone(),
                            category: cat.name.clone(),
                        };
                        proof {
                            assert(d.dataset@ == dataset_name@);
                            assert(d.category@ == cat.name@);
                            assert(dot_traceable(d, *config, *area)) by {
                                assert(0 <= di < config.processing.datasets@.len() && d.dataset@
                                    == (config.processing.datasets@[di as int]).0@ && 0 <= ci
                                    < config.processing.datasets@[di as int].1.categories@.len()
                                    && d.category@ == (config.processing.datasets@[
                                di as int].1.categories@[ci as int]).name@);
                            }
                        }
                        let ghost pre = dots@;
                        dots.push(d);
                        proof {
                            lemma_counts_after_push(pre, d, *config, di as int, ci as int);
                        }
                    },
                    None => (),
                }
                emitted = emitted + 1;
            }
            proof {
                assert(emitted == final_n);
                assert(final_n == pair_budget(*config, *area, di as int, ci as int));
            }
        }
        } else {
            proof {
                assert(*dataset_name == config.processing.datasets@[di as int].0);
                assert(find_dataset(area.population_data@, dataset_name@) is None);
                assert forall|cj: int|
                    0 <= cj
                        < config.processing.datasets@[di as int].1.categories@.len() implies count_pair(
                    dots@,
                    config.processing.datasets@[di as int].0@,
                    (#[trigger] config.processing.datasets@[di as int].1.categories@[cj]).name@,
                ) <= pair_budget(*config, *area, di as int, cj) by {
                    assert(pair_budget(*config, *area, di as int, cj) == 0);
                }
            }
        }
    }
    proof {
        assert(dots_counts_bounded(dots@, *config, *area));
        assert(area_dots_ok(dots@, *config, *area));
    }
    dots
}

/// How one push changes the per-pairing counts: only the pushed dot's own
/// pairing gains one, every other configured pairing keeps its count. The
/// distinct configured names make the pairing unambiguous.
proof fn lemma_counts_after_push(pre: Seq<Dot>, d: Dot, config: AppConfig, di: int, ci: int)
    requires
        distinct_config_names(config.processing),
        0 <= di < config.processing.datasets@.len(),
        0 <= ci < config.processing.datasets@[di].1.categories@.len(),
        d.dataset@ == config.processing.datasets@[di].0@,
        d.category@ == config.processing.datasets@[di].1.categories@[ci].name@,
    ensures
        forall|dj: int, cj: int|
            #![trigger config.processing.datasets@[dj].1.categories@[cj]]
            0 <= dj < config.processing.datasets@.len() && 0 <= cj
                < config.processing.datasets@[dj].1.categories@.len() ==> count_pair(
                pre.push(d),
                config.processing.datasets@[dj].0@,
                config.processing.datasets@[dj].1.categories@[cj].name@,
            ) == count_pair(
                pre,
                config.processing.datasets@[dj].0@,
                config.processing.datasets@[dj].1.categories@[cj].name@,
            ) + if dj == di && cj == ci {
                1int
            } else {
                0int
            },
{
    assert forall|dj: int, cj: int|
        #![trigger config.processing.datasets@[dj].1.categories@[cj]]
        0 <= dj < config.processing.datasets@.len() && 0 <= cj
            < config.processing.datasets@[dj].1.categories@.len() implies count_pair(
        pre.push(d),
        config.processing.datasets@[dj].0@,
        config.processing.datasets@[dj].1.categories@[cj].name@,
    ) == count_pair(
        pre,
        config.processing.datasets@[dj].0@,
        config.processing.datasets@[dj].1.categories@[cj].name@,
    ) + (if dj == di && cj == ci {
        1int
    } else {
        0int
    }) by {
        lemma_count_push(
            pre,
            d,
            config.processing.datasets@[dj].0@,
            config.processing.datasets@[dj].1.categories@[cj].name@,
        );
        if dj == di && cj == ci {
        } else if dj != di {
            if dj < di {
                assert(config.processing.datasets@[dj].0@ != config.processing.datasets@[di].0@);
            } else {
                assert(config.processing.datasets@[di].0@ != config.processing.datasets@[dj].0@);
            }
        } else {
            if cj < ci {
                assert(config.processing.datasets@[dj].1.categories@[cj].name@
                    != config.processing.datasets@[dj].1.categories@[ci].name@);
            } else {
                assert(config.processing.datasets@[dj].1.categories@[ci].name@
                    != config.processing.datasets@[dj].1.categories@[cj].name@);
            }
        }
    }
}

/// Whether a dot lies inside the geometry of some area of the collection
/// and traces to a configured category of that area.
pub open spec fn dot_placed(d: Dot, config: AppConfig, areas: Seq<SmallArea>) -> bool {
    exists|a: int|
        0 <= a < areas.len() && mp_contains((#[trigger] areas[a]).geometry@, d.point)
            && dot_traceable(d, config, areas[a])
}

/// The concatenation of the first `n` parts.
pub open spec fn concat_all(parts: Seq<Seq<Dot>>, n: int) -> Seq<Dot>
    decreases n,
{
    if n <= 0 {
        Seq::empty()
    } else {
        concat_all(parts, n - 1) + parts[n - 1]
    }
}

proof fn lemma_concat_prefix(parts: Seq<Seq<Dot>>, x: Seq<Dot>, n: int)
    requires
        0 <= n <= parts.len(),
    ensures
        concat_all(parts.push(x), n) == concat_all(parts, n),
    decreases n,
{
    if n > 0 {
        lemma_concat_prefix(parts, x, n - 1);
        assert(parts.push(x)[n - 1] == parts[n - 1]);
    }
}

/// Whether the dots are a shuffle of per-area generations: one part per
/// area, each meeting that area's generation contract, and the whole
/// collection equal, as a multiset, to their concatenation — the shuffle
/// adds, drops and alters nothing.
pub open spec fn shuffled_generation(
    dots: Seq<Dot>,
    config: AppConfig,
    areas: Seq<SmallArea>,
) -> bool {
    exists|parts: Seq<Seq<Dot>>|
        {
            &&& parts.len() == areas.len()
            &&& (forall|i: int|
                0 <= i < parts.len() ==> area_dots_ok(#[trigger] parts[i], config, areas[i]))
            &&& dots.to_multiset() == concat_all(parts, parts.len() as int).to_multiset()
        }
}

/// Generates and shuffles the dots for every area: the result holds, in a
/// random order, dots that each lie inside the geometry of the area whose
/// counts they trace to.
pub fn process_data(
    config: &AppConfig,
    areas: &Vec<SmallArea>,
    rng: &mut rand::rngs::ThreadRng,
) -> (dots: Vec<Dot>)
    requires
        forall|a: int| 0 <= a < areas@.len() ==> mp_in_range((#[trigger] areas@[a]).geometry@),
        distinct_config_names(config.processing),
        forall|di: int|
            0 <= di < config.processing.datasets@.len()
                ==> (#[trigger] config.processing.datasets@[di]).1.categories@.len()
                < 0x1_0000_0000,
    ensures
        forall|k: int| 0 <= k < dots@.len() ==> dot_placed(#[trigger] dots@[k], *config, areas@),
        shuffled_generation(dots@, *config, areas@),
{
    let mut dots: Vec<Dot> = Vec::new();
    let ghost mut parts: Seq<Seq<Dot>> = Seq::empty();
    let n = areas.len();
    for i in 0..n
        invariant
            forall|a: int| 0 <= a < areas@.len() ==> mp_in_range((#[trigger] areas@[a]).geometry@),
            forall|di: int|
                0 <= di < config.processing.datasets@.len()
                    ==> (#[trigger] config.processing.datasets@[di]).1.categories@.len()
                    < 0x1_0000_0000,
            forall|k: int|
                0 <= k < dots@.len() ==> dot_placed(#[trigger] dots@[k], *config, areas@),
            parts.len() == i,
            dots@ == concat_all(parts, i as int),
            forall|q: int|
                0 <= q < parts.len() ==> area_dots_ok(#[trigger] parts[q], *config, areas@[q]),
    {
        let mut fresh = generate_dots_for_area(config, &areas[i], rng);
        let ghost pre = dots@;
        let ghost fresh_snap = fresh@;
        dots.append(&mut fresh);
        proof {
            assert(area_dots_ok(fresh_snap, *config, areas@[i as int]));
            lemma_concat_prefix(parts, fresh_snap, i as int);
            parts = parts.push(fresh_snap);
            assert(parts[i as int] == fresh_snap);
            assert(forall|q: int| 0 <= q < i ==> #[trigger] parts[q] == parts.drop_last()[q]);
            assert(dots@ == concat_all(parts, i + 1 as int));
            assert(dots@ == pre + fresh_snap);
            assert forall|k: int| 0 <= k < dots@.len() implies dot_placed(
                #[trigger] dots@[k],
                *config,
                areas@,
            ) by {
                if k < pre.len() {
                    assert(dots@[k] == pre[k]);
                    assert(dot_placed(pre[k], *config, areas@));
                } else {
                    assert(dots@[k] == fresh_snap[k - pre.len()]);
                    assert(mp_contains(areas@[i as int].geometry@, dots@[k].point)
                        && dot_traceable(dots@[k], *config, areas@[i as int]));
                }
            }
        }
    }
    let ghost before = dots@;
    shuffle_dots(rng, &mut dots);
    proof {
        assert(before == concat_all(parts, parts.len() as int));
        assert(dots@.to_multiset() == concat_all(parts, parts.len() as int).to_multiset());
        assert(shuffled_generation(dots@, *config, areas@));
        assert forall|k: int| 0 <= k < dots@.len() implies dot_placed(
            #[trigger] dots@[k],
            *config,
            areas@,
        ) by {
            assert(dots@.to_multiset().contains(dots@[k])) by {
                dots@.to_multiset_ensures();
            }
            assert(before.to_multiset().contains(dots@[k]));
            assert(before.contains(dots@[k])) by {
                before.to_multiset_ensures();
            }
            let t = choose|t: int| 0 <= t < before.len() && #[trigger] before[t] == dots@[k];
            assert(dot_placed(before[t], *config, areas@));
        }
    }
    dots
}

} // verus!
