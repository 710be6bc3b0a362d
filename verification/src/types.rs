//! The pipeline's data model: joined areas and sampled dots.

use crate::geom::{MultiPolygon, Pt};
use vstd::prelude::*;

verus! {

/// One category's count within a dataset, keyed by the category name.
#[derive(Clone, Debug)]
pub struct CategoryCount {
    pub name: String,
    pub count: u32,
}

/// One dataset's counts for one area. The not-stated count, when the
/// dataset has a not-stated source, is carried beside the categories;
/// serializers render it under the reserved name `"Not Stated"`.
#[derive(Clone, Debug)]
pub struct DatasetCounts {
    pub dataset: String,
    pub counts: Vec<CategoryCount>,
    pub not_stated: Option<u32>,
}

/// A small area: the join key, the (possibly water-masked) geometry, and
/// the population counts per dataset.
#[derive(Clone, Debug)]
pub struct SmallArea {
    pub id: String,
    pub geometry: MultiPolygon,
    pub population_data: Vec<DatasetCounts>,
}

/// One sampled dot: a point inside its area's geometry, tagged with the
/// dataset and category it counts towards.
#[derive(Clone, Debug)]
pub struct Dot {
    pub point: Pt,
    pub dataset: String,
    pub category: String,
}

/// The value content of a category-count list: each entry's name and count.
pub open spec fn counts_view(cs: Seq<CategoryCount>) -> Seq<(Seq<char>, u32)> {
    cs.map_values(|c: CategoryCount| (c.name@, c.count))
}

/// The value content of a population table: per dataset, its name, its
/// category counts, and its not-stated count.
pub open spec fn pop_view(pd: Seq<DatasetCounts>) -> Seq<(Seq<char>, Seq<(Seq<char>, u32)>, Option<
    u32,
>)> {
    pd.map_values(|d: DatasetCounts| (d.dataset@, counts_view(d.counts@), d.not_stated))
}

/// String equality by contents.
pub fn str_eq(a: &String, b: &str) -> (r: bool)
    ensures
        r == (a@ == b@),
{
    a.eq(&b.to_owned())
}

/// The counts stored for dataset `name` in `pd`, if any: the first entry
/// with that dataset name.
pub open spec fn find_dataset(pd: Seq<DatasetCounts>, name: Seq<char>) -> Option<DatasetCounts>
    decreases pd.len(),
{
    if pd.len() == 0 {
        None
    } else if pd[0].dataset@ == name {
        Some(pd[0])
    } else {
        find_dataset(pd.drop_first(), name)
    }
}

/// The count stored for category `name` in `counts`, or zero when absent:
/// the first entry with that category name.
pub open spec fn category_count(counts: Seq<CategoryCount>, name: Seq<char>) -> u32
    decreases counts.len(),
{
    if counts.len() == 0 {
        0
    } else if counts[0].name@ == name {
        counts[0].count
    } else {
        category_count(counts.drop_first(), name)
    }
}

/// Looks a dataset up by name, first match.
pub fn lookup_dataset<'a>(pd: &'a Vec<DatasetCounts>, name: &str) -> (r: Option<
    &'a DatasetCounts,
>)
    ensures
        r matches Some(dc) ==> find_dataset(pd@, name@) == Some(*dc),
        r is None ==> find_dataset(pd@, name@) is None,
{
    let n = pd.len();
    proof {
        assert(pd@.skip(0) =~= pd@);
    }
    for i in 0..n
        invariant
            find_dataset(pd@, name@) == find_dataset(pd@.skip(i as int), name@),
    {
        proof {
            assert(pd@.skip(i as int)[0] == pd@[i as int]);
            assert(pd@.skip(i as int).drop_first() =~= pd@.skip(i + 1));
        }
        if str_eq(&pd[i].dataset, name) {
            return Some(&pd[i]);
        }
    }
    proof {
        assert(pd@.skip(n as int).len() == 0);
    }
    None
}

/// Looks a category count up by name; absent categories count zero.
pub fn lookup_category(counts: &Vec<CategoryCount>, name: &str) -> (r: u32)
    ensures
        r == category_count(counts@, name@),
{
    let n = counts.len();
    proof {
        assert(counts@.skip(0) =~= counts@);
    }
    for i in 0..n
        invariant
            category_count(counts@, name@) == category_count(counts@.skip(i as int), name@),
    {
        proof {
            assert(counts@.skip(i as int)[0] == counts@[i as int]);
            assert(counts@.skip(i as int).drop_first() =~= counts@.skip(i + 1));
        }
        if str_eq(&counts[i].name, name) {
            return counts[i].count;
        }
    }
    proof {
        assert(counts@.skip(n as int).len() == 0);
    }
    0
}

} // verus!
