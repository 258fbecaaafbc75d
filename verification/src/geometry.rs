//! District boundaries by name, from the city's GeoJSON of its districts.
use vstd::prelude::*;

use crate::assoc::{
    assoc_get, assoc_insert, assoc_map, insert_pair, keys_distinct, last_wins,
    lemma_assoc_insert_distinct, pairs_view,
};
use crate::feature::{props_view, JsonScalar, ScalarView};

verus! {

/// The property that names a district in the boundary document.
pub const DISTRICT_NAME_KEY: &'static str = "Name";

/// A feature of the boundary document: its properties, if it has any, and
/// its boundary, where it has a geometry that is a polygon.
pub struct BoundaryFeature<G> {
    pub properties: Option<Vec<(String, JsonScalar)>>,
    pub polygon: Option<G>,
}

/// The boundary document is not a feature collection.
pub struct NotAFeatureCollection;

/// The name and boundary of a feature, where it has a string `Name` and a polygon.
pub open spec fn named_boundary<G>(feature: BoundaryFeature<G>) -> Option<(Seq<char>, G)> {
    match (feature.properties, feature.polygon) {
        (Some(props), Some(g)) => match assoc_get(props_view(props@), DISTRICT_NAME_KEY@) {
            Some(ScalarView::Str(name)) => Some((name, g)),
            _ => None,
        },
        _ => None,
    }
}

/// The named boundaries of the features, in feature order.
pub open spec fn named_boundaries<G>(features: Seq<BoundaryFeature<G>>) -> Seq<(Seq<char>, G)>
    decreases features.len(),
{
    if features.len() == 0 {
        Seq::empty()
    } else {
        let earlier = named_boundaries(features.drop_last());
        match named_boundary(features.last()) {
            Some(nb) => earlier.push(nb),
            None => earlier,
        }
    }
}

/// The boundary map built from the features: each named boundary is
/// inserted in turn, so that a later boundary of a name replaces an earlier one.
pub open spec fn boundary_map<G>(features: Seq<BoundaryFeature<G>>) -> Seq<(Seq<char>, G)>
    decreases features.len(),
{
    if features.len() == 0 {
        Seq::empty()
    } else {
        let earlier = boundary_map(features.drop_last());
        match named_boundary(features.last()) {
            Some((name, g)) => assoc_insert(earlier, name, g),
            None => earlier,
        }
    }
}

/// Each name occurs once in the boundary map, with the boundary of the last
/// feature of that name.
pub proof fn lemma_boundary_map_last_wins<G>(features: Seq<BoundaryFeature<G>>)
    ensures
        keys_distinct(boundary_map(features)),
        assoc_map(boundary_map(features)) == last_wins(named_boundaries(features)),
    decreases features.len(),
{
    if features.len() == 0 {
        assert(assoc_map(boundary_map(features)) =~= Map::<Seq<char>, G>::empty());
    } else {
        lemma_boundary_map_last_wins(features.drop_last());
        let earlier = boundary_map(features.drop_last());
        match named_boundary(features.last()) {
            Some((name, g)) => {
                lemma_assoc_insert_distinct(earlier, name, g);
                let nbs = named_boundaries(features);
                assert(nbs.drop_last() == named_boundaries(features.drop_last()));
            },
            None => {},
        }
    }
}

/// `feature` has a polygon, and `name` is the string value of its `Name` property.
pub open spec fn names_district<G>(feature: BoundaryFeature<G>, name: Seq<char>) -> bool {
    &&& feature.polygon is Some
    &&& feature.properties is Some
    &&& assoc_get(props_view(feature.properties->0@), DISTRICT_NAME_KEY@) == Some(
        ScalarView::Str(name),
    )
}

/// The boundary map, law by law: a name has a boundary in it exactly where
/// some feature with a polygon has that name as the string value of its
/// `Name` property, and the boundary kept is the polygon of the last such
/// feature.
#[verifier::rlimit(60)]
pub proof fn lemma_boundary_map_names<G>(features: Seq<BoundaryFeature<G>>, name: Seq<char>)
    ensures
        assoc_map(boundary_map(features)).dom().contains(name) <==> exists|i: int|
            0 <= i < features.len() && #[trigger] names_district(features[i], name),
        forall|i: int|
            0 <= i < features.len() && #[trigger] names_district(features[i], name) && (forall|
                j: int,
            | i < j < features.len() ==> !#[trigger] names_district(features[j], name))
                ==> assoc_map(boundary_map(features))[name] == features[i].polygon->0,
    decreases features.len(),
{
    if features.len() > 0 {
        let t = features.drop_last();
        let last = features.len() - 1;
        let f = features.last();
        assert(features[last] == f);
        lemma_boundary_map_names(t, name);
        lemma_boundary_map_last_wins(t);
        let earlier = boundary_map(t);
        let me = assoc_map(earlier);
        let m = assoc_map(boundary_map(features));
        if names_district(f, name) {
            let g = f.polygon->0;
            assert(named_boundary(f) == Some((name, g)));
            lemma_assoc_insert_distinct(earlier, name, g);
            assert(m == me.insert(name, g));
            assert(m.dom().contains(name));
            assert forall|i: int|
                0 <= i < features.len() && #[trigger] names_district(features[i], name) && (forall|
                    j: int,
                | i < j < features.len() ==> !#[trigger] names_district(features[j], name))
                    implies m[name] == features[i].polygon->0 by {
                if i < last {
                    assert(!names_district(features[last], name));
                }
            }
        } else {
            assert(m.dom().contains(name) == me.dom().contains(name) && m[name] == me[name]) by {
                match named_boundary(f) {
                    Some((nm, g)) => {
                        lemma_assoc_insert_distinct(earlier, nm, g);
                        assert(nm != name);
                    },
                    None => {},
                }
            }
            assert((exists|i: int|
                0 <= i < features.len() && #[trigger] names_district(features[i], name)) ==> (exists|
                i: int,
            | 0 <= i < t.len() && #[trigger] names_district(t[i], name))) by {
                if exists|i: int| 0 <= i < features.len() && #[trigger] names_district(features[i], name) {
                    let i = choose|i: int|
                        0 <= i < features.len() && #[trigger] names_district(features[i], name);
                    assert(i != last);
                    assert(t[i] == features[i]);
                }
            }
            assert((exists|i: int| 0 <= i < t.len() && #[trigger] names_district(t[i], name)) ==> (
            exists|i: int| 0 <= i < features.len() && #[trigger] names_district(features[i], name)))
                by {
                if exists|i: int| 0 <= i < t.len() && #[trigger] names_district(t[i], name) {
                    let i = choose|i: int| 0 <= i < t.len() && #[trigger] names_district(t[i], name);
                    assert(t[i] == features[i]);
                }
            }
            assert forall|i: int|
                0 <= i < features.len() && #[trigger] names_district(features[i], name) && (forall|
                    j: int,
                | i < j < features.len() ==> !#[trigger] names_district(features[j], name))
                    implies m[name] == features[i].polygon->0 by {
                assert(i != last);
                assert(t[i] == features[i]);
                assert forall|j: int| i < j < t.len() implies !#[trigger] names_district(t[j], name) by {
                    assert(t[j] == features[j]);
                }
            }
        }
    }
}

/// The name of a district in its properties.
fn boundary_name(props: &Vec<(String, JsonScalar)>) -> (res: Option<String>)
    ensures
        match res {
            Some(s) => assoc_get(props_view(props@), DISTRICT_NAME_KEY@) == Some(ScalarView::Str(s@)),
            None => !(assoc_get(props_view(props@), DISTRICT_NAME_KEY@) matches Some(
                ScalarView::Str(_),
            )),
        },
{
    match crate::feature::find_property(props, DISTRICT_NAME_KEY) {
        Some(i) => {
            assert(props_view(props@)[i as int].1 == props@[i as int].1@);
            match &props[i].1 {
                JsonScalar::Str(s) => Some(s.clone()),
                _ => None,
            }
        },
        None => None,
    }
}

/// The boundaries of the districts by name, as `boundary_map` describes
/// them; a document that is not a feature collection (`None`) is an error.
pub fn boundaries_from_features<G>(collection: Option<Vec<BoundaryFeature<G>>>) -> (res: Result<
    Vec<(String, G)>,
    NotAFeatureCollection,
>)
    ensures
        match collection {
            None => res is Err,
            Some(fs) => res matches Ok(m) && pairs_view(m@) == boundary_map(fs@),
        },
        res matches Ok(m) ==> forall|name: Seq<char>|
            #[trigger] assoc_map(pairs_view(m@)).dom().contains(name) <==> exists|i: int|
                0 <= i < collection->0@.len() && #[trigger] names_district(
                    collection->0@[i],
                    name,
                ),
{
    let ghost given = collection;
    let mut features = match collection {
        None => {
            return Err(NotAFeatureCollection);
        },
        Some(fs) => fs,
    };
    let ghost all = features@;
    let n = features.len();
    let mut map: Vec<(String, G)> = Vec::new();
    let mut i: usize = 0;
    assert(all.take(0) =~= Seq::<BoundaryFeature<G>>::empty());
    assert(pairs_view(map@) =~= Seq::<(Seq<char>, G)>::empty());
    while i < n
        invariant
            n == all.len(),
            i <= n,
            features@ == all.subrange(i as int, n as int),
            pairs_view(map@) == boundary_map(all.take(i as int)),
        decreases n - i,
    {
        assert(all.take(i + 1).drop_last() =~= all.take(i as int));
        assert(all.take(i + 1).last() == all[i as int]);
        let feature = features.remove(0);
        assert(feature == all[i as int]);
        match (feature.properties, feature.polygon) {
            (Some(props), Some(polygon)) => match boundary_name(&props) {
                Some(name) => {
                    insert_pair(&mut map, name, polygon);
                },
                None => {},
            },
            _ => {},
        }
        i = i + 1;
        assert(features@ =~= all.subrange(i as int, n as int));
    }
    assert(all.take(n as int) =~= all);
    proof {
        assert(given->0@ == all);
        assert forall|name: Seq<char>|
            #[trigger] assoc_map(pairs_view(map@)).dom().contains(name) <==> exists|i: int|
                0 <= i < all.len() && #[trigger] names_district(all[i], name) by {
            lemma_boundary_map_names(all, name);
        }
    }
    Ok(map)
}

} // verus!
