//! Vote records as GeoJSON features: the properties that a record is written
//! with, and the record that a feature is read back as.
//!
//! Parsing and printing JSON, and all coordinates, stay outside the library:
//! it sees a feature as its properties (strings, integers, and other values)
//! and the shape of its geometry.
use vstd::prelude::*;

use crate::assoc::{
    assoc_get, assoc_insert, assoc_map, insert_pair, key_index, keys_distinct, last_wins,
    lemma_assoc_insert_distinct, lemma_assoc_map_absent, lemma_assoc_map_entry, lemma_key_index,
    lemma_last_wins_absent, lemma_last_wins_concat, lemma_last_wins_distinct, pairs_view,
};
use crate::text::str_eq;
use crate::votes::{lemma_vote_sum_same_map, sums_fit, vote_sum, Vote, VoteRecord};

verus! {

/// The property that names the district.
pub const NAME_KEY: &'static str = "name_muni";

/// The property that holds the total of the votes.
pub const TOTAL_KEY: &'static str = "total_votes";

/// What is appended to a party's name for the property of its absolute votes.
pub const ABSOLUTE_SUFFIX: &'static str = "_absolut";

/// A JSON property value as the library reads it: a string, a number that is
/// an `i64`, or anything else.
pub enum JsonScalar {
    Str(String),
    Int(i64),
    Other,
}

/// The view of a `JsonScalar`.
pub ghost enum ScalarView {
    Str(Seq<char>),
    Int(i64),
    Other,
}

impl View for JsonScalar {
    type V = ScalarView;

    open spec fn view(&self) -> ScalarView {
        match self {
            JsonScalar::Str(s) => ScalarView::Str(s@),
            JsonScalar::Int(n) => ScalarView::Int(*n),
            JsonScalar::Other => ScalarView::Other,
        }
    }
}

/// The geometry of a feature as the reader sees it.
pub enum FeatureGeometry<G> {
    /// The feature has no geometry.
    Missing,
    /// A polygon with at least one ring, each position with two coordinates.
    Polygon(G),
    /// A polygon without rings.
    EmptyPolygon,
    /// A polygon with a position of fewer than two coordinates.
    BadPosition,
    /// A geometry other than a polygon.
    NotPolygon,
}

/// A GeoJSON feature: its properties, if it has any, and its geometry.
pub struct FeatureData<G> {
    pub properties: Option<Vec<(String, JsonScalar)>>,
    pub geometry: FeatureGeometry<G>,
}

/// The view of a list of properties.
pub open spec fn props_view(props: Seq<(String, JsonScalar)>) -> Seq<(Seq<char>, ScalarView)> {
    props.map_values(|p: (String, JsonScalar)| (p.0@, p.1@))
}

/// The district name of a feature: its `name_muni` property, if that is a string.
pub open spec fn feature_name(props: Seq<(Seq<char>, ScalarView)>) -> Option<Seq<char>> {
    match assoc_get(props, NAME_KEY@) {
        Some(ScalarView::Str(s)) => Some(s),
        _ => None,
    }
}

/// The votes of a feature: every property other than `name_muni` and
/// `total_votes` whose value is an `i64`, truncated to `i32`, in property order.
pub open spec fn feature_votes(props: Seq<(Seq<char>, ScalarView)>) -> Seq<(Seq<char>, i32)>
    decreases props.len(),
{
    if props.len() == 0 {
        Seq::empty()
    } else {
        let votes = feature_votes(props.drop_last());
        let (key, value) = props.last();
        if key != NAME_KEY@ && key != TOTAL_KEY@ {
            match value {
                ScalarView::Int(n) => assoc_insert(votes, key, n as i32),
                _ => votes,
            }
        } else {
            votes
        }
    }
}

/// A record read from a feature: district name, votes, boundary.
pub ghost struct FeatureRecord<G> {
    pub name: Seq<char>,
    pub votes: Seq<(Seq<char>, i32)>,
    pub geometry: Option<G>,
}

/// The record that a feature is read as; `None` where the feature has no
/// properties, no string `name_muni`, or a polygon without rings.
pub open spec fn feature_record<G>(feature: FeatureData<G>) -> Option<FeatureRecord<G>> {
    match feature.properties {
        None => None,
        Some(props) => match feature_name(props_view(props@)) {
            None => None,
            Some(name) => {
                let votes = feature_votes(props_view(props@));
                match feature.geometry {
                    FeatureGeometry::Polygon(g) => Some(
                        FeatureRecord { name, votes, geometry: Some(g) },
                    ),
                    FeatureGeometry::NotPolygon => Some(
                        FeatureRecord { name, votes, geometry: None },
                    ),
                    _ => None,
                }
            },
        },
    }
}

/// The features on which reading fails: a named feature without geometry,
/// with a polygon position of fewer than two coordinates, or whose votes
/// overflow `i32` when added up.
pub open spec fn feature_unreadable<G>(feature: FeatureData<G>) -> bool {
    match feature.properties {
        None => false,
        Some(props) => match feature_name(props_view(props@)) {
            None => false,
            Some(name) => match feature.geometry {
                FeatureGeometry::Missing => true,
                FeatureGeometry::BadPosition => true,
                FeatureGeometry::EmptyPolygon => false,
                _ => !sums_fit(feature_votes(props_view(props@))),
            },
        },
    }
}

/// `rec` is the record `fr`.
pub open spec fn is_feature_record<G>(rec: VoteRecord<G>, fr: FeatureRecord<G>) -> bool {
    &&& rec.wf()
    &&& rec.name_muni@ == fr.name
    &&& rec.votes_view() == fr.votes
    &&& rec.geometry == fr.geometry
    &&& rec.total_votes == vote_sum(fr.votes)
}

/// The position of the property `key`: its first occurrence.
pub(crate) fn find_property(props: &Vec<(String, JsonScalar)>, key: &str) -> (res: Option<usize>)
    ensures
        res matches Some(i) ==> i < props.len() && crate::assoc::key_index(
            props_view(props@),
            key@,
        ) == Some(i as int),
        res is None ==> crate::assoc::key_index(props_view(props@), key@) is None,
{
    let ghost s = props_view(props@);
    let mut i: usize = 0;
    while i < props.len()
        invariant
            i <= props.len(),
            s == props_view(props@),
            forall|j: int| 0 <= j < i ==> crate::assoc::keys(s)[j] != key@,
        decreases props.len() - i,
    {
        if str_eq(props[i].0.as_str(), key) {
            proof {
                crate::assoc::lemma_first_position_is(crate::assoc::keys(s), key@, Some(i as int));
            }
            return Some(i);
        }
        i = i + 1;
    }
    proof {
        crate::assoc::lemma_first_position_is(crate::assoc::keys(s), key@, None);
    }
    None
}

/// The district name of a feature, as `feature_name` describes it.
fn name_of(props: &Vec<(String, JsonScalar)>) -> (res: Option<String>)
    ensures
        match res {
            Some(s) => feature_name(props_view(props@)) == Some(s@),
            None => feature_name(props_view(props@)) is None,
        },
{
    match find_property(props, NAME_KEY) {
        Some(i) => {
            assert(props_view(props@)[i as int].1 == props@[i as int].1@);
            match &props[i].1 {
                JsonScalar::Str(s) => Some(s.clone()),
                _ => None,
            }
        },
        None => None,
    }
}

/// The votes of a feature, as `feature_votes` describes them.
fn votes_of(props: &Vec<(String, JsonScalar)>) -> (res: Vec<(String, i32)>)
    ensures
        pairs_view(res@) == feature_votes(props_view(props@)),
{
    let ghost s = props_view(props@);
    let mut votes: Vec<(String, i32)> = Vec::new();
    let mut i: usize = 0;
    assert(s.take(0) =~= Seq::<(Seq<char>, ScalarView)>::empty());
    assert(pairs_view(votes@) =~= Seq::<(Seq<char>, i32)>::empty());
    while i < props.len()
        invariant
            i <= props.len(),
            s == props_view(props@),
            pairs_view(votes@) == feature_votes(s.take(i as int)),
        decreases props.len() - i,
    {
        assert(s.take(i + 1).drop_last() =~= s.take(i as int));
        assert(s.take(i + 1).last() == s[i as int]);
        let key = &props[i].0;
        if !str_eq(key.as_str(), NAME_KEY) && !str_eq(key.as_str(), TOTAL_KEY) {
            match &props[i].1 {
                JsonScalar::Int(n) => {
                    insert_pair(&mut votes, key.clone(), *n as i32);
                },
                _ => {},
            }
        }
        i = i + 1;
    }
    assert(s.take(i as int) =~= s);
    votes
}

/// Whether reading `feature` fails, as `feature_unreadable` describes it.
pub fn is_unreadable<G>(feature: &FeatureData<G>) -> (res: bool)
    ensures
        res == feature_unreadable(*feature),
{
    match &feature.properties {
        None => false,
        Some(props) => match name_of(props) {
            None => false,
            Some(_) => match &feature.geometry {
                FeatureGeometry::Missing => true,
                FeatureGeometry::BadPosition => true,
                FeatureGeometry::EmptyPolygon => false,
                _ => {
                    let votes = votes_of(props);
                    crate::votes::checked_total(&votes).is_none()
                },
            },
        },
    }
}

/// Reads a feature as a vote record, as `feature_record` describes it.
pub fn parse_feature<G>(feature: FeatureData<G>) -> (res: Option<VoteRecord<G>>)
    requires
        !feature_unreadable(feature),
    ensures
        match feature_record(feature) {
            None => res is None,
            Some(fr) => res matches Some(rec) && is_feature_record(rec, fr),
        },
        res matches Some(rec) ==> {
            &&& feature.properties matches Some(props)
            &&& assoc_get(props_view(props@), NAME_KEY@) == Some(
                ScalarView::Str(rec.name_muni@),
            )
            &&& keys_distinct(props_view(props@)) ==> assoc_map(rec.votes_view())
                == int_properties(props_view(props@))
        },
{
    let ghost f = feature;
    let props = match feature.properties {
        None => {
            return None;
        },
        Some(props) => props,
    };
    let name = match name_of(&props) {
        None => {
            return None;
        },
        Some(name) => name,
    };
    let geometry = match feature.geometry {
        FeatureGeometry::Polygon(g) => Some(g),
        FeatureGeometry::NotPolygon => None,
        _ => {
            return None;
        },
    };
    let votes = votes_of(&props);
    proof {
        lemma_feature_votes_distinct(props_view(props@));
        if keys_distinct(props_view(props@)) {
            lemma_feature_votes_map(props_view(props@));
        }
    }
    Some(VoteRecord::new(name, votes, geometry))
}

/// The integer properties of a feature other than `name_muni` and
/// `total_votes`, each truncated to `i32`.
pub open spec fn int_properties(props: Seq<(Seq<char>, ScalarView)>) -> Map<Seq<char>, i32> {
    Map::new(
        |k: Seq<char>|
            k != NAME_KEY@ && k != TOTAL_KEY@ && assoc_map(props).dom().contains(k)
                && assoc_map(props)[k] is Int,
        |k: Seq<char>| (assoc_map(props)[k]->Int_0) as i32,
    )
}

/// The record read from a feature (whose properties, as a JSON object has
/// them, have distinct keys) is named by the string `name_muni` property and
/// has as its votes exactly the integer properties other than `name_muni`
/// and `total_votes`, each once, whatever its value (0 too).
pub proof fn lemma_feature_record_votes<G>(feature: FeatureData<G>)
    requires
        feature.properties matches Some(props) && keys_distinct(props_view(props@)),
    ensures
        feature_record(feature) matches Some(fr) ==> {
            &&& assoc_get(props_view(feature.properties->0@), NAME_KEY@) == Some(
                ScalarView::Str(fr.name),
            )
            &&& keys_distinct(fr.votes)
            &&& assoc_map(fr.votes) == int_properties(props_view(feature.properties->0@))
        },
{
    let pv = props_view(feature.properties->0@);
    lemma_feature_votes_map(pv);
    assert(assoc_map(feature_votes(pv)) =~= int_properties(pv));
}

/// The votes read from a feature name each party once.
pub proof fn lemma_feature_votes_distinct(props: Seq<(Seq<char>, ScalarView)>)
    ensures
        keys_distinct(feature_votes(props)),
    decreases props.len(),
{
    if props.len() > 0 {
        lemma_feature_votes_distinct(props.drop_last());
        let (key, value) = props.last();
        if key != NAME_KEY@ && key != TOTAL_KEY@ {
            match value {
                ScalarView::Int(n) => lemma_assoc_insert_distinct(
                    feature_votes(props.drop_last()),
                    key,
                    n as i32,
                ),
                _ => {},
            }
        }
    }
}

/// The records of a list of features: one for each feature that reads as a record, in order.
pub open spec fn features_records<G>(features: Seq<FeatureData<G>>) -> Seq<FeatureRecord<G>>
    decreases features.len(),
{
    if features.len() == 0 {
        Seq::empty()
    } else {
        let records = features_records(features.drop_last());
        match feature_record(features.last()) {
            Some(r) => records.push(r),
            None => records,
        }
    }
}

/// The results of the election `name`, read from a GeoJSON document: `None`
/// stands for a document that is not a feature collection, which gives no
/// records; otherwise every feature that reads as a record gives one, in order.
pub fn vote_from_features<G>(name: &str, collection: Option<Vec<FeatureData<G>>>) -> (res: Vote<G>)
    requires
        collection matches Some(fs) ==> forall|i: int|
            0 <= i < fs@.len() ==> !feature_unreadable(#[trigger] fs@[i]),
    ensures
        res.name@ == name@,
        match collection {
            None => res.vote_records@.len() == 0,
            Some(fs) => {
                let frs = features_records(fs@);
                &&& res.vote_records@.len() == frs.len()
                &&& forall|i: int|
                    0 <= i < frs.len() ==> is_feature_record(#[trigger] res.vote_records@[i], frs[i])
            },
        },
{
    let mut vote_records: Vec<VoteRecord<G>> = Vec::new();
    match collection {
        None => {},
        Some(mut features) => {
            let ghost all = features@;
            let n = features.len();
            let mut i: usize = 0;
            while i < n
                invariant
                    n == all.len(),
                    i <= n,
                    features@ == all.subrange(i as int, n as int),
                    forall|k: int| 0 <= k < all.len() ==> !feature_unreadable(#[trigger] all[k]),
                    vote_records@.len() == features_records(all.take(i as int)).len(),
                    forall|k: int|
                        0 <= k < vote_records@.len() ==> is_feature_record(
                            #[trigger] vote_records@[k],
                            features_records(all.take(i as int))[k],
                        ),
                decreases n - i,
            {
                assert(all.take(i + 1).drop_last() =~= all.take(i as int));
                assert(all.take(i + 1).last() == all[i as int]);
                let feature = features.remove(0);
                assert(feature == all[i as int]);
                let ghost prev = vote_records@;
                match parse_feature(feature) {
                    Some(rec) => {
                        vote_records.push(rec);
                        assert forall|k: int| 0 <= k < vote_records@.len() implies is_feature_record(
                            #[trigger] vote_records@[k],
                            features_records(all.take(i + 1))[k],
                        ) by {
                            if k < prev.len() {
                                assert(vote_records@[k] == prev[k]);
                            }
                        }
                    },
                    None => {},
                }
                i = i + 1;
                assert(features@ =~= all.subrange(i as int, n as int));
            }
            assert(all.take(n as int) =~= all);
        },
    }
    Vote { name: name.to_string(), vote_records }
}

/// A property value as the library writes it: a string, an integer, or the
/// share in percent of a party's votes (a number that the caller computes).
pub enum PropValue {
    Str(String),
    Int(i64),
    Share(String),
}

/// The view of a `PropValue`.
pub ghost enum PropView {
    Str(Seq<char>),
    Int(i64),
    Share(Seq<char>),
}

impl View for PropValue {
    type V = PropView;

    open spec fn view(&self) -> PropView {
        match self {
            PropValue::Str(s) => PropView::Str(s@),
            PropValue::Int(n) => PropView::Int(*n),
            PropValue::Share(p) => PropView::Share(p@),
        }
    }
}

/// The view of a list of written properties.
pub open spec fn written_view(props: Seq<(String, PropValue)>) -> Seq<(Seq<char>, PropView)> {
    props.map_values(|p: (String, PropValue)| (p.0@, p.1@))
}

/// The properties a record is written with, in the order they are set: the
/// district name, the total, the share of each party under the party's
/// name, and the votes of each party under its name followed by `_absolut`.
/// Where two of them have the same key, the later one stands.
pub open spec fn written_properties(name: Seq<char>, total: i32, votes: Seq<(Seq<char>, i32)>) -> Seq<
    (Seq<char>, PropView),
> {
    seq![(NAME_KEY@, PropView::Str(name)), (TOTAL_KEY@, PropView::Int(total as i64))]
        + votes.map_values(|p: (Seq<char>, i32)| (p.0, PropView::Share(p.0)))
        + votes.map_values(
        |p: (Seq<char>, i32)| (p.0 + ABSOLUTE_SUFFIX@, PropView::Int(p.1 as i64)),
    )
}

/// The properties that a record is written with, as `written_properties`
/// describes them.  Where the total is 0 and there are votes, the shares
/// have no value, and writing fails.
pub fn feature_properties<G>(record: &VoteRecord<G>) -> (res: Vec<(String, PropValue)>)
    requires
        record.total_votes != 0 || record.votes.len() == 0,
    ensures
        written_view(res@) == written_properties(
            record.name_muni@,
            record.total_votes,
            record.votes_view(),
        ),
        res@.len() == 2 + 2 * record.votes@.len(),
        written_view(res@)[0] == (NAME_KEY@, PropView::Str(record.name_muni@)),
        written_view(res@)[1] == (TOTAL_KEY@, PropView::Int(record.total_votes as i64)),
        forall|i: int|
            #![trigger record.votes@[i]]
            0 <= i < record.votes@.len() ==> written_view(res@)[2 + i] == (
                record.votes@[i].0@,
                PropView::Share(record.votes@[i].0@),
            ),
        forall|i: int|
            #![trigger record.votes@[i]]
            0 <= i < record.votes@.len() ==> written_view(res@)[2 + record.votes@.len() + i] == (
                record.votes@[i].0@ + ABSOLUTE_SUFFIX@,
                PropView::Int(record.votes@[i].1 as i64),
            ),
{
    let ghost votes = record.votes_view();
    let mut props: Vec<(String, PropValue)> = Vec::new();
    props.push((NAME_KEY.to_string(), PropValue::Str(record.name_muni.clone())));
    props.push((TOTAL_KEY.to_string(), PropValue::Int(record.total_votes as i64)));
    let ghost head = written_view(props@);
    assert(head =~= seq![
        (NAME_KEY@, PropView::Str(record.name_muni@)),
        (TOTAL_KEY@, PropView::Int(record.total_votes as i64)),
    ]);
    let mut i: usize = 0;
    while i < record.votes.len()
        invariant
            i <= record.votes.len(),
            votes == record.votes_view(),
            written_view(props@) == head + votes.take(i as int).map_values(
                |p: (Seq<char>, i32)| (p.0, PropView::Share(p.0)),
            ),
        decreases record.votes.len() - i,
    {
        let party = &record.votes[i].0;
        let ghost prev = written_view(props@);
        props.push((party.clone(), PropValue::Share(party.clone())));
        assert(votes[i as int].0 == party@);
        assert(written_view(props@) =~= prev.push((party@, PropView::Share(party@))));
        let ghost share = |p: (Seq<char>, i32)| (p.0, PropView::Share(p.0));
        assert(votes.take(i + 1).map_values(share) =~= votes.take(i as int).map_values(share).push(
            share(votes[i as int]),
        ));
        assert(written_view(props@) =~= head + votes.take(i + 1).map_values(share));
        i = i + 1;
    }
    assert(votes.take(i as int) =~= votes);
    let ghost middle = written_view(props@);
    let mut j: usize = 0;
    while j < record.votes.len()
        invariant
            j <= record.votes.len(),
            votes == record.votes_view(),
            written_view(props@) == middle + votes.take(j as int).map_values(
                |p: (Seq<char>, i32)| (p.0 + ABSOLUTE_SUFFIX@, PropView::Int(p.1 as i64)),
            ),
        decreases record.votes.len() - j,
    {
        let mut key = record.votes[j].0.clone();
        key.append(ABSOLUTE_SUFFIX);
        let ghost prev = written_view(props@);
        let count = record.votes[j].1;
        props.push((key, PropValue::Int(count as i64)));
        assert(votes[j as int] == (record.votes@[j as int].0@, count));
        assert(written_view(props@) =~= prev.push((key@, PropView::Int(count as i64))));
        let ghost absolute = |p: (Seq<char>, i32)|
            (p.0 + ABSOLUTE_SUFFIX@, PropView::Int(p.1 as i64));
        assert(votes.take(j + 1).map_values(absolute) =~= votes.take(j as int).map_values(
            absolute,
        ).push(absolute(votes[j as int])));
        assert(written_view(props@) =~= middle + votes.take(j + 1).map_values(absolute));
        j = j + 1;
    }
    assert(votes.take(j as int) =~= votes);
    proof {
        lemma_written_properties_layout(record.name_muni@, record.total_votes, votes);
        assert forall|i: int| 0 <= i < record.votes@.len() implies #[trigger] votes[i] == (
            record.votes@[i].0@,
            record.votes@[i].1,
        ) by {}
    }
    props
}

/// Where each written property stands: the district name first, the total
/// second, then for each party in turn its share under its own name, then
/// for each party in turn its votes under its name followed by `_absolut`.
/// The share written under a party's name is that party's share.
pub proof fn lemma_written_properties_layout(
    name: Seq<char>,
    total: i32,
    votes: Seq<(Seq<char>, i32)>,
)
    ensures
        written_properties(name, total, votes).len() == 2 + 2 * votes.len(),
        written_properties(name, total, votes)[0] == (NAME_KEY@, PropView::Str(name)),
        written_properties(name, total, votes)[1] == (TOTAL_KEY@, PropView::Int(total as i64)),
        forall|i: int|
            #![trigger votes[i]]
            0 <= i < votes.len() ==> written_properties(name, total, votes)[2 + i] == (
                votes[i].0,
                PropView::Share(votes[i].0),
            ),
        forall|i: int|
            #![trigger votes[i]]
            0 <= i < votes.len() ==> written_properties(name, total, votes)[2 + votes.len() + i]
                == (votes[i].0 + ABSOLUTE_SUFFIX@, PropView::Int(votes[i].1 as i64)),
{
    let w = written_properties(name, total, votes);
    let n = votes.len();
    assert forall|i: int| #![trigger votes[i]] 0 <= i < n implies w[2 + i] == (
        votes[i].0,
        PropView::Share(votes[i].0),
    ) by {}
    assert forall|i: int| #![trigger votes[i]] 0 <= i < n implies w[2 + n + i] == (
        votes[i].0 + ABSOLUTE_SUFFIX@,
        PropView::Int(votes[i].1 as i64),
    ) by {}
}

/// How a written value reads back: strings and integers as themselves, a
/// share (a number with a fractional part) as neither.
pub open spec fn read_back(v: PropView) -> ScalarView {
    match v {
        PropView::Str(s) => ScalarView::Str(s),
        PropView::Int(n) => ScalarView::Int(n),
        PropView::Share(_) => ScalarView::Other,
    }
}

/// The object a record is written as, with its values as they read back.
pub open spec fn written_object(name: Seq<char>, total: i32, votes: Seq<(Seq<char>, i32)>) -> Map<
    Seq<char>,
    ScalarView,
> {
    last_wins(
        written_properties(name, total, votes).map_values(
            |p: (Seq<char>, PropView)| (p.0, read_back(p.1)),
        ),
    )
}

/// The votes of a record under the keys they are written with: each party's
/// name followed by `_absolut`.
pub open spec fn absolute_votes(votes: Seq<(Seq<char>, i32)>) -> Map<Seq<char>, i32> {
    assoc_map(votes.map_values(|p: (Seq<char>, i32)| (p.0 + ABSOLUTE_SUFFIX@, p.1)))
}

/// The votes read from a property list with distinct keys are the `i64`
/// properties other than `name_muni` and `total_votes`, truncated to `i32`.
proof fn lemma_feature_votes_map(props: Seq<(Seq<char>, ScalarView)>)
    requires
        keys_distinct(props),
    ensures
        keys_distinct(feature_votes(props)),
        assoc_map(feature_votes(props)) == int_properties(props),
    decreases props.len(),
{
    let target = int_properties(props);
    if props.len() == 0 {
        assert(assoc_map(props) =~= Map::<Seq<char>, ScalarView>::empty());
        assert(assoc_map(feature_votes(props)) =~= target);
    } else {
        let t = props.drop_last();
        let (k, v) = props.last();
        assert(keys_distinct(t));
        lemma_feature_votes_map(t);
        lemma_last_wins_distinct(t);
        lemma_last_wins_distinct(props);
        assert(assoc_map(props) == assoc_map(t).insert(k, v));
        lemma_assoc_map_absent(t, k);
        let fv = feature_votes(t);
        if k != NAME_KEY@ && k != TOTAL_KEY@ && v is Int {
            lemma_assoc_insert_distinct(fv, k, v->Int_0 as i32);
        }
        assert(assoc_map(feature_votes(props)) =~= target);
    }
}

/// Where every value is `Other`, every key set up holds `Other`.
proof fn lemma_last_wins_all_other(s: Seq<(Seq<char>, ScalarView)>)
    requires
        forall|i: int| 0 <= i < s.len() ==> #[trigger] s[i].1 == ScalarView::Other,
    ensures
        forall|k: Seq<char>| #[trigger] last_wins(s).dom().contains(k) ==> last_wins(s)[k] == ScalarView::Other,
    decreases s.len(),
{
    if s.len() > 0 {
        assert forall|i: int| 0 <= i < s.drop_last().len() implies #[trigger] s.drop_last()[i].1
            == ScalarView::Other by {
            assert(s.drop_last()[i] == s[i]);
        }
        lemma_last_wins_all_other(s.drop_last());
        assert(s[s.len() - 1].1 == ScalarView::Other);
    }
}

proof fn lemma_suffix_keys()
    ensures
        forall|p: Seq<char>| #[trigger] (p + ABSOLUTE_SUFFIX@) != NAME_KEY@,
        forall|p: Seq<char>| #[trigger] (p + ABSOLUTE_SUFFIX@) != TOTAL_KEY@,
        forall|p: Seq<char>, q: Seq<char>|
            #[trigger] (p + ABSOLUTE_SUFFIX@) == #[trigger] (q + ABSOLUTE_SUFFIX@) ==> p == q,
{
    reveal_strlit("_absolut");
    reveal_strlit("name_muni");
    reveal_strlit("total_votes");
    assert forall|p: Seq<char>| #[trigger] (p + ABSOLUTE_SUFFIX@) != NAME_KEY@ by {
        let w = p + ABSOLUTE_SUFFIX@;
        assert(w[w.len() - 1] == 't');
        assert(NAME_KEY@[NAME_KEY@.len() - 1] == 'i');
    }
    assert forall|p: Seq<char>| #[trigger] (p + ABSOLUTE_SUFFIX@) != TOTAL_KEY@ by {
        let w = p + ABSOLUTE_SUFFIX@;
        assert(w[w.len() - 1] == 't');
        assert(TOTAL_KEY@[TOTAL_KEY@.len() - 1] == 's');
    }
    assert forall|p: Seq<char>, q: Seq<char>|
        #[trigger] (p + ABSOLUTE_SUFFIX@) == #[trigger] (q + ABSOLUTE_SUFFIX@) implies p == q by {
        let w = p + ABSOLUTE_SUFFIX@;
        let v = q + ABSOLUTE_SUFFIX@;
        assert(w.len() == p.len() + ABSOLUTE_SUFFIX@.len());
        assert(v.len() == q.len() + ABSOLUTE_SUFFIX@.len());
        assert(w.len() == v.len());
        assert(p.len() == q.len());
        assert forall|i: int| 0 <= i < p.len() implies p[i] == q[i] by {
            assert(w[i] == p[i]);
            assert(v[i] == q[i]);
        }
        assert(p =~= q);
    }
}

/// Reading back a written record: a feature whose properties are the object
/// a record was written with (listed in any order) reads back with the
/// record's district name, and with the record's votes under the keys they
/// were written with (the party followed by `_absolut`).  The shares are not
/// read, and neither is the total, but the votes read add up to the same
/// total.  This holds where no party is named `name_muni` (its share would
/// replace the district name).
pub proof fn lemma_written_record_reads_back(
    name: Seq<char>,
    total: i32,
    votes: Seq<(Seq<char>, i32)>,
    listing: Seq<(Seq<char>, ScalarView)>,
)
    requires
        keys_distinct(votes),
        forall|i: int| 0 <= i < votes.len() ==> #[trigger] votes[i].0 != NAME_KEY@,
        keys_distinct(listing),
        assoc_map(listing) == written_object(name, total, votes),
    ensures
        feature_name(listing) == Some(name),
        assoc_map(feature_votes(listing)) == absolute_votes(votes),
        vote_sum(feature_votes(listing)) == vote_sum(votes),
{
    lemma_suffix_keys();
    let f = |p: (Seq<char>, PropView)| (p.0, read_back(p.1));
    let a = seq![(NAME_KEY@, PropView::Str(name)), (TOTAL_KEY@, PropView::Int(total as i64))];
    let b = votes.map_values(|p: (Seq<char>, i32)| (p.0, PropView::Share(p.0)));
    let c = votes.map_values(
        |p: (Seq<char>, i32)| (p.0 + ABSOLUTE_SUFFIX@, PropView::Int(p.1 as i64)),
    );
    let am = a.map_values(f);
    let bm = b.map_values(f);
    let cm = c.map_values(f);
    assert(written_properties(name, total, votes).map_values(f) =~= am + bm + cm);
    lemma_last_wins_concat(am + bm, cm);
    lemma_last_wins_concat(am, bm);
    assert(keys_distinct(cm));
    lemma_last_wins_distinct(cm);
    let abs = votes.map_values(|p: (Seq<char>, i32)| (p.0 + ABSOLUTE_SUFFIX@, p.1));
    assert(keys_distinct(abs));
    reveal_strlit("name_muni");
    reveal_strlit("total_votes");
    assert(NAME_KEY@ != TOTAL_KEY@) by {
        assert(NAME_KEY@.len() != TOTAL_KEY@.len());
    }
    let obj = written_object(name, total, votes);
    let lam = Map::<Seq<char>, ScalarView>::empty().insert(NAME_KEY@, ScalarView::Str(name)).insert(
        TOTAL_KEY@,
        ScalarView::Int(total as i64),
    );
    assert(last_wins(am) =~= lam) by {
        assert(am.len() == 2);
        assert(am[0] == (NAME_KEY@, ScalarView::Str(name)));
        assert(am[1] == (TOTAL_KEY@, ScalarView::Int(total as i64)));
        assert(am.drop_last().drop_last() =~= Seq::<(Seq<char>, ScalarView)>::empty());
        assert(am.drop_last().last() == am[0]);
        reveal_with_fuel(last_wins, 3);
    }
    assert(obj == lam.union_prefer_right(last_wins(bm)).union_prefer_right(assoc_map(cm)));
    assert forall|i: int| 0 <= i < bm.len() implies #[trigger] bm[i].1 == ScalarView::Other
        && bm[i].0 == votes[i].0 by {}
    lemma_last_wins_all_other(bm);
    // The district name.
    assert forall|i: int| 0 <= i < cm.len() implies #[trigger] cm[i].0 != NAME_KEY@ by {
        assert(cm[i].0 == votes[i].0 + ABSOLUTE_SUFFIX@);
    }
    lemma_assoc_map_absent(cm, NAME_KEY@);
    assert forall|i: int| 0 <= i < bm.len() implies #[trigger] bm[i].0 != NAME_KEY@ by {
        assert(bm[i].0 == votes[i].0);
    }
    lemma_last_wins_absent(bm, NAME_KEY@);
    assert(obj[NAME_KEY@] == ScalarView::Str(name));
    lemma_key_index(listing, NAME_KEY@);
    assert(assoc_map(listing).dom().contains(NAME_KEY@));
    // The votes.
    lemma_feature_votes_map(listing);
    let read = assoc_map(feature_votes(listing));
    let want = absolute_votes(votes);
    assert forall|k: Seq<char>| read.dom().contains(k) <==> want.dom().contains(k) by {
        lemma_key_index(cm, k);
        lemma_key_index(abs, k);
        if assoc_map(cm).dom().contains(k) {
            let i = key_index(cm, k)->0;
            assert(cm[i].0 == votes[i].0 + ABSOLUTE_SUFFIX@);
            assert(abs[i].0 == k);
            lemma_assoc_map_entry(abs, i);
            lemma_assoc_map_entry(cm, i);
        } else {
            if want.dom().contains(k) {
                let i = key_index(abs, k)->0;
                assert(cm[i].0 == k);
            }
        }
    }
    assert forall|k: Seq<char>| read.dom().contains(k) implies read[k] == want[k] by {
        lemma_key_index(cm, k);
        lemma_key_index(abs, k);
        if assoc_map(cm).dom().contains(k) {
            let i = key_index(cm, k)->0;
            assert(abs[i].0 == k);
            lemma_assoc_map_entry(abs, i);
            lemma_assoc_map_entry(cm, i);
        }
    }
    assert(read =~= want);
    lemma_vote_sum_same_map(feature_votes(listing), abs);
    lemma_vote_sum_map_keys(votes);
}

/// Renaming the parties keeps the sum.
proof fn lemma_vote_sum_map_keys(votes: Seq<(Seq<char>, i32)>)
    ensures
        vote_sum(votes.map_values(|p: (Seq<char>, i32)| (p.0 + ABSOLUTE_SUFFIX@, p.1))) == vote_sum(
            votes,
        ),
    decreases votes.len(),
{
    let f = |p: (Seq<char>, i32)| (p.0 + ABSOLUTE_SUFFIX@, p.1);
    if votes.len() > 0 {
        assert(votes.map_values(f).drop_last() =~= votes.drop_last().map_values(f));
        lemma_vote_sum_map_keys(votes.drop_last());
    }
}

} // verus!
