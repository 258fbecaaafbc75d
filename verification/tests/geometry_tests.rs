use vis_municipality_votes::feature::JsonScalar;
use vis_municipality_votes::geometry::{boundaries_from_features, BoundaryFeature};

fn named(name: &str) -> Option<Vec<(String, JsonScalar)>> {
    Some(vec![
        ("Nr".to_string(), JsonScalar::Int(1)),
        ("Name".to_string(), JsonScalar::Str(name.to_string())),
    ])
}

#[test]
fn later_boundary_of_a_name_replaces_the_earlier() {
    let features = vec![
        BoundaryFeature { properties: named("Zentrum"), polygon: Some(1u8) },
        BoundaryFeature { properties: named("Süd"), polygon: Some(2u8) },
        BoundaryFeature { properties: named("Zentrum"), polygon: Some(3u8) },
    ];
    let map = boundaries_from_features(Some(features)).ok().expect("a collection");
    assert_eq!(map, vec![("Zentrum".to_string(), 3), ("Süd".to_string(), 2)]);
}

#[test]
fn features_without_name_or_polygon_are_skipped() {
    let features = vec![
        BoundaryFeature { properties: None, polygon: Some(1u8) },
        BoundaryFeature { properties: named("A"), polygon: None },
        BoundaryFeature {
            properties: Some(vec![("Name".to_string(), JsonScalar::Int(5))]),
            polygon: Some(2u8),
        },
        BoundaryFeature { properties: named("B"), polygon: Some(4u8) },
    ];
    let map = boundaries_from_features(Some(features)).ok().expect("a collection");
    assert_eq!(map, vec![("B".to_string(), 4)]);
}

#[test]
fn document_that_is_no_collection_is_an_error() {
    assert!(boundaries_from_features::<u8>(None).is_err());
}
