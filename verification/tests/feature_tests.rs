use vis_municipality_votes::feature::{
    feature_properties, is_unreadable, parse_feature, vote_from_features, FeatureData,
    FeatureGeometry, JsonScalar, PropValue,
};
use vis_municipality_votes::votes::VoteRecord;

fn props(items: Vec<(&str, JsonScalar)>) -> Option<Vec<(String, JsonScalar)>> {
    Some(items.into_iter().map(|(k, v)| (k.to_string(), v)).collect())
}

fn district(name: &str) -> JsonScalar {
    JsonScalar::Str(name.to_string())
}

#[test]
fn feature_reads_integer_properties_as_votes() {
    let feature = FeatureData {
        properties: props(vec![
            ("name_muni", district("Zentrum")),
            ("total_votes", JsonScalar::Int(200)),
            ("SPD", JsonScalar::Other),
            ("SPD_absolut", JsonScalar::Int(120)),
            ("CDU_absolut", JsonScalar::Int(80)),
            ("comment", district("text")),
        ]),
        geometry: FeatureGeometry::Polygon(5u8),
    };
    let rec = parse_feature(feature).expect("feature should read");
    assert_eq!(rec.name_muni, "Zentrum");
    assert_eq!(
        rec.votes,
        vec![("SPD_absolut".to_string(), 120), ("CDU_absolut".to_string(), 80)]
    );
    assert_eq!(rec.total_votes, 200);
    assert_eq!(rec.geometry, Some(5));
}

#[test]
fn feature_counts_are_truncated_to_i32() {
    let feature = FeatureData {
        properties: props(vec![("name_muni", district("A")), ("x", JsonScalar::Int(4294967297))]),
        geometry: FeatureGeometry::<u8>::NotPolygon,
    };
    let rec = parse_feature(feature).expect("feature should read");
    assert_eq!(rec.votes, vec![("x".to_string(), 1)]);
    assert_eq!(rec.geometry, None);
}

#[test]
fn features_that_do_not_read() {
    let no_props: FeatureData<u8> =
        FeatureData { properties: None, geometry: FeatureGeometry::Missing };
    assert!(!is_unreadable(&no_props));
    assert!(parse_feature(no_props).is_none());
    let no_name: FeatureData<u8> = FeatureData {
        properties: props(vec![("name_muni", JsonScalar::Int(3))]),
        geometry: FeatureGeometry::Missing,
    };
    assert!(!is_unreadable(&no_name));
    assert!(parse_feature(no_name).is_none());
    let empty_polygon: FeatureData<u8> = FeatureData {
        properties: props(vec![("name_muni", district("A"))]),
        geometry: FeatureGeometry::EmptyPolygon,
    };
    assert!(parse_feature(empty_polygon).is_none());
}

#[test]
fn named_features_without_usable_geometry_are_unreadable() {
    let missing: FeatureData<u8> = FeatureData {
        properties: props(vec![("name_muni", district("A"))]),
        geometry: FeatureGeometry::Missing,
    };
    assert!(is_unreadable(&missing));
    let bad: FeatureData<u8> = FeatureData {
        properties: props(vec![("name_muni", district("A"))]),
        geometry: FeatureGeometry::BadPosition,
    };
    assert!(is_unreadable(&bad));
    let overflow: FeatureData<u8> = FeatureData {
        properties: props(vec![
            ("name_muni", district("A")),
            ("a", JsonScalar::Int(2147483647)),
            ("b", JsonScalar::Int(1)),
        ]),
        geometry: FeatureGeometry::NotPolygon,
    };
    assert!(is_unreadable(&overflow));
}

#[test]
fn document_that_is_no_collection_gives_no_records() {
    let vote = vote_from_features::<u8>("Wahl", None);
    assert_eq!(vote.name, "Wahl");
    assert!(vote.vote_records.is_empty());
}

#[test]
fn collection_keeps_the_features_that_read() {
    let features = vec![
        FeatureData {
            properties: props(vec![("name_muni", district("A")), ("X_absolut", JsonScalar::Int(4))]),
            geometry: FeatureGeometry::Polygon(1u8),
        },
        FeatureData { properties: None, geometry: FeatureGeometry::Polygon(2u8) },
        FeatureData {
            properties: props(vec![("name_muni", district("B"))]),
            geometry: FeatureGeometry::NotPolygon,
        },
    ];
    let vote = vote_from_features("Wahl", Some(features));
    assert_eq!(vote.vote_records.len(), 2);
    assert_eq!(vote.vote_records[0].name_muni, "A");
    assert_eq!(vote.vote_records[0].total_votes, 4);
    assert_eq!(vote.vote_records[1].name_muni, "B");
    assert_eq!(vote.vote_records[1].geometry, None);
}

fn record() -> VoteRecord<u8> {
    VoteRecord::new(
        "Zentrum".to_string(),
        vec![("SPD".to_string(), 120), ("CDU".to_string(), 80)],
        Some(9),
    )
}

#[test]
fn record_is_written_with_name_total_shares_and_absolutes() {
    let written = feature_properties(&record());
    let keys: Vec<&str> = written.iter().map(|(k, _)| k.as_str()).collect();
    assert_eq!(keys, vec!["name_muni", "total_votes", "SPD", "CDU", "SPD_absolut", "CDU_absolut"]);
    assert!(matches!(&written[0].1, PropValue::Str(s) if s == "Zentrum"));
    assert!(matches!(&written[1].1, PropValue::Int(200)));
    assert!(matches!(&written[2].1, PropValue::Share(p) if p == "SPD"));
    assert!(matches!(&written[4].1, PropValue::Int(120)));
    assert!(matches!(&written[5].1, PropValue::Int(80)));
}

#[test]
fn written_record_reads_back_with_absolute_keys() {
    let rec = record();
    let written = feature_properties(&rec);
    // As JSON keeps them: one value per key, shares as fractional numbers.
    let mut read_props: Vec<(String, JsonScalar)> = Vec::new();
    for (k, v) in written.into_iter() {
        let value = match v {
            PropValue::Str(s) => JsonScalar::Str(s),
            PropValue::Int(n) => JsonScalar::Int(n),
            PropValue::Share(_) => JsonScalar::Other,
        };
        read_props.retain(|(key, _)| key != &k);
        read_props.push((k, value));
    }
    read_props.sort_by(|a, b| a.0.cmp(&b.0));
    let back = parse_feature(FeatureData {
        properties: Some(read_props),
        geometry: FeatureGeometry::Polygon(9u8),
    })
    .expect("written record should read back");
    assert_eq!(back.name_muni, rec.name_muni);
    let mut votes = back.votes.clone();
    votes.sort();
    assert_eq!(votes, vec![("CDU_absolut".to_string(), 80), ("SPD_absolut".to_string(), 120)]);
    assert_eq!(back.total_votes, rec.total_votes);
}
