use vis_municipality_votes::votes::{checked_total, VoteRecord};

fn votes(pairs: &[(&str, i32)]) -> Vec<(String, i32)> {
    pairs.iter().map(|(p, n)| (p.to_string(), *n)).collect()
}

#[test]
fn new_record_totals_the_votes() {
    let rec: VoteRecord<u8> = VoteRecord::new(
        "Zentrum".to_string(),
        votes(&[("SPD", 120), ("CDU", 80), ("Linke", 55)]),
        Some(3),
    );
    assert_eq!(rec.name_muni, "Zentrum");
    assert_eq!(rec.total_votes, 255);
    assert_eq!(rec.geometry, Some(3));
    assert_eq!(rec.votes.len(), 3);
}

#[test]
fn new_record_without_votes_has_total_zero() {
    let rec: VoteRecord<u8> = VoteRecord::new("Leer".to_string(), Vec::new(), None);
    assert_eq!(rec.total_votes, 0);
}

#[test]
fn checked_total_follows_list_order() {
    assert_eq!(checked_total(&votes(&[("a", 1), ("b", -1), ("c", i32::MAX)])), Some(i32::MAX));
    assert_eq!(checked_total(&votes(&[("c", i32::MAX), ("a", 1), ("b", -1)])), None);
    assert_eq!(checked_total(&votes(&[("a", i32::MIN), ("b", -1)])), None);
    assert_eq!(checked_total(&votes(&[])), Some(0));
}

#[test]
fn checked_new_refuses_an_overflowing_total() {
    let rec: Option<VoteRecord<u8>> =
        VoteRecord::checked_new("X".to_string(), votes(&[("a", i32::MAX), ("b", 1)]), None);
    assert!(rec.is_none());
    let rec: Option<VoteRecord<u8>> =
        VoteRecord::checked_new("X".to_string(), votes(&[("a", 2), ("b", 3)]), None);
    assert_eq!(rec.map(|r| r.total_votes), Some(5));
}
