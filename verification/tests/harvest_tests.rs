use vis_municipality_votes::harvest::{
    csv_source_url, csv_url_choice, get_column_index, votes_from_table, CsvTable, CsvUrl, CSV_DELIMITER, CSV_LINK_SELECTOR, DISTRICT_COLUMN, LINK_ATTRIBUTE, records_from_table, votes_from_csv, HarvestError,
};

fn party_map(pairs: &[(&str, &str)]) -> Vec<(String, String)> {
    pairs.iter().map(|(c, p)| (c.to_string(), p.to_string())).collect()
}

fn strings(items: &[&str]) -> Vec<String> {
    items.iter().map(|s| s.to_string()).collect()
}

const TABLE: &str = "gebiet-nr;gebiet-name;D1;D2\n01;Zentrum;120;80\n02;Altlindenau;55;60\n";

#[test]
fn csv_link_on_the_page_is_taken() {
    let html = r#"<html><body>
        <a href="/files/wahl.pdf">PDF</a>
        <a href="/files/Ergebnisse_Ortsteil_2024.csv">CSV</a>
        <a href="/files/Ergebnisse_Ortsteil_alt.csv">old</a>
    </body></html>"#;
    let configured = Some("https://example.org/default.csv".to_string());
    match csv_source_url(html, &configured) {
        Ok(CsvUrl::Scraped(url)) => assert_eq!(url, "/files/Ergebnisse_Ortsteil_2024.csv"),
        _ => panic!("expected the link of the page"),
    }
}

#[test]
fn configured_url_is_taken_without_a_link() {
    let html = r#"<html><body><a href="/files/Stadtbezirk.csv">CSV</a></body></html>"#;
    let configured = Some("https://example.org/default.csv".to_string());
    match csv_source_url(html, &configured) {
        Ok(CsvUrl::Configured(url)) => assert_eq!(url, "https://example.org/default.csv"),
        _ => panic!("expected the configured url"),
    }
    assert!(matches!(csv_source_url(html, &None), Ok(CsvUrl::Missing)));
}

#[test]
fn column_index_is_the_first_match() {
    let headers = strings(&["a", "b", "a"]);
    assert_eq!(get_column_index(&headers, "a"), Some(0));
    assert_eq!(get_column_index(&headers, "b"), Some(1));
    assert_eq!(get_column_index(&headers, "c"), None);
}

#[test]
fn table_gives_one_record_per_row() {
    let geometries = vec![("Zentrum".to_string(), 7u32)];
    let vote = votes_from_csv("Wahl", TABLE, &party_map(&[("D1", "SPD"), ("D2", "CDU")]), &geometries)
        .ok()
        .expect("table should read");
    assert_eq!(vote.name, "Wahl");
    assert_eq!(vote.vote_records.len(), 2);
    let first = &vote.vote_records[0];
    assert_eq!(first.name_muni, "Zentrum");
    assert_eq!(first.votes, vec![("SPD".to_string(), 120), ("CDU".to_string(), 80)]);
    assert_eq!(first.total_votes, 200);
    assert_eq!(first.geometry, Some(7));
    let second = &vote.vote_records[1];
    assert_eq!(second.name_muni, "Altlindenau");
    assert_eq!(second.total_votes, 115);
    assert_eq!(second.geometry, None);
}

#[test]
fn two_columns_of_one_party_keep_the_later() {
    let vote = votes_from_csv::<u32>(
        "Wahl",
        TABLE,
        &party_map(&[("D1", "SPD"), ("D2", "SPD")]),
        &Vec::new(),
    )
    .ok()
    .expect("table should read");
    assert_eq!(vote.vote_records[0].votes, vec![("SPD".to_string(), 80)]);
    assert_eq!(vote.vote_records[0].total_votes, 80);
}

#[test]
fn missing_party_column_is_an_error() {
    let res = votes_from_csv::<u32>("Wahl", TABLE, &party_map(&[("D9", "SPD")]), &Vec::new());
    assert!(matches!(res, Err(HarvestError::MissingColumn(c)) if c == "D9"));
}

#[test]
fn missing_district_column_is_an_error_once_there_are_rows() {
    let res = votes_from_csv::<u32>("Wahl", "x;D1\na;1\n", &party_map(&[("D1", "SPD")]), &Vec::new());
    assert!(matches!(res, Err(HarvestError::MissingColumn(c)) if c == "gebiet-name"));
    let res = votes_from_csv::<u32>("Wahl", "x;D1\n", &party_map(&[("D1", "SPD")]), &Vec::new());
    assert!(matches!(res, Ok(v) if v.vote_records.is_empty()));
}

#[test]
fn unparsable_count_is_an_error() {
    let table = "gebiet-name;D1\nZentrum;12\nSüd;n/a\n";
    let res = votes_from_csv::<u32>("Wahl", table, &party_map(&[("D1", "SPD")]), &Vec::new());
    assert!(matches!(res, Err(HarvestError::BadVoteCount(m)) if m == "Süd"));
}

#[test]
fn overflowing_total_is_reported() {
    let table = "gebiet-name;D1;D2\nZentrum;2147483647;1\n";
    let res = votes_from_csv::<u32>(
        "Wahl",
        table,
        &party_map(&[("D1", "SPD"), ("D2", "CDU")]),
        &Vec::new(),
    );
    assert!(matches!(res, Err(HarvestError::VoteTotalOverflow(m)) if m == "Zentrum"));
}

#[test]
fn ragged_table_is_a_csv_error() {
    let table = "gebiet-name;D1\nZentrum;12\nSüd;1;2\n";
    let res = votes_from_csv::<u32>("Wahl", table, &party_map(&[("D1", "SPD")]), &Vec::new());
    assert!(matches!(res, Err(HarvestError::Csv(_))));
}

#[test]
fn row_error_comes_before_a_later_csv_error() {
    let table = "gebiet-name;D1\nZentrum;x\nSüd;1;2\n";
    let res = votes_from_csv::<u32>("Wahl", table, &party_map(&[("D1", "SPD")]), &Vec::new());
    assert!(matches!(res, Err(HarvestError::BadVoteCount(m)) if m == "Zentrum"));
}

#[test]
fn records_from_a_table_in_memory() {
    let headers = strings(&["gebiet-name", "P"]);
    let rows: Vec<Result<Vec<String>, csv::Error>> =
        vec![Ok(strings(&["A", "3"])), Ok(strings(&["B", "-4"]))];
    let geometries = vec![("B".to_string(), 1u8), ("B".to_string(), 2u8)];
    let recs = records_from_table(&headers, rows, &party_map(&[("P", "X")]), &geometries)
        .ok()
        .expect("rows should read");
    assert_eq!(recs.len(), 2);
    assert_eq!(recs[1].total_votes, -4);
    assert_eq!(recs[1].geometry, Some(1));
    assert_eq!(recs[0].geometry, None);
}

#[test]
fn table_format_constants() {
    assert_eq!(CSV_DELIMITER, b';');
    assert_eq!(DISTRICT_COLUMN, "gebiet-name");
    assert_eq!(CSV_LINK_SELECTOR, "a[href$='.csv'][href*='Ortsteil']");
    assert_eq!(LINK_ATTRIBUTE, "href");
}

#[test]
fn comma_separated_table_has_no_district_column() {
    let res = votes_from_csv::<u32>("Wahl", "gebiet-name,D1
A,1
", &party_map(&[("D1", "SPD")]), &Vec::new());
    assert!(matches!(res, Err(HarvestError::MissingColumn(c)) if c == "gebiet-name"));
}

#[test]
fn url_choice_prefers_the_page_link() {
    let configured = Some("conf.csv".to_string());
    assert!(matches!(
        csv_url_choice(Some(Some("page.csv".to_string())), &configured),
        Ok(CsvUrl::Scraped(u)) if u == "page.csv"
    ));
    assert!(matches!(
        csv_url_choice(Some(None), &configured),
        Ok(CsvUrl::Configured(u)) if u == "conf.csv"
    ));
    assert!(matches!(csv_url_choice(Some(None), &None), Ok(CsvUrl::Missing)));
    assert!(csv_url_choice(None, &configured).is_err());
}

fn reader_error() -> csv::Error {
    let mut reader = csv::ReaderBuilder::new()
        .has_headers(false)
        .from_reader("a,b\nc\n".as_bytes());
    reader.records().filter_map(|r| r.err()).next().expect("a ragged table gives an error")
}

#[test]
fn table_stops_at_the_reader_error_after_good_rows() {
    let table = CsvTable {
        headers: strings(&["gebiet-name", "P"]),
        records: vec![Ok(strings(&["A", "3"])), Err(reader_error()), Ok(strings(&["B", "x"]))],
    };
    let res = votes_from_table::<u8>("Wahl", Ok(table), &party_map(&[("P", "X")]), &Vec::new());
    assert!(matches!(res, Err(HarvestError::Csv(_))));
}

#[test]
fn table_without_header_gives_the_reader_error() {
    let res = votes_from_table::<u8>("Wahl", Err(reader_error()), &party_map(&[("P", "X")]), &Vec::new());
    assert!(matches!(res, Err(HarvestError::Csv(_))));
}

#[test]
fn row_error_before_a_reader_error_wins() {
    let table = CsvTable {
        headers: strings(&["gebiet-name", "P"]),
        records: vec![Ok(strings(&["A", "x"])), Err(reader_error())],
    };
    let res = votes_from_table::<u8>("Wahl", Ok(table), &party_map(&[("P", "X")]), &Vec::new());
    assert!(matches!(res, Err(HarvestError::BadVoteCount(m)) if m == "A"));
}
