//! Harvesting the results of an election from the city's web pages.
//!
//! The results page links to a semicolon separated table with one row per
//! district.  The library picks that link out of the page and turns the
//! table into vote records; fetching the page and the table is left to the
//! caller.
use vstd::prelude::*;

use crate::assoc::{
    assoc_insert, assoc_map, first_position, insert_pair, keys, keys_distinct, lemma_assoc_insert_distinct, lemma_key_index,
    pairs_view, position_of, string_pairs_view, strings_view,
};
use crate::text::{parse_i32, parse_i32_spec};
use crate::votes::{sums_fit, vote_sum, Vote, VoteRecord};

verus! {

/// The error of the `csv` reader, carried as it is.
#[verifier::external_type_specification]
#[verifier::external_body]
pub struct ExCsvError(csv::Error);

/// The CSS selector of the link to the district table on the results page.
pub const CSV_LINK_SELECTOR: &'static str = "a[href$='.csv'][href*='Ortsteil']";

/// The field separator of the district table: `;`.
pub const CSV_DELIMITER: u8 = 59u8;

/// The column of the district table that names the district.
pub const DISTRICT_COLUMN: &'static str = "gebiet-name";

/// The attribute of the table link that holds its URL.
pub const LINK_ATTRIBUTE: &'static str = "href";

/// What `scraper` finds for `selector` in the HTML document `html`: `None`
/// where the selector does not parse, else the value of `attribute` on the
/// first matching element, if it has that attribute.
pub uninterp spec fn css_first_attr(html: Seq<char>, selector: Seq<char>, attribute: Seq<char>) -> Option<
    Option<Seq<char>>,
>;

/// Parses `html` with `scraper::Html::parse_document` and `selector` with
/// `scraper::Selector::parse`, and gives the value of `attribute`
/// (`Element::attr`) on the first element that the selector matches.  The
/// contract only names the result: it is a function of the three texts.
#[verifier::external_body]
fn first_matching_attr(html: &str, selector: &str, attribute: &str) -> (res: Option<Option<String>>)
    ensures
        match res {
            None => css_first_attr(html@, selector@, attribute@) is None,
            Some(None) => css_first_attr(html@, selector@, attribute@) == Some(None::<Seq<char>>),
            Some(Some(v)) => css_first_attr(html@, selector@, attribute@) == Some(Some(v@)),
        },
{
    let selector = scraper::Selector::parse(selector).ok()?;
    let document = scraper::Html::parse_document(html);
    match document.select(&selector).next() {
        Some(element) => Some(element.value().attr(attribute).map(|v| v.to_string())),
        None => Some(None),
    }
}

/// A table as the CSV reader delivers it: the header row, and each record
/// after it in turn, or the error the reader gave in its place.
pub struct CsvTable {
    pub headers: Vec<String>,
    pub records: Vec<Result<Vec<String>, csv::Error>>,
}

/// The view of the records of a table: a record read, or `None` for an error.
pub open spec fn records_view(records: Seq<Result<Vec<String>, csv::Error>>) -> Seq<
    Option<Seq<Seq<char>>>,
> {
    records.map_values(
        |r: Result<Vec<String>, csv::Error>|
            match r {
                Ok(fields) => Some(strings_view(fields@)),
                Err(_) => None,
            },
    )
}

/// What the `csv` reader (fields separated by `delimiter`, first row as
/// headers) makes of `content`: `None` where the header row cannot be read,
/// else the header row and each later record, or `None` in a record's place
/// where the reader gave an error for it.
pub uninterp spec fn csv_table(content: Seq<char>, delimiter: u8) -> Option<
    (Seq<Seq<char>>, Seq<Option<Seq<Seq<char>>>>),
>;

/// Reads `content` with `csv::ReaderBuilder` (the given delimiter, headers on),
/// `Reader::headers` and `Reader::records`, collecting every record or error.
/// The contract names the result, and states what `csv`'s source shows of
/// it: without `flexible`, every record the reader yields has as many fields
/// as the header row (the reader returns an `UnequalLengths` error otherwise).
#[verifier::external_body]
fn read_csv(content: &str, delimiter: u8) -> (res: Result<CsvTable, csv::Error>)
    ensures
        match res {
            Err(_) => csv_table(content@, delimiter) is None,
            Ok(t) => {
                &&& csv_table(content@, delimiter) == Some(
                    (strings_view(t.headers@), records_view(t.records@)),
                )
                &&& rows_fit_headers(t.headers@.len(), t.records@)
            },
        },
{
    let mut reader = csv::ReaderBuilder::new().delimiter(delimiter).has_headers(true).from_reader(
        content.as_bytes(),
    );
    let headers: Vec<String> = reader.headers()?.iter().map(|h| h.to_string()).collect();
    let records: Vec<Result<Vec<String>, csv::Error>> = reader.records().map(
        |r| r.map(|record| record.iter().map(|f| f.to_string()).collect()),
    ).collect();
    Ok(CsvTable { headers, records })
}

/// Every record read has `n` fields.
pub open spec fn rows_fit_headers(n: nat, records: Seq<Result<Vec<String>, csv::Error>>) -> bool {
    forall|i: int|
        0 <= i < records.len() ==> (#[trigger] records[i] matches Ok(fields) ==> fields.len() == n)
}

/// Why harvesting failed.
pub enum HarvestError {
    /// The CSV reader rejected the table.
    Csv(csv::Error),
    /// The table has no column of this name.
    MissingColumn(String),
    /// A vote count of the district of this name is not a decimal `i32`.
    BadVoteCount(String),
    /// Adding up the votes of the district of this name leaves the range of
    /// `i32`: there the running total would overflow.
    VoteTotalOverflow(String),
}

/// The view of a `HarvestError`.
pub ghost enum HarvestFailure {
    Csv,
    MissingColumn(Seq<char>),
    BadVoteCount(Seq<char>),
    VoteTotalOverflow(Seq<char>),
}

impl View for HarvestError {
    type V = HarvestFailure;

    open spec fn view(&self) -> HarvestFailure {
        match self {
            HarvestError::Csv(_) => HarvestFailure::Csv,
            HarvestError::MissingColumn(c) => HarvestFailure::MissingColumn(c@),
            HarvestError::BadVoteCount(m) => HarvestFailure::BadVoteCount(m@),
            HarvestError::VoteTotalOverflow(m) => HarvestFailure::VoteTotalOverflow(m@),
        }
    }
}

/// A district record as the table gives it: the district's name, its votes
/// per party, and where its boundary stands in the list of boundaries.
pub ghost struct RowRecord {
    pub name: Seq<char>,
    pub votes: Seq<(Seq<char>, i32)>,
    pub geometry: Option<int>,
}

/// The votes of one row: for each (column, party) of the party map in turn,
/// the count in that column, parsed as an `i32`, is recorded for the party.
/// A missing column or a count that does not parse stops the row.
pub open spec fn row_votes(
    headers: Seq<Seq<char>>,
    row: Seq<Seq<char>>,
    party_map: Seq<(Seq<char>, Seq<char>)>,
    district: Seq<char>,
) -> Result<Seq<(Seq<char>, i32)>, HarvestFailure>
    decreases party_map.len(),
{
    if party_map.len() == 0 {
        Ok(Seq::empty())
    } else {
        match row_votes(headers, row, party_map.drop_last(), district) {
            Err(e) => Err(e),
            Ok(votes) => {
                let (column, party) = party_map.last();
                match first_position(headers, column) {
                    None => Err(HarvestFailure::MissingColumn(column)),
                    Some(idx) => match parse_i32_spec(row[idx]) {
                        None => Err(HarvestFailure::BadVoteCount(district)),
                        Some(n) => Ok(assoc_insert(votes, party, n)),
                    },
                }
            },
        }
    }
}

/// The record of one row: its district is named in the district column, its
/// votes are `row_votes`, its total must stay in range, and its boundary is
/// the first boundary of that district's name.
pub open spec fn row_record(
    headers: Seq<Seq<char>>,
    row: Seq<Seq<char>>,
    party_map: Seq<(Seq<char>, Seq<char>)>,
    geometry_names: Seq<Seq<char>>,
) -> Result<RowRecord, HarvestFailure> {
    match first_position(headers, DISTRICT_COLUMN@) {
        None => Err(HarvestFailure::MissingColumn(DISTRICT_COLUMN@)),
        Some(di) => {
            let district = row[di];
            match row_votes(headers, row, party_map, district) {
                Err(e) => Err(e),
                Ok(votes) => if sums_fit(votes) {
                    Ok(
                        RowRecord {
                            name: district,
                            votes,
                            geometry: first_position(geometry_names, district),
                        },
                    )
                } else {
                    Err(HarvestFailure::VoteTotalOverflow(district))
                },
            }
        },
    }
}

/// The records of a table, in order: a record the reader could not read, or
/// a row that fails, stops the table with its error.
pub open spec fn table_records(
    headers: Seq<Seq<char>>,
    records: Seq<Option<Seq<Seq<char>>>>,
    party_map: Seq<(Seq<char>, Seq<char>)>,
    geometry_names: Seq<Seq<char>>,
) -> Result<Seq<RowRecord>, HarvestFailure>
    decreases records.len(),
{
    if records.len() == 0 {
        Ok(Seq::empty())
    } else {
        match table_records(headers, records.drop_last(), party_map, geometry_names) {
            Err(e) => Err(e),
            Ok(done) => match records.last() {
                None => Err(HarvestFailure::Csv),
                Some(row) => match row_record(headers, row, party_map, geometry_names) {
                    Err(e) => Err(e),
                    Ok(r) => Ok(done.push(r)),
                },
            },
        }
    }
}

/// The records of a district table given as text; a table whose header row
/// the reader cannot read fails at once.
pub open spec fn csv_records(
    content: Seq<char>,
    party_map: Seq<(Seq<char>, Seq<char>)>,
    geometry_names: Seq<Seq<char>>,
) -> Result<Seq<RowRecord>, HarvestFailure> {
    match csv_table(content, CSV_DELIMITER) {
        None => Err(HarvestFailure::Csv),
        Some((headers, records)) => table_records(headers, records, party_map, geometry_names),
    }
}

/// `i` is the first record for which the reader gave an error.
pub open spec fn first_reader_error(records: Seq<Result<Vec<String>, csv::Error>>, i: int) -> bool {
    &&& 0 <= i < records.len()
    &&& records[i] is Err
    &&& forall|j: int| 0 <= j < i ==> #[trigger] records[j] is Ok
}

/// The votes of a row name each party once.
pub proof fn lemma_row_votes_distinct(
    headers: Seq<Seq<char>>,
    row: Seq<Seq<char>>,
    party_map: Seq<(Seq<char>, Seq<char>)>,
    district: Seq<char>,
)
    ensures
        row_votes(headers, row, party_map, district) matches Ok(votes) ==> keys_distinct(votes),
    decreases party_map.len(),
{
    if party_map.len() > 0 {
        lemma_row_votes_distinct(headers, row, party_map.drop_last(), district);
        match row_votes(headers, row, party_map.drop_last(), district) {
            Ok(votes) => {
                let (column, party) = party_map.last();
                match first_position(headers, column) {
                    Some(idx) => match parse_i32_spec(row[idx]) {
                        Some(n) => lemma_assoc_insert_distinct(votes, party, n),
                        None => {},
                    },
                    None => {},
                }
            },
            Err(_) => {},
        }
    }
}

/// The count that a row holds in `column`: the cell of the first header of
/// that name, read as an `i32`; `None` where there is no such column or the
/// cell is not a decimal `i32`.
pub open spec fn cell_count(headers: Seq<Seq<char>>, row: Seq<Seq<char>>, column: Seq<char>) -> Option<i32> {
    match first_position(headers, column) {
        Some(idx) => parse_i32_spec(row[idx]),
        None => None,
    }
}

/// The votes of a row, law by law: the row reads exactly where every column
/// of the party map is there and holds a decimal `i32`; then the votes name
/// each party of the party map once, and no other, and give each party the
/// count of the last column mapped to it, whatever that count is (0 too).
pub proof fn lemma_row_votes_parties(
    headers: Seq<Seq<char>>,
    row: Seq<Seq<char>>,
    party_map: Seq<(Seq<char>, Seq<char>)>,
    district: Seq<char>,
)
    ensures
        row_votes(headers, row, party_map, district) is Ok <==> forall|j: int|
            0 <= j < party_map.len() ==> #[trigger] cell_count(headers, row, party_map[j].0) is Some,
        row_votes(headers, row, party_map, district) matches Ok(votes) ==> {
            &&& keys_distinct(votes)
            &&& forall|p: Seq<char>|
                #[trigger] assoc_map(votes).dom().contains(p) <==> exists|j: int|
                    0 <= j < party_map.len() && #[trigger] party_map[j].1 == p
            &&& forall|j: int|
                0 <= j < party_map.len() && (forall|k: int|
                    j < k < party_map.len() ==> #[trigger] party_map[k].1 != party_map[j].1)
                    ==> assoc_map(votes)[#[trigger] party_map[j].1] == cell_count(
                    headers,
                    row,
                    party_map[j].0,
                )->0
        },
    decreases party_map.len(),
{
    lemma_row_votes_distinct(headers, row, party_map, district);
    if party_map.len() == 0 {
        match row_votes(headers, row, party_map, district) {
            Ok(votes) => {
                assert(votes =~= Seq::<(Seq<char>, i32)>::empty());
                assert forall|p: Seq<char>| !#[trigger] assoc_map(votes).dom().contains(p) by {
                    lemma_key_index(votes, p);
                }
            },
            Err(_) => {},
        }
    } else {
        let pm = party_map.drop_last();
        let last = party_map.len() - 1;
        let (column, party) = party_map.last();
        lemma_row_votes_parties(headers, row, pm, district);
        lemma_row_votes_distinct(headers, row, pm, district);
        assert forall|j: int| 0 <= j < pm.len() implies pm[j] == party_map[j] by {}
        match row_votes(headers, row, pm, district) {
            Err(_) => {
                assert(row_votes(headers, row, party_map, district) is Err);
                let j = choose|j: int| 0 <= j < pm.len() && !(#[trigger] cell_count(headers, row, pm[j].0) is Some);
                assert(!(cell_count(headers, row, party_map[j].0) is Some));
            },
            Ok(before) => {
                assert forall|j: int| 0 <= j < pm.len() implies #[trigger] cell_count(
                    headers,
                    row,
                    party_map[j].0,
                ) is Some by {
                    assert(cell_count(headers, row, pm[j].0) is Some);
                }
                match cell_count(headers, row, column) {
                    None => {
                        assert(row_votes(headers, row, party_map, district) is Err);
                        assert(!(cell_count(headers, row, party_map[last].0) is Some));
                    },
                    Some(n) => {
                        let votes = assoc_insert(before, party, n);
                        assert(row_votes(headers, row, party_map, district) == Ok::<
                            Seq<(Seq<char>, i32)>,
                            HarvestFailure,
                        >(votes));
                        lemma_assoc_insert_distinct(before, party, n);
                        assert forall|p: Seq<char>|
                            #[trigger] assoc_map(votes).dom().contains(p) <==> exists|j: int|
                                0 <= j < party_map.len() && #[trigger] party_map[j].1 == p by {
                            if assoc_map(before).dom().contains(p) {
                                let j = choose|j: int| 0 <= j < pm.len() && #[trigger] pm[j].1 == p;
                                assert(party_map[j].1 == p);
                            }
                            if p == party {
                                assert(party_map[last].1 == p);
                            }
                            if exists|j: int| 0 <= j < party_map.len() && #[trigger] party_map[j].1 == p {
                                let j = choose|j: int|
                                    0 <= j < party_map.len() && #[trigger] party_map[j].1 == p;
                                if j < last {
                                    assert(pm[j].1 == p);
                                }
                            }
                        }
                        assert forall|j: int|
                            0 <= j < party_map.len() && (forall|k: int|
                                j < k < party_map.len() ==> #[trigger] party_map[k].1
                                    != party_map[j].1) implies assoc_map(votes)[#[trigger] party_map[j].1]
                            == cell_count(headers, row, party_map[j].0)->0 by {
                            if j < last {
                                assert(party_map[last].1 != party_map[j].1);
                                assert forall|k: int| j < k < pm.len() implies #[trigger] pm[k].1 != pm[j].1 by {
                                    assert(party_map[k].1 != party_map[j].1);
                                }
                                assert(pm[j] == party_map[j]);
                            }
                        }
                    },
                }
            },
        }
    }
}

/// `rr` is what the harvest makes of `row`: it is named by the row's cell in
/// the district column, and its votes name each party of the party map once,
/// and no other, each with the count of the last column mapped to it,
/// whatever that count is (0 too); every column of the party map is there
/// and holds a decimal `i32`.
pub open spec fn harvested_from(
    headers: Seq<Seq<char>>,
    row: Seq<Seq<char>>,
    party_map: Seq<(Seq<char>, Seq<char>)>,
    rr: RowRecord,
) -> bool {
    &&& first_position(headers, DISTRICT_COLUMN@) is Some
    &&& rr.name == row[first_position(headers, DISTRICT_COLUMN@)->0]
    &&& forall|j: int|
        0 <= j < party_map.len() ==> #[trigger] cell_count(headers, row, party_map[j].0) is Some
    &&& keys_distinct(rr.votes)
    &&& forall|p: Seq<char>|
        #[trigger] assoc_map(rr.votes).dom().contains(p) <==> exists|j: int|
            0 <= j < party_map.len() && #[trigger] party_map[j].1 == p
    &&& forall|j: int|
        0 <= j < party_map.len() && (forall|k: int|
            j < k < party_map.len() ==> #[trigger] party_map[k].1 != party_map[j].1) ==> assoc_map(
            rr.votes,
        )[#[trigger] party_map[j].1] == cell_count(headers, row, party_map[j].0)->0
}

/// Every record harvested from a table comes from the row at its place, as
/// `harvested_from` describes it: a party whose count is 0 is recorded
/// with 0, and a party is never left out.
pub proof fn lemma_table_records_rows(
    headers: Seq<Seq<char>>,
    rows: Seq<Option<Seq<Seq<char>>>>,
    party_map: Seq<(Seq<char>, Seq<char>)>,
    geometry_names: Seq<Seq<char>>,
)
    ensures
        table_records(headers, rows, party_map, geometry_names) matches Ok(rrs) ==> {
            &&& rrs.len() == rows.len()
            &&& forall|i: int|
                0 <= i < rows.len() ==> #[trigger] rows[i] is Some && harvested_from(
                    headers,
                    rows[i]->0,
                    party_map,
                    rrs[i],
                )
        },
    decreases rows.len(),
{
    if rows.len() > 0 {
        let t = rows.drop_last();
        lemma_table_records_rows(headers, t, party_map, geometry_names);
        match table_records(headers, t, party_map, geometry_names) {
            Err(_) => {},
            Ok(done) => match rows.last() {
                None => {},
                Some(row) => {
                    match first_position(headers, DISTRICT_COLUMN@) {
                        None => {},
                        Some(di) => {
                            lemma_row_votes_parties(headers, row, party_map, row[di]);
                        },
                    }
                    match row_record(headers, row, party_map, geometry_names) {
                        Err(_) => {},
                        Ok(r) => {
                            let rrs = done.push(r);
                            assert forall|i: int| 0 <= i < rows.len() implies #[trigger] rows[i] is Some
                                && harvested_from(headers, rows[i]->0, party_map, rrs[i]) by {
                                if i < t.len() {
                                    assert(rows[i] == t[i]);
                                    assert(rrs[i] == done[i]);
                                }
                            }
                        },
                    }
                },
            },
        }
    }
}

/// Rows fail for their own reasons, never for the reader's.
proof fn lemma_row_votes_not_csv(
    headers: Seq<Seq<char>>,
    row: Seq<Seq<char>>,
    party_map: Seq<(Seq<char>, Seq<char>)>,
    district: Seq<char>,
)
    ensures
        row_votes(headers, row, party_map, district) != Err::<Seq<(Seq<char>, i32)>, HarvestFailure>(
            HarvestFailure::Csv,
        ),
    decreases party_map.len(),
{
    if party_map.len() > 0 {
        lemma_row_votes_not_csv(headers, row, party_map.drop_last(), district);
    }
}

/// Rows fail for their own reasons, never for the reader's.
proof fn lemma_row_record_not_csv(
    headers: Seq<Seq<char>>,
    row: Seq<Seq<char>>,
    party_map: Seq<(Seq<char>, Seq<char>)>,
    geometry_names: Seq<Seq<char>>,
)
    ensures
        row_record(headers, row, party_map, geometry_names) != Err::<RowRecord, HarvestFailure>(
            HarvestFailure::Csv,
        ),
{
    match first_position(headers, DISTRICT_COLUMN@) {
        Some(di) => lemma_row_votes_not_csv(headers, row, party_map, row[di]),
        None => {},
    }
}

/// A failure on a prefix of the party map is the failure of the whole row.
proof fn lemma_row_votes_error_prefix(
    headers: Seq<Seq<char>>,
    row: Seq<Seq<char>>,
    party_map: Seq<(Seq<char>, Seq<char>)>,
    district: Seq<char>,
    k: int,
)
    requires
        0 <= k <= party_map.len(),
        row_votes(headers, row, party_map.take(k), district) is Err,
    ensures
        row_votes(headers, row, party_map, district) == row_votes(
            headers,
            row,
            party_map.take(k),
            district,
        ),
    decreases party_map.len(),
{
    if k == party_map.len() {
        assert(party_map.take(k) =~= party_map);
    } else {
        assert(party_map.drop_last().take(k) =~= party_map.take(k));
        lemma_row_votes_error_prefix(headers, row, party_map.drop_last(), district, k);
    }
}

/// A failure on a prefix of the rows is the failure of the whole table.
proof fn lemma_table_error_prefix(
    headers: Seq<Seq<char>>,
    rows: Seq<Option<Seq<Seq<char>>>>,
    party_map: Seq<(Seq<char>, Seq<char>)>,
    geometry_names: Seq<Seq<char>>,
    k: int,
)
    requires
        0 <= k <= rows.len(),
        table_records(headers, rows.take(k), party_map, geometry_names) is Err,
    ensures
        table_records(headers, rows, party_map, geometry_names) == table_records(
            headers,
            rows.take(k),
            party_map,
            geometry_names,
        ),
    decreases rows.len(),
{
    if k == rows.len() {
        assert(rows.take(k) =~= rows);
    } else {
        assert(rows.drop_last().take(k) =~= rows.take(k));
        lemma_table_error_prefix(headers, rows.drop_last(), party_map, geometry_names, k);
    }
}

/// `rec` is the record that `row` describes, with its boundary cloned from `geometries`.
pub open spec fn record_matches<G: Clone>(
    rec: VoteRecord<G>,
    row: RowRecord,
    geometries: Seq<(String, G)>,
) -> bool {
    &&& rec.wf()
    &&& rec.name_muni@ == row.name
    &&& rec.votes_view() == row.votes
    &&& rec.total_votes == vote_sum(row.votes)
    &&& match row.geometry {
        None => rec.geometry is None,
        Some(j) => rec.geometry matches Some(g) && cloned(geometries[j].1, g),
    }
}

/// `recs` are the records that `rows` describe, in order.
pub open spec fn records_match<G: Clone>(
    recs: Seq<VoteRecord<G>>,
    rows: Seq<RowRecord>,
    geometries: Seq<(String, G)>,
) -> bool {
    &&& recs.len() == rows.len()
    &&& forall|i: int| 0 <= i < rows.len() ==> record_matches(#[trigger] recs[i], rows[i], geometries)
}

/// The names under which boundaries are kept.
pub open spec fn geometry_names<G>(geometries: Seq<(String, G)>) -> Seq<Seq<char>> {
    keys(pairs_view(geometries))
}

/// The position of the first header named `column`.
pub fn get_column_index(headers: &Vec<String>, column: &str) -> (res: Option<usize>)
    ensures
        res matches Some(i) ==> i < headers.len() && first_position(strings_view(headers@), column@)
            == Some(i as int),
        res is None ==> first_position(strings_view(headers@), column@) is None,
{
    position_of(headers, column)
}

/// The votes of one row, as `row_votes` describes them.
fn votes_of_row(
    headers: &Vec<String>,
    row: &Vec<String>,
    party_map: &Vec<(String, String)>,
    district: &String,
) -> (res: Result<Vec<(String, i32)>, HarvestError>)
    requires
        row.len() == headers.len(),
    ensures
        match res {
            Ok(votes) => row_votes(
                strings_view(headers@),
                strings_view(row@),
                string_pairs_view(party_map@),
                district@,
            ) == Ok::<Seq<(Seq<char>, i32)>, HarvestFailure>(pairs_view(votes@)),
            Err(e) => row_votes(
                strings_view(headers@),
                strings_view(row@),
                string_pairs_view(party_map@),
                district@,
            ) == Err::<Seq<(Seq<char>, i32)>, HarvestFailure>(e@),
        },
{
    let ghost h = strings_view(headers@);
    let ghost r = strings_view(row@);
    let ghost pm = string_pairs_view(party_map@);
    let mut votes: Vec<(String, i32)> = Vec::new();
    let mut i: usize = 0;
    assert(pm.take(0) =~= Seq::<(Seq<char>, Seq<char>)>::empty());
    assert(pairs_view(votes@) =~= Seq::<(Seq<char>, i32)>::empty());
    while i < party_map.len()
        invariant
            h == strings_view(headers@),
            r == strings_view(row@),
            pm == string_pairs_view(party_map@),
            row.len() == headers.len(),
            i <= party_map.len(),
            row_votes(h, r, pm.take(i as int), district@) == Ok::<
                Seq<(Seq<char>, i32)>,
                HarvestFailure,
            >(pairs_view(votes@)),
        decreases party_map.len() - i,
    {
        let ghost before = pairs_view(votes@);
        assert(pm.take(i + 1).drop_last() =~= pm.take(i as int));
        assert(pm.take(i + 1).last() == pm[i as int]);
        let column = &party_map[i].0;
        let party = &party_map[i].1;
        match get_column_index(headers, column.as_str()) {
            None => {
                proof {
                    lemma_row_votes_error_prefix(h, r, pm, district@, i + 1);
                }
                return Err(HarvestError::MissingColumn(column.clone()));
            },
            Some(idx) => {
                assert(r[idx as int] == row@[idx as int]@);
                match parse_i32(row[idx].as_str()) {
                    None => {
                        proof {
                            lemma_row_votes_error_prefix(h, r, pm, district@, i + 1);
                        }
                        return Err(HarvestError::BadVoteCount(district.clone()));
                    },
                    Some(n) => {
                        insert_pair(&mut votes, party.clone(), n);
                    },
                }
            },
        }
        i = i + 1;
    }
    assert(pm.take(i as int) =~= pm);
    Ok(votes)
}

/// The record of one row, as `row_record` describes it.
fn record_of_row<G: Clone>(
    headers: &Vec<String>,
    row: &Vec<String>,
    party_map: &Vec<(String, String)>,
    geometries: &Vec<(String, G)>,
) -> (res: Result<VoteRecord<G>, HarvestError>)
    requires
        row.len() == headers.len(),
    ensures
        match res {
            Ok(rec) => row_record(
                strings_view(headers@),
                strings_view(row@),
                string_pairs_view(party_map@),
                geometry_names(geometries@),
            ) matches Ok(rr) && record_matches(rec, rr, geometries@),
            Err(e) => row_record(
                strings_view(headers@),
                strings_view(row@),
                string_pairs_view(party_map@),
                geometry_names(geometries@),
            ) == Err::<RowRecord, HarvestFailure>(e@),
        },
{
    let di = match get_column_index(headers, DISTRICT_COLUMN) {
        None => {
            return Err(HarvestError::MissingColumn(DISTRICT_COLUMN.to_string()));
        },
        Some(di) => di,
    };
    let district = row[di].clone();
    assert(strings_view(row@)[di as int] == district@);
    let votes = votes_of_row(headers, row, party_map, &district)?;
    proof {
        lemma_row_votes_distinct(
            strings_view(headers@),
            strings_view(row@),
            string_pairs_view(party_map@),
            district@,
        );
    }
    let geometry = match find_geometry(geometries, district.as_str()) {
        Some(j) => Some(geometries[j].1.clone()),
        None => None,
    };
    match VoteRecord::checked_new(district.clone(), votes, geometry) {
        Some(rec) => Ok(rec),
        None => Err(HarvestError::VoteTotalOverflow(district)),
    }
}

/// Where the boundary of `name` stands among `geometries`: its first occurrence.
fn find_geometry<G>(geometries: &Vec<(String, G)>, name: &str) -> (res: Option<usize>)
    ensures
        res matches Some(j) ==> j < geometries.len() && first_position(
            geometry_names(geometries@),
            name@,
        ) == Some(j as int),
        res is None ==> first_position(geometry_names(geometries@), name@) is None,
{
    crate::assoc::find_key(geometries, name)
}

/// The records of a table, in order, as `table_records` describes them:
/// each row is read by its district column and by the party map, and the
/// first record the reader could not read, or the first row that fails,
/// stops the table with its error.  A reader error is returned as it came.
pub fn records_from_table<G: Clone>(
    headers: &Vec<String>,
    records: Vec<Result<Vec<String>, csv::Error>>,
    party_map: &Vec<(String, String)>,
    geometries: &Vec<(String, G)>,
) -> (res: Result<Vec<VoteRecord<G>>, HarvestError>)
    requires
        rows_fit_headers(headers@.len(), records@),
    ensures
        match res {
            Ok(recs) => table_records(
                strings_view(headers@),
                records_view(records@),
                string_pairs_view(party_map@),
                geometry_names(geometries@),
            ) matches Ok(rrs) && records_match(recs@, rrs, geometries@),
            Err(e) => table_records(
                strings_view(headers@),
                records_view(records@),
                string_pairs_view(party_map@),
                geometry_names(geometries@),
            ) == Err::<Seq<RowRecord>, HarvestFailure>(e@),
        },
        res matches Err(HarvestError::Csv(e)) ==> exists|i: int|
            #[trigger] first_reader_error(records@, i) && records@[i] == Err::<
                Vec<String>,
                csv::Error,
            >(e),
{
    let ghost all = records@;
    let ghost h = strings_view(headers@);
    let ghost rv = records_view(records@);
    let ghost pm = string_pairs_view(party_map@);
    let ghost gn = geometry_names(geometries@);
    let n = records.len();
    let mut pending = records;
    let mut done: Vec<VoteRecord<G>> = Vec::new();
    let mut i: usize = 0;
    assert(rv.take(0) =~= Seq::<Option<Seq<Seq<char>>>>::empty());
    while i < n
        invariant
            n == all.len(),
            all == records@,
            h == strings_view(headers@),
            rv == records_view(all),
            pm == string_pairs_view(party_map@),
            gn == geometry_names(geometries@),
            rows_fit_headers(headers@.len(), all),
            i <= n,
            pending@ == all.subrange(i as int, n as int),
            forall|j: int| 0 <= j < i ==> #[trigger] all[j] is Ok,
            table_records(h, rv.take(i as int), pm, gn) matches Ok(rrs) && records_match(
                done@,
                rrs,
                geometries@,
            ),
        decreases n - i,
    {
        let ghost rrs = table_records(h, rv.take(i as int), pm, gn)->Ok_0;
        assert(rv.take(i + 1).drop_last() =~= rv.take(i as int));
        assert(rv.take(i + 1).last() == rv[i as int]);
        let record = pending.remove(0);
        assert(record == all[i as int]);
        let ghost seen = record;
        let row = match record {
            Err(e) => {
                proof {
                    assert(seen == Err::<Vec<String>, csv::Error>(e));
                    assert(rv[i as int] is None);
                    assert(table_records(h, rv.take(i + 1), pm, gn) == Err::<
                        Seq<RowRecord>,
                        HarvestFailure,
                    >(HarvestFailure::Csv));
                    lemma_table_error_prefix(h, rv, pm, gn, i + 1);
                    assert(first_reader_error(all, i as int));
                    assert(table_records(h, rv, pm, gn) == Err::<Seq<RowRecord>, HarvestFailure>(
                        HarvestError::Csv(e)@,
                    ));
                }
                return Err(HarvestError::Csv(e));
            },
            Ok(row) => row,
        };
        assert(rv[i as int] == Some(strings_view(row@)));
        assert(row@.len() == headers@.len());
        let rec = match record_of_row(headers, &row, party_map, geometries) {
            Ok(rec) => rec,
            Err(e) => {
                proof {
                    lemma_row_record_not_csv(h, strings_view(row@), pm, gn);
                    assert(table_records(h, rv.take(i + 1), pm, gn) == Err::<
                        Seq<RowRecord>,
                        HarvestFailure,
                    >(e@));
                    lemma_table_error_prefix(h, rv, pm, gn, i + 1);
                    assert(table_records(h, rv, pm, gn) == Err::<Seq<RowRecord>, HarvestFailure>(
                        e@,
                    ));
                    assert(!(e matches HarvestError::Csv(_)));
                }
                return Err(e);
            },
        };
        let ghost rr = row_record(h, strings_view(row@), pm, gn)->Ok_0;
        let ghost prev = done@;
        done.push(rec);
        assert(table_records(h, rv.take(i + 1), pm, gn) == Ok::<Seq<RowRecord>, HarvestFailure>(
            rrs.push(rr),
        ));
        assert(records_match(done@, rrs.push(rr), geometries@)) by {
            assert forall|k: int| 0 <= k < rrs.push(rr).len() implies record_matches(
                #[trigger] done@[k],
                rrs.push(rr)[k],
                geometries@,
            ) by {
                if k < rrs.len() {
                    assert(done@[k] == prev[k]);
                }
            }
        }
        i = i + 1;
        assert(pending@ =~= all.subrange(i as int, n as int));
    }
    assert(rv.take(n as int) =~= rv);
    Ok(done)
}

/// The selector of the table link did not parse.
pub struct SelectorRejected;

/// Where the URL of the district table comes from.
pub enum CsvUrl {
    /// The link on the results page.
    Scraped(String),
    /// The configured URL, where the page has no such link.
    Configured(String),
    /// Neither.
    Missing,
}

/// The choice of the table URL from what the selector found on the results
/// page (`None` where the selector does not parse, else the link's `href`,
/// if a link matched) and the configured URL: the page's link first.
pub fn csv_url_choice(found: Option<Option<String>>, configured: &Option<String>) -> (res: Result<
    CsvUrl,
    SelectorRejected,
>)
    ensures
        match found {
            None => res is Err,
            Some(Some(href)) => res matches Ok(CsvUrl::Scraped(url)) && url@ == href@,
            Some(None) => match configured {
                Some(c) => res matches Ok(CsvUrl::Configured(url)) && url@ == c@,
                None => res matches Ok(CsvUrl::Missing),
            },
        },
{
    match found {
        None => Err(SelectorRejected),
        Some(Some(href)) => Ok(CsvUrl::Scraped(href)),
        Some(None) => match configured {
            Some(url) => Ok(CsvUrl::Configured(url.clone())),
            None => Ok(CsvUrl::Missing),
        },
    }
}

/// The URL of the district table: the `href` of the first link on the
/// results page `html` that `CSV_LINK_SELECTOR` matches (its `LINK_ATTRIBUTE`), else the configured
/// URL.  `Err` where the selector does not parse.
pub fn csv_source_url(html: &str, configured: &Option<String>) -> (res: Result<
    CsvUrl,
    SelectorRejected,
>)
    ensures
        match css_first_attr(html@, CSV_LINK_SELECTOR@, LINK_ATTRIBUTE@) {
            None => res is Err,
            Some(Some(href)) => res matches Ok(CsvUrl::Scraped(url)) && url@ == href,
            Some(None) => match configured {
                Some(c) => res matches Ok(CsvUrl::Configured(url)) && url@ == c@,
                None => res matches Ok(CsvUrl::Missing),
            },
        },
{
    csv_url_choice(first_matching_attr(html, CSV_LINK_SELECTOR, LINK_ATTRIBUTE), configured)
}

/// The results of the election `name` from what the CSV reader gave for its
/// district table: a table whose header row could not be read fails with
/// the reader's error; otherwise one record per row, in order, as
/// `table_records` describes them.
pub fn votes_from_table<G: Clone>(
    name: &str,
    table: Result<CsvTable, csv::Error>,
    party_map: &Vec<(String, String)>,
    geometries: &Vec<(String, G)>,
) -> (res: Result<Vote<G>, HarvestError>)
    requires
        table matches Ok(t) ==> rows_fit_headers(t.headers@.len(), t.records@),
    ensures
        match table {
            Err(e0) => res matches Err(HarvestError::Csv(e)) && e == e0,
            Ok(t) => {
                &&& match res {
                    Ok(vote) => {
                        &&& vote.name@ == name@
                        &&& table_records(
                            strings_view(t.headers@),
                            records_view(t.records@),
                            string_pairs_view(party_map@),
                            geometry_names(geometries@),
                        ) matches Ok(rrs)
                        &&& records_match(vote.vote_records@, rrs, geometries@)
                    },
                    Err(e) => table_records(
                        strings_view(t.headers@),
                        records_view(t.records@),
                        string_pairs_view(party_map@),
                        geometry_names(geometries@),
                    ) == Err::<Seq<RowRecord>, HarvestFailure>(e@),
                }
                &&& res matches Err(HarvestError::Csv(e)) ==> exists|i: int|
                    #[trigger] first_reader_error(t.records@, i) && t.records@[i] == Err::<
                        Vec<String>,
                        csv::Error,
                    >(e)
            },
        },
{
    match table {
        Err(e) => Err(HarvestError::Csv(e)),
        Ok(table) => {
            let CsvTable { headers, records } = table;
            match records_from_table(&headers, records, party_map, geometries) {
                Err(e) => Err(e),
                Ok(vote_records) => Ok(Vote { name: name.to_string(), vote_records }),
            }
        },
    }
}

/// The results of the election `name` from its district table `content`
/// (semicolon separated, with a header row): one record per row, in row
/// order, as `csv_records` describes them.  Each district gets the first
/// boundary of its name in `geometries`.
pub fn votes_from_csv<G: Clone>(
    name: &str,
    content: &str,
    party_map: &Vec<(String, String)>,
    geometries: &Vec<(String, G)>,
) -> (res: Result<Vote<G>, HarvestError>)
    ensures
        match res {
            Ok(vote) => {
                &&& vote.name@ == name@
                &&& csv_records(
                    content@,
                    string_pairs_view(party_map@),
                    geometry_names(geometries@),
                ) matches Ok(rrs)
                &&& records_match(vote.vote_records@, rrs, geometries@)
            },
            Err(e) => csv_records(
                content@,
                string_pairs_view(party_map@),
                geometry_names(geometries@),
            ) == Err::<Seq<RowRecord>, HarvestFailure>(e@),
        },
{
    votes_from_table(name, read_csv(content, CSV_DELIMITER), party_map, geometries)
}

} // verus!
