//! The harvester's configuration: where the results of each election are found.
use vstd::prelude::*;

verus! {

/// One election to harvest.
#[derive(Debug)]
pub struct VoteSource {
    /// The results page of the election.
    pub url: String,
    /// The name of the election.
    pub name: String,
    /// The district table to use where the results page links to none.
    pub csv_url: Option<String>,
    /// For each column of the district table that holds votes, the party
    /// whose votes it holds.
    pub party_map: Vec<(String, String)>,
}

/// The elections to harvest.
#[derive(Debug)]
pub struct Config {
    pub vote_sources: Vec<VoteSource>,
}

} // verus!
