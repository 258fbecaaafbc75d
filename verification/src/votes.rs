//! Vote records: the results of one election in one municipality district.
//!
//! The geometry of a district is a type parameter: the library never looks
//! inside it, it only carries it from where it is found to where it is used.
use vstd::prelude::*;

use crate::assoc::{
    assoc_map, key_index, keys_distinct, lemma_assoc_map_entry, lemma_assoc_map_remove,
    lemma_key_index, pairs_view,
};

verus! {

/// The votes of one district.
pub struct VoteRecord<G> {
    /// Name of the district.
    pub name_muni: String,
    /// Votes per party, each party once.
    pub votes: Vec<(String, i32)>,
    /// Boundary of the district, where one is known.
    pub geometry: Option<G>,
    /// Sum of the votes of all parties.
    pub total_votes: i32,
}

/// The results of one election, district by district.
pub struct Vote<G> {
    /// Name of the election.
    pub name: String,
    /// One record per district.
    pub vote_records: Vec<VoteRecord<G>>,
}

/// The sum of the vote counts of a list of party votes.
pub open spec fn vote_sum(votes: Seq<(Seq<char>, i32)>) -> int
    decreases votes.len(),
{
    if votes.len() == 0 {
        0
    } else {
        vote_sum(votes.drop_last()) + votes.last().1
    }
}

/// `x` is in the range of `i32`.
pub open spec fn fits_i32(x: int) -> bool {
    i32::MIN <= x <= i32::MAX
}

/// Adding up the counts in list order stays in the range of `i32` at every step,
/// so that the running total never overflows.
pub open spec fn sums_fit(votes: Seq<(Seq<char>, i32)>) -> bool {
    forall|k: int| 0 <= k <= votes.len() ==> fits_i32(#[trigger] vote_sum(votes.take(k)))
}

impl<G> VoteRecord<G> {
    /// The party votes of the record as a list of (party, count).
    pub open spec fn votes_view(&self) -> Seq<(Seq<char>, i32)> {
        pairs_view(self.votes@)
    }

    /// A record is well formed where it names each party once and its total
    /// is the sum of its votes.
    pub open spec fn wf(&self) -> bool {
        &&& keys_distinct(self.votes_view())
        &&& self.total_votes == vote_sum(self.votes_view())
    }

    /// Builds a record and computes its total.  `votes` names each party
    /// once.  The total is added up in the order of `votes`; the running sum
    /// must not leave the range of `i32`.
    pub fn new(name_muni: String, votes: Vec<(String, i32)>, geometry: Option<G>) -> (res: Self)
        requires
            keys_distinct(pairs_view(votes@)),
            sums_fit(pairs_view(votes@)),
        ensures
            res.wf(),
            res.name_muni@ == name_muni@,
            res.votes@ == votes@,
            res.geometry == geometry,
            res.total_votes == vote_sum(pairs_view(votes@)),
    {
        let total_votes = match checked_total(&votes) {
            Some(t) => t,
            None => 0,
        };
        VoteRecord { name_muni, votes, geometry, total_votes }
    }

    /// Builds a record as `new` does where the running total stays in range,
    /// and gives `None` where it would overflow.
    pub fn checked_new(name_muni: String, votes: Vec<(String, i32)>, geometry: Option<G>) -> (res:
        Option<Self>)
        requires
            keys_distinct(pairs_view(votes@)),
        ensures
            res is Some <==> sums_fit(pairs_view(votes@)),
            res matches Some(r) ==> {
                &&& r.wf()
                &&& r.name_muni@ == name_muni@
                &&& r.votes@ == votes@
                &&& r.geometry == geometry
                &&& r.total_votes == vote_sum(pairs_view(votes@))
            },
    {
        match checked_total(&votes) {
            Some(total_votes) => Some(VoteRecord { name_muni, votes, geometry, total_votes }),
            None => None,
        }
    }
}

/// The total of a list of party votes, added up in list order; `None` where
/// the running total leaves the range of `i32`.
pub fn checked_total(votes: &Vec<(String, i32)>) -> (res: Option<i32>)
    ensures
        res is Some <==> sums_fit(pairs_view(votes@)),
        res matches Some(t) ==> t == vote_sum(pairs_view(votes@)),
{
    let ghost s = pairs_view(votes@);
    let mut total: i32 = 0;
    let mut i: usize = 0;
    assert(s.take(0) =~= Seq::<(Seq<char>, i32)>::empty());
    while i < votes.len()
        invariant
            s == pairs_view(votes@),
            i <= votes.len(),
            total == vote_sum(s.take(i as int)),
            forall|k: int| 0 <= k <= i ==> fits_i32(#[trigger] vote_sum(s.take(k))),
        decreases votes.len() - i,
    {
        assert(s.take(i + 1).drop_last() =~= s.take(i as int));
        assert(s.take(i + 1).last() == s[i as int]);
        match total.checked_add(votes[i].1) {
            Some(t) => {
                total = t;
            },
            None => {
                assert(!fits_i32(vote_sum(s.take(i + 1))));
                return None;
            },
        }
        i = i + 1;
    }
    assert(s.take(i as int) =~= s);
    Some(total)
}

/// Taking one entry out of a list takes its count out of the sum.
pub proof fn lemma_vote_sum_remove(s: Seq<(Seq<char>, i32)>, j: int)
    requires
        0 <= j < s.len(),
    ensures
        vote_sum(s) == vote_sum(s.remove(j)) + s[j].1,
    decreases s.len(),
{
    if j == s.len() - 1 {
        assert(s.remove(j) =~= s.drop_last());
    } else {
        assert(s.drop_last().remove(j) =~= s.remove(j).drop_last());
        lemma_vote_sum_remove(s.drop_last(), j);
        assert(s.remove(j).last() == s.last());
    }
}

/// Two lists with distinct parties that give every party the same count
/// have the same sum, whatever their order.
pub proof fn lemma_vote_sum_same_map(s: Seq<(Seq<char>, i32)>, t: Seq<(Seq<char>, i32)>)
    requires
        keys_distinct(s),
        keys_distinct(t),
        assoc_map(s) == assoc_map(t),
    ensures
        vote_sum(s) == vote_sum(t),
    decreases s.len(),
{
    if s.len() == 0 {
        if t.len() > 0 {
            lemma_assoc_map_entry(t, 0);
            lemma_key_index(s, t[0].0);
        }
    } else {
        let j0 = s.len() - 1;
        let k = s[j0].0;
        lemma_assoc_map_entry(s, j0);
        lemma_key_index(t, k);
        let j = key_index(t, k)->0;
        lemma_assoc_map_entry(t, j);
        lemma_assoc_map_remove(s, j0);
        lemma_assoc_map_remove(t, j);
        assert(s.remove(j0) =~= s.drop_last());
        lemma_vote_sum_same_map(s.drop_last(), t.remove(j));
        lemma_vote_sum_remove(t, j);
    }
}

} // verus!
