//! Players as the queue holds them.

use crate::rating::OrdF64;
use vstd::prelude::*;
use vstd::set_lib::{lemma_len_subset, lemma_set_disjoint_lens};

verus! {

/// A queued player, as the buckets, the index and the age heap hold it.
///
/// The ticket tells one stay in the queue from another: it is the number of
/// players that had been queued before. The region is a number in the region
/// table.
#[derive(Clone, Copy, Debug, PartialEq, Eq, Structural)]
pub struct PlayerEntry {
    pub ticket: u64,
    pub id: u64,
    pub skill_rating: OrdF64,
    pub region: usize,
    pub join_timestamp: u64,
}

/// A player of a match, with the region by name.
#[derive(Debug)]
pub struct Player {
    pub id: u64,
    pub skill_rating: OrdF64,
    pub ping_region: String,
    pub join_timestamp: u64,
}

impl PlayerEntry {
    /// The place of the rating in the total order.
    pub open spec fn rank(self) -> int {
        self.skill_rating.rank()
    }

    /// Whether `self` has waited longer than `other`. Players who joined at the
    /// same instant are told apart by their ids.
    pub open spec fn older(self, other: PlayerEntry) -> bool {
        self.join_timestamp < other.join_timestamp || (self.join_timestamp == other.join_timestamp
            && self.id < other.id)
    }

    /// Whether `self` has waited longer than `other`.
    pub fn is_older(&self, other: &PlayerEntry) -> (result: bool)
        ensures
            result == self.older(*other),
    {
        self.join_timestamp < other.join_timestamp || (self.join_timestamp == other.join_timestamp
            && self.id < other.id)
    }
}

/// Whether `rating` is the median of a group: in rating order, that of the
/// member with half of the group before it. Of an even number of members it is
/// the upper middle one.
pub open spec fn is_median(group: Set<PlayerEntry>, rating: OrdF64) -> bool {
    let half = group.len() / 2;
    &&& group.filter(|e: PlayerEntry| e.rank() < rating.rank()).len() <= half
    &&& half < group.filter(|e: PlayerEntry| e.rank() <= rating.rank()).len()
}

/// A rating is the median of a group where at most half of the group stand lower
/// and fewer than half stand higher in the total order of ratings.
pub proof fn law_median_splits_the_group(
    group: Set<PlayerEntry>,
    rating: OrdF64,
    lower: Set<PlayerEntry>,
    higher: Set<PlayerEntry>,
)
    requires
        group.finite(),
        forall|e: PlayerEntry| #[trigger]
            lower.contains(e) <==> group.contains(e) && e.skill_rating.rank() < rating.rank(),
        forall|e: PlayerEntry| #[trigger]
            higher.contains(e) <==> group.contains(e) && e.skill_rating.rank() > rating.rank(),
    ensures
        is_median(group, rating) <==> 2 * lower.len() <= group.len() && 2 * higher.len()
            < group.len(),
{
    let most = group.filter(|e: PlayerEntry| e.rank() <= rating.rank());
    assert(group.filter(|e: PlayerEntry| e.rank() < rating.rank()) =~= lower);
    assert(most.union(higher) =~= group);
    assert(most.disjoint(higher));
    lemma_len_subset(most, group);
    lemma_len_subset(higher, group);
    lemma_set_disjoint_lens(most, higher);
}

} // verus!
