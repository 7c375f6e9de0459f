//! The search for candidates.

use super::{Matchmaker, Pivot};
use crate::model::ids_of;
use crate::player::PlayerEntry;
use crate::rating::{
    lemma_brackets_follow_order, lemma_top_bracket, max_rating, rating_to_bracket, zero_rating,
    OrdF64, MAX_RATING_BITS,
};
use crate::shard::{bucket_of, shard_index, shard_of, BucketKey, N_SHARDS};
use crate::shortlist::{distinct_ids, listed, shortlists, Candidate, MATCH_SIZE};
use vstd::prelude::*;

verus! {

/// Those of a group in earlier regions, or in earlier brackets of the region.
spec fn earlier(group: Set<PlayerEntry>, region: int, bracket: int) -> Set<PlayerEntry> {
    group.filter(
        |e: PlayerEntry|
            e.region < region || (e.region == region && e.skill_rating.bracket() < bracket),
    )
}

impl Matchmaker {
    /// The entries of the queued players.
    spec fn entries(self) -> Set<PlayerEntry> {
        Set::new(|e: PlayerEntry| self.live(e))
    }

    /// The entries that a search over some regions may take.
    spec fn hits(self, from: int, to: int, low: int, high: int) -> Set<PlayerEntry> {
        self.entries().filter(|e: PlayerEntry| from <= e.region < to && low <= e.rank() <= high)
    }

    proof fn lemma_entries(self)
        requires
            self.wf(),
        ensures
            self.entries().finite(),
            distinct_ids(self.entries()),
    {
        let entry_of = |id: u64| self.index@[id].entry;
        assert(self.index@.len() == self.index.len());
        self.index@.dom().lemma_map_finite(entry_of);
        assert(self.entries() =~= self.index@.dom().map(entry_of)) by {
            assert forall|e: PlayerEntry| #[trigger]
                self.entries().contains(e) implies self.index@.dom().map(entry_of).contains(e) by {
                assert(entry_of(e.id) == e);
            }
            assert forall|e: PlayerEntry| #[trigger]
                self.index@.dom().map(entry_of).contains(e) implies self.entries().contains(e) by {
                let id = choose|id: u64| self.index@.dom().contains(id) && e == entry_of(id);
                assert(self.index@.contains_key(id));
            }
        }
    }

    /// What a search may take lies in the brackets between those of its bounds.
    proof fn lemma_hits(self, from: int, to: int, low: OrdF64, high: OrdF64)
        requires
            self.wf(),
            !low.nan(),
            !high.nan(),
        ensures
            ({
                let hits = self.hits(from, to, low.rank(), high.rank());
                &&& hits.finite()
                &&& distinct_ids(hits)
                &&& forall|e: PlayerEntry| #[trigger]
                    hits.contains(e) ==> low.bracket() <= e.skill_rating.bracket() <= high.bracket()
            }),
    {
        self.lemma_entries();
        let hits = self.hits(from, to, low.rank(), high.rank());
        self.entries().lemma_len_filter(
            |e: PlayerEntry| from <= e.region < to && low.rank() <= e.rank() <= high.rank(),
        );
        assert forall|e: PlayerEntry| #[trigger] hits.contains(e) implies low.bracket()
            <= e.skill_rating.bracket() <= high.bracket() by {
            assert(self.live(e));
            assert(self.index@.contains_key(e.id));
            lemma_brackets_follow_order(low, e.skill_rating);
            lemma_brackets_follow_order(e.skill_rating, high);
        }
    }

    /// One more bucket adds its players to those that the search has met.
    proof fn lemma_bucket_of_hits(
        self,
        hits: Set<PlayerEntry>,
        from: int,
        to: int,
        low: int,
        high: int,
        key: BucketKey,
        s: int,
    )
        requires
            self.wf(),
            hits == self.hits(from, to, low, high),
            hits.finite(),
            distinct_ids(hits),
            from <= key.region < to <= self.regions@.len(),
            0 <= s < N_SHARDS,
            s == shard_of(key.bracket, self.regions@[key.region as int]),
        ensures
            ({
                let offered = earlier(hits, key.region as int, key.bracket as int);
                let window = self.shards@[s].window(key, low, high);
                &&& offered.finite()
                &&& offered.disjoint(self.shards@[s].bucket(key))
                &&& distinct_ids(offered.union(window))
                &&& offered.union(window) == earlier(hits, key.region as int, key.bracket + 1)
                &&& forall|e: PlayerEntry| #[trigger] window.contains(e) ==> self.live(e)
            }),
    {
        let offered = earlier(hits, key.region as int, key.bracket as int);
        let window = self.shards@[s].window(key, low, high);
        let next = earlier(hits, key.region as int, key.bracket + 1);
        hits.lemma_len_filter(
            |e: PlayerEntry|
                e.region < key.region || (e.region == key.region && e.skill_rating.bracket()
                    < key.bracket),
        );
        assert forall|e: PlayerEntry| #[trigger] window.contains(e) implies self.live(e)
            && hits.contains(e) by {
            assert(self.shards@[s]@.contains(e));
        }
        assert forall|e: PlayerEntry| #[trigger] next.contains(e) implies offered.union(
            window,
        ).contains(e) by {
            if !offered.contains(e) {
                assert(bucket_of(e) == key);
                assert(self.live(e));
                assert(self.index@.contains_key(e.id));
                assert(self.shards@[s]@.contains(e));
            }
        }
        assert(offered.union(window) =~= next);
    }

    /// A shortlist of the players that a search may take picks those who have
    /// waited longest.
    proof fn lemma_picks(self, hits: Set<PlayerEntry>, group: Set<u64>, list: Seq<Candidate>)
        requires
            self.wf(),
            hits.finite(),
            shortlists(list, hits),
            forall|e: PlayerEntry| #[trigger] hits.contains(e) ==> self.live(e) && group.contains(e.id),
            forall|id: u64| #[trigger]
                group.contains(id) ==> self.index@.contains_key(id) && hits.contains(
                    self.index@[id].entry,
                ),
        ensures
            self@.picks(group, ids_of(list)),
    {
        let ids = ids_of(list);
        self.lemma_ids(hits, group);
        assert forall|i: int, j: int| 0 <= i < j < ids.len() implies self@.waited_longer(
            #[trigger] ids[i],
            #[trigger] ids[j],
        ) by {
            assert(hits.contains(list[i].entry) && hits.contains(list[j].entry));
            assert(list[i].entry.older(list[j].entry));
        }
        assert forall|i: int| 0 <= i < ids.len() implies group.contains(#[trigger] ids[i]) by {
            assert(hits.contains(list[i].entry));
        }
        assert forall|id: u64| #[trigger] group.contains(id) implies ids.contains(id) || (ids.len()
            == MATCH_SIZE && self@.waited_longer(ids.last(), id)) by {
            let e = self.index@[id].entry;
            assert(hits.contains(e));
            if listed(list, e) {
                let i = choose|i: int| 0 <= i < list.len() && #[trigger] list[i].entry == e;
                assert(ids[i] == id);
            } else {
                assert(hits.contains(list.last().entry));
            }
        }
    }

    /// Collects candidates for a match: of the players who are eligible, those
    /// who have waited longest.
    pub fn collect_candidates(
        &self,
        pivot: &Pivot,
        window: OrdF64,
        allow_cross_region: bool,
    ) -> (candidates: Vec<Candidate>)
        requires
            self.wf(),
            pivot.wf(),
            !window.nan(),
            !window.below(zero_rating()),
        ensures
            self@.picks(
                self@.eligible(pivot.region@, pivot.median_rating, window, allow_cross_region),
                ids_of(candidates@),
            ),
            forall|i: int| 0 <= i < candidates@.len() ==> self@.has(#[trigger] candidates@[i]),
    {
        let low = pivot.median_rating.difference(window).max(OrdF64 { bits: 0 });
        let high = pivot.median_rating.sum(window).min(OrdF64 { bits: MAX_RATING_BITS });
        let min_bracket: u32 = rating_to_bracket(low);
        let max_bracket: u32 = rating_to_bracket(high);
        let min_key: i64 = low.key();
        let max_key: i64 = high.key();
        let regions: usize = self.regions.len();
        let (from, to): (usize, usize) = if allow_cross_region {
            (0, regions)
        } else {
            match self.regions.find(pivot.region.as_str()) {
                Some(number) => (number, number + 1),
                None => (0, 0),
            }
        };
        let ghost hits = self.hits(from as int, to as int, min_key as int, max_key as int);
        let mut candidates: Vec<Candidate> = Vec::new();
        proof {
            self.lemma_hits(from as int, to as int, low, high);
            lemma_top_bracket();
            lemma_brackets_follow_order(high, max_rating());
            assert(earlier(hits, from as int, 0) =~= Set::empty());
        }
        for number in from..to
            invariant
                self.wf(),
                hits == self.hits(from as int, to as int, min_key as int, max_key as int),
                hits.finite(),
                distinct_ids(hits),
                forall|e: PlayerEntry| #[trigger]
                    hits.contains(e) ==> min_bracket <= e.skill_rating.bracket() <= max_bracket,
                max_bracket < u32::MAX,
                to <= self.regions@.len(),
                shortlists(candidates@, earlier(hits, number as int, 0)),
                forall|i: int| 0 <= i < candidates@.len() ==> self@.has(#[trigger] candidates@[i]),
        {
            let name = self.regions.name(number);
            let mut bracket: u32 = min_bracket;
            assert(earlier(hits, number as int, min_bracket as int) =~= earlier(
                hits,
                number as int,
                0,
            ));
            while bracket <= max_bracket
                invariant
                    self.wf(),
                    hits == self.hits(from as int, to as int, min_key as int, max_key as int),
                    hits.finite(),
                    distinct_ids(hits),
                    from <= number < to <= self.regions@.len(),
                    max_bracket < u32::MAX,
                    name@ == self.regions@[number as int],
                    shortlists(candidates@, earlier(hits, number as int, bracket as int)),
                    forall|i: int|
                        0 <= i < candidates@.len() ==> self@.has(#[trigger] candidates@[i]),
                decreases max_bracket + 1 - bracket,
            {
                let key = BucketKey { bracket, region: number };
                let shard_idx: usize = shard_index(bracket, name);
                let ghost before = candidates@;
                proof {
                    self.lemma_bucket_of_hits(
                        hits,
                        from as int,
                        to as int,
                        min_key as int,
                        max_key as int,
                        key,
                        shard_idx as int,
                    );
                }
                self.shards[shard_idx].scan(
                    key,
                    min_key,
                    max_key,
                    shard_idx,
                    &mut candidates,
                    Ghost(earlier(hits, number as int, bracket as int)),
                );
                assert forall|i: int| 0 <= i < candidates@.len() implies self@.has(
                    #[trigger] candidates@[i],
                ) by {
                    let candidate = candidates@[i];
                    if before.contains(candidate) {
                        let j = choose|j: int| 0 <= j < before.len() && before[j] == candidate;
                        assert(self@.has(before[j]));
                    } else {
                        assert(self.live(candidate.entry));
                        assert(self.index@.contains_key(candidate.entry.id));
                    }
                }
                bracket = bracket + 1;
            }
            assert(earlier(hits, number as int, bracket as int) =~= earlier(hits, number + 1, 0));
        }
        proof {
            assert(earlier(hits, to as int, 0) =~= hits);
            let group = self@.eligible(
                pivot.region@,
                pivot.median_rating,
                window,
                allow_cross_region,
            );
            self.regions.lemma_distinct();
            assert forall|e: PlayerEntry| #[trigger] hits.contains(e) implies self.live(e)
                && group.contains(e.id) by {
                assert(self.index@.contains_key(e.id));
            }
            assert forall|id: u64| #[trigger] group.contains(id) implies self.index@.contains_key(id)
                && hits.contains(self.index@[id].entry) by {
                let e = self.index@[id].entry;
                assert(self.live(e));
                assert(self.regions@[e.region as int] == self@.queue[id].region);
            }
            self.lemma_picks(hits, group, candidates@);
        }
        candidates
    }
}

} // verus!
